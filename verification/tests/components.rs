use round_bank::barrier::Barrier;
use round_bank::pool::Pool;

#[test]
fn pool_credit_debit_read() {
    let mut p = Pool::new(1000);
    assert_eq!(p.read(), 1000);
    p.debit(250);
    assert_eq!(p.read(), 750);
    p.credit(50);
    assert_eq!(p.read(), 800);
    p.apply(-800);
    assert_eq!(p.read(), 0);
    p.apply(-5);
    assert_eq!(p.read(), -5);
}

#[test]
fn pool_balance_may_go_negative() {
    let mut p = Pool::new(10);
    p.debit(25);
    assert_eq!(p.read(), -15);
}

#[test]
fn barrier_releases_only_at_full_attendance() {
    let mut b = Barrier::new(3);
    assert!(!b.is_open(0));
    assert!(!b.arrive());
    assert!(!b.arrive());
    assert!(!b.is_open(0));
    assert!(b.arrive());
    assert!(b.is_open(0));
    assert!(!b.is_open(1));
}

#[test]
fn barrier_is_reusable_across_rounds() {
    let mut b = Barrier::new(2);
    assert!(!b.arrive());
    assert!(b.arrive());
    // Next round: the count has reset; the generation distinguishes rounds.
    assert!(!b.arrive());
    assert!(b.arrive());
    assert!(b.is_open(1));
    assert!(!b.is_open(2));
}

#[test]
fn single_task_barrier_always_releases() {
    let mut b = Barrier::new(1);
    assert!(b.arrive());
    assert!(b.arrive());
    assert!(b.is_open(0) && b.is_open(1));
}
