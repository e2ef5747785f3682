use round_bank::system::System;

/// Drives every investor of `s` through one full round, stepping the phases
/// in the given visiting order and feeding each investor its return line.
/// Returns the shares that were sent.
fn run_round(s: &mut System, order: &[usize], returns: &[i64]) -> Vec<i64> {
    let n = order.len();
    let mut shares = vec![0i64; n];
    for &i in order {
        assert!(s.can_pass_distribute(i));
        shares[i] = s.begin_round(i);
    }
    for &i in order {
        s.record_send(i, true);
    }
    for &i in order {
        assert!(s.can_pass_collect(i));
        s.pass_collect(i);
    }
    for &i in order {
        s.apply_debit(i);
    }
    for &i in order {
        let line = format!("{}\n", returns[i]);
        assert!(s.receive_line(i, &line));
    }
    for &i in order {
        s.apply_credit(i);
    }
    shares
}

#[test]
fn example_round_with_divisor_four() {
    // Initial balance 1000, divisor 4: every participant is sent 250, the
    // distribute-phase debits empty the pool, and returns of 300, 300, 300
    // and 100 restore it to 1000, so round two starts identically.
    let mut s = System::new(4, false, 1000);
    assert_eq!(s.participant_count(), 4);

    let shares = run_round(&mut s, &[0, 1, 2, 3], &[300, 300, 300, 100]);
    assert_eq!(shares, vec![250, 250, 250, 250]);
    assert_eq!(s.balance(), 1000);

    // The next round begins with the same balance and the same shares.
    let shares = run_round(&mut s, &[0, 1, 2, 3], &[250, 250, 250, 250]);
    assert_eq!(shares, vec![250, 250, 250, 250]);
    assert_eq!(s.balance(), 1000);
}

#[test]
fn pool_is_empty_between_debits_and_credits() {
    let mut s = System::new(4, false, 1000);
    for i in 0..4 {
        assert_eq!(s.begin_round(i), 250);
    }
    for i in 0..4 {
        s.record_send(i, true);
    }
    for i in 0..4 {
        s.pass_collect(i);
    }
    for i in 0..4 {
        s.apply_debit(i);
    }
    // All four shares are out; the floor division left nothing behind.
    assert_eq!(s.balance(), 0);
}

#[test]
fn remainder_stays_in_the_pool() {
    // 1003 split four ways: shares of 250, remainder 3 never distributed.
    let mut s = System::new(4, false, 1003);
    for i in 0..4 {
        assert_eq!(s.begin_round(i), 250);
    }
    for i in 0..4 {
        s.record_send(i, true);
    }
    for i in 0..4 {
        s.pass_collect(i);
    }
    for i in 0..4 {
        s.apply_debit(i);
    }
    assert_eq!(s.balance(), 3);
}

#[test]
fn observer_attends_but_does_not_mutate() {
    // Three investors plus the observer: the divisor is four, so each
    // investor is sent 250 but only three shares leave the pool.
    let mut s = System::new(3, true, 1000);
    assert_eq!(s.participant_count(), 4);
    let obs = 3;

    for i in 0..3 {
        assert_eq!(s.begin_round(i), 250);
    }
    assert_eq!(s.observe(obs), 1000);
    for i in 0..3 {
        s.record_send(i, true);
    }
    for i in 0..3 {
        assert!(s.can_pass_collect(i));
        s.pass_collect(i);
    }
    assert!(s.can_pass_collect(obs));
    s.pass_collect(obs);
    for i in 0..3 {
        s.apply_debit(i);
    }
    assert_eq!(s.balance(), 250);
    for i in 0..3 {
        assert!(s.receive_line(i, "250\n"));
    }
    for i in 0..3 {
        s.apply_credit(i);
    }
    assert_eq!(s.balance(), 1000);
    // The observer reports the new round's stable balance.
    assert_eq!(s.observe(obs), 1000);
}

#[test]
fn outcome_is_independent_of_interleaving() {
    // The same per-handler returns, visited in different orders, end every
    // round at the same balance.
    let returns = [420, -17, 333, 95];
    let mut a = System::new(4, false, 1000);
    let mut b = System::new(4, false, 1000);
    run_round(&mut a, &[0, 1, 2, 3], &returns);
    run_round(&mut b, &[3, 1, 0, 2], &returns);
    assert_eq!(a.balance(), b.balance());
    assert_eq!(a.balance(), 1000 - 4 * 250 + 420 - 17 + 333 + 95);
}

#[test]
fn negative_balance_uses_floor_shares() {
    // The rounding policy is floor division for balances of either sign: a
    // balance of -7 over four participants gives shares of -2, and debiting
    // them leaves the non-negative remainder 1.
    let mut s = System::new(4, false, -7);
    for i in 0..4 {
        assert_eq!(s.begin_round(i), -2);
    }
    for i in 0..4 {
        s.record_send(i, true);
    }
    for i in 0..4 {
        s.pass_collect(i);
    }
    for i in 0..4 {
        s.apply_debit(i);
    }
    assert_eq!(s.balance(), 1);
}

#[test]
fn withdrawals_can_drain_the_pool() {
    let mut s = System::new(2, false, 100);
    run_round(&mut s, &[0, 1], &[-10, 20]);
    assert_eq!(s.balance(), 100 - 2 * 50 - 10 + 20);
}

#[test]
fn next_round_opens_only_after_every_credit() {
    // The happens-before guarantee on concrete values: handlers 0..2 finish
    // their round, but nobody can take a round-two share until handler 3's
    // credit is in.
    let mut s = System::new(4, false, 1000);
    for i in 0..4 {
        s.begin_round(i);
    }
    for i in 0..4 {
        s.record_send(i, true);
    }
    for i in 0..4 {
        s.pass_collect(i);
    }
    for i in 0..4 {
        s.apply_debit(i);
    }
    for i in 0..4 {
        assert!(s.receive_line(i, "250\n"));
    }
    s.apply_credit(0);
    s.apply_credit(1);
    s.apply_credit(2);
    for i in 0..3 {
        assert!(!s.can_pass_distribute(i));
    }
    s.apply_credit(3);
    for i in 0..4 {
        assert!(s.can_pass_distribute(i));
    }
}

#[test]
fn write_failure_stalls_the_round() {
    // One participant's connection dies while its share is being written:
    // the collect rendezvous can never fill, so no peer can pass it, and no
    // one reaches the next round either — the documented liveness gap.
    let mut s = System::new(3, false, 300);
    for i in 0..3 {
        assert_eq!(s.begin_round(i), 100);
    }
    s.record_send(0, true);
    s.record_send(1, true);
    s.record_send(2, false);
    for i in 0..3 {
        assert!(!s.can_pass_collect(i));
        assert!(!s.can_pass_distribute(i));
    }
    assert_eq!(s.balance(), 300);
}

#[test]
fn mid_round_disconnect_blocks_the_next_round() {
    // A participant takes its share but closes before returning anything:
    // the peers finish their round, credit their returns, and then block
    // forever at the next round's distribute rendezvous.
    let mut s = System::new(3, false, 300);
    for i in 0..3 {
        s.begin_round(i);
    }
    for i in 0..3 {
        s.record_send(i, true);
    }
    for i in 0..3 {
        s.pass_collect(i);
    }
    for i in 0..3 {
        s.apply_debit(i);
    }
    // Handler 2's read fails: its participant closed mid-round.
    s.record_return(2, None);
    assert!(s.receive_line(0, "100\n"));
    assert!(s.receive_line(1, "100\n"));
    s.apply_credit(0);
    s.apply_credit(1);
    // The survivors are in the next round but its rendezvous never releases.
    assert!(!s.can_pass_distribute(0));
    assert!(!s.can_pass_distribute(1));
    assert_eq!(s.balance(), 300 - 3 * 100 + 200);
}

#[test]
fn malformed_return_kills_only_that_handler() {
    let mut s = System::new(2, false, 10);
    for i in 0..2 {
        s.begin_round(i);
    }
    for i in 0..2 {
        s.record_send(i, true);
    }
    for i in 0..2 {
        s.pass_collect(i);
    }
    for i in 0..2 {
        s.apply_debit(i);
    }
    assert!(!s.receive_line(0, "not a number\n"));
    assert!(s.receive_line(1, "5\n"));
    s.apply_credit(1);
    // Handler 1 is parked at the next round; handler 0 is dead.
    assert!(!s.can_pass_distribute(1));
}
