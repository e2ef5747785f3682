//! The line-based wire protocol: newline-terminated base-10 integers.
//!
//! Each round the coordinator writes one line per participant holding its
//! share, and each participant answers with one line holding the amount it
//! returns.  A share line is unsigned; a return line may carry a leading
//! minus sign (a net withdrawal).  A line that is empty after stripping its
//! newline, or holds anything but the digits (and the optional sign), is
//! malformed and kills the handler that read it, exactly like an I/O error.
//!
//! Shares are normally non-negative, so the share line carries no sign.  A
//! negative pool yields a negative floor share; a runner that prints it sends
//! a signed line, which the participant's unsigned reader rejects — the
//! participant then closes, and the round stalls as on any lost connection.

use vstd::arithmetic::div_mod::{lemma_mod_division_less_than_divisor, lemma_remainder_lower};
use vstd::arithmetic::mul::lemma_mul_inequality;
use vstd::prelude::*;
use vstd::string::StringSliceAdditionalSpecFns;

verus! {

/// Why a received line was rejected.
#[derive(Clone, Copy, Debug, PartialEq, Eq, Structural)]
pub enum WireError {
    /// The line (after stripping its newline) is empty or holds a character
    /// outside the protocol's integer syntax.
    Malformed,
    /// The line is syntactically an integer, but its value does not fit the
    /// receiver's range.
    OutOfRange,
}

/// An ASCII decimal digit.
pub open spec fn is_digit(b: u8) -> bool {
    0x30 <= b <= 0x39
}

/// The value of one digit.
pub open spec fn digit_val(b: u8) -> nat {
    (b - 0x30) as nat
}

/// Every byte of the sequence is a digit.
pub open spec fn all_digits(s: Seq<u8>) -> bool {
    forall|i: int| 0 <= i < s.len() ==> is_digit(#[trigger] s[i])
}

/// The number the digit sequence denotes in base 10.
pub open spec fn dec_value(s: Seq<u8>) -> nat
    decreases s.len(),
{
    if s.len() == 0 {
        0
    } else {
        dec_value(s.drop_last()) * 10 + digit_val(s.last())
    }
}

/// The line without its terminating newline, if one is present.
pub open spec fn strip_newline(s: Seq<u8>) -> Seq<u8> {
    if s.len() > 0 && s.last() == 0x0a {
        s.drop_last()
    } else {
        s
    }
}

/// A well-formed unsigned line whose value fits below `max`: one or more
/// digits, then at most one newline.
pub open spec fn valid_count_line(s: Seq<u8>, max: nat) -> bool {
    let t = strip_newline(s);
    t.len() > 0 && all_digits(t) && dec_value(t) <= max
}

/// A well-formed signed return line: an optional leading minus, one or more
/// digits, at most one newline; the value must fit an `i64` (so the digits
/// may denote up to `i64::MAX`, or up to one more with the minus sign).
pub open spec fn valid_return_line(s: Seq<u8>) -> bool {
    let t = strip_newline(s);
    if t.len() > 0 && t[0] == 0x2d {
        let m = t.subrange(1, t.len() as int);
        m.len() > 0 && all_digits(m) && dec_value(m) <= 0x8000_0000_0000_0000
    } else {
        t.len() > 0 && all_digits(t) && dec_value(t) <= i64::MAX as nat
    }
}

/// The signed value a valid return line denotes.
pub open spec fn return_line_value(s: Seq<u8>) -> int {
    let t = strip_newline(s);
    if t.len() > 0 && t[0] == 0x2d {
        -(dec_value(t.subrange(1, t.len() as int)) as int)
    } else {
        dec_value(t) as int
    }
}

/// A digit sequence denotes at least what any of its prefixes denotes.
proof fn lemma_dec_value_prefix(s: Seq<u8>, m: int)
    requires
        0 <= m <= s.len(),
    ensures
        dec_value(s.subrange(0, m)) <= dec_value(s),
    decreases s.len() - m,
{
    if m == s.len() {
        assert(s.subrange(0, m) =~= s);
    } else {
        assert(s.subrange(0, m + 1).drop_last() =~= s.subrange(0, m));
        assert(s.subrange(0, m + 1).last() == s[m]);
        assert(dec_value(s.subrange(0, m)) <= dec_value(s.subrange(0, m)) * 10 + digit_val(s[m]));
        lemma_dec_value_prefix(s, m + 1);
    }
}

/// Parses the digits of `b` between `start` and `end` as a base-10 number of
/// at most `limit`.  Relied on by both line parsers; the segment may be
/// empty, in which case it parses as zero.
fn parse_digits(b: &[u8], start: usize, end: usize, limit: u64) -> (r: Result<u64, WireError>)
    requires
        start <= end <= b@.len(),
        9 <= limit,
    ensures
        ({
            let seg = b@.subrange(start as int, end as int);
            match r {
                Ok(v) => all_digits(seg) && dec_value(seg) <= limit as nat && v == dec_value(seg),
                Err(WireError::Malformed) => !all_digits(seg),
                Err(WireError::OutOfRange) => all_digits(seg) && dec_value(seg) > limit as nat,
            }
        }),
{
    let ghost seg = b@.subrange(start as int, end as int);
    let mut i: usize = start;
    while i < end
        invariant
            start <= i <= end <= b@.len(),
            seg == b@.subrange(start as int, end as int),
            forall|j: int| start <= j < i ==> is_digit(#[trigger] b@[j]),
        decreases end - i,
    {
        let c = b[i];
        if c < 0x30 || 0x39 < c {
            proof {
                assert(seg[i - start] == b@[i as int]);
            }
            return Err(WireError::Malformed);
        }
        i = i + 1;
    }
    proof {
        assert forall|j: int| 0 <= j < seg.len() implies is_digit(#[trigger] seg[j]) by {
            assert(seg[j] == b@[start + j]);
        }
    }
    let mut v: u64 = 0;
    i = start;
    while i < end
        invariant
            start <= i <= end <= b@.len(),
            9 <= limit,
            seg == b@.subrange(start as int, end as int),
            all_digits(seg),
            forall|j: int| start <= j < end ==> is_digit(#[trigger] b@[j]),
            v == dec_value(b@.subrange(start as int, i as int)),
            v <= limit,
        decreases end - i,
    {
        let d = b[i] - 0x30;
        let threshold = (limit - (d as u64)) / 10;
        let ghost pre = b@.subrange(start as int, i as int);
        let ghost ext = b@.subrange(start as int, i as int + 1);
        proof {
            assert(ext.drop_last() =~= pre);
            assert(ext.last() == b@[i as int]);
            assert(dec_value(ext) == dec_value(pre) * 10 + digit_val(b@[i as int]));
            lemma_remainder_lower(limit as int - d as int, 10);
            lemma_mod_division_less_than_divisor(limit as int - d as int, 10);
        }
        if v > threshold {
            proof {
                assert(v >= threshold + 1);
                lemma_mul_inequality(threshold as int + 1, v as int, 10);
                assert(dec_value(ext) > limit as nat);
                assert(ext =~= seg.subrange(0, i as int + 1 - start));
                lemma_dec_value_prefix(seg, i as int + 1 - start);
            }
            return Err(WireError::OutOfRange);
        }
        proof {
            lemma_mul_inequality(v as int, threshold as int, 10);
        }
        v = v * 10 + d as u64;
        i = i + 1;
    }
    proof {
        assert(b@.subrange(start as int, end as int) =~= seg);
    }
    Ok(v)
}

/// Reads an unsigned count from one protocol line: the digits of the line,
/// stripped of at most one terminating newline, as a `usize`.  This is how a
/// participant reads the share line it is sent each round.  Returns
/// `Malformed` exactly when the stripped line is empty or holds a non-digit,
/// and `OutOfRange` exactly when the digits denote more than `usize::MAX`.
pub fn read_usize(line: &str) -> (r: Result<usize, WireError>)
    ensures
        ({
            let t = strip_newline(line.spec_bytes());
            match r {
                Ok(v) => valid_count_line(line.spec_bytes(), usize::MAX as nat) && v == dec_value(
                    t,
                ),
                Err(WireError::Malformed) => !(t.len() > 0 && all_digits(t)),
                Err(WireError::OutOfRange) => t.len() > 0 && all_digits(t) && dec_value(t)
                    > usize::MAX as nat,
            }
        }),
{
    let b = line.as_bytes();
    let len = b.len();
    let end = if len > 0 && b[len - 1] == 0x0a {
        len - 1
    } else {
        len
    };
    proof {
        assert(strip_newline(line.spec_bytes()) =~= b@.subrange(0, end as int));
    }
    if end == 0 {
        return Err(WireError::Malformed);
    }
    match parse_digits(b, 0, end, usize::MAX as u64) {
        Ok(v) => Ok(v as usize),
        Err(e) => Err(e),
    }
}

/// Reads a signed return from one protocol line: an optional leading minus,
/// then digits, stripped of at most one terminating newline, as an `i64`.
/// This is how the coordinator reads the amount a participant gives back.
/// Returns `Malformed` exactly when the stripped line is empty, holds a
/// non-digit after the optional sign, or is a bare sign; `OutOfRange` exactly
/// when the digits denote a value outside the range of an `i64`.
pub fn parse_return(line: &str) -> (r: Result<i64, WireError>)
    ensures
        ({
            let t = strip_newline(line.spec_bytes());
            match r {
                Ok(v) => valid_return_line(line.spec_bytes()) && v == return_line_value(
                    line.spec_bytes(),
                ),
                Err(WireError::Malformed) => !(t.len() > 0) || (if t[0] == 0x2d {
                    !(t.len() > 1 && all_digits(t.subrange(1, t.len() as int)))
                } else {
                    !all_digits(t)
                }),
                Err(WireError::OutOfRange) => t.len() > 0 && (if t[0] == 0x2d {
                    t.len() > 1 && all_digits(t.subrange(1, t.len() as int)) && dec_value(
                        t.subrange(1, t.len() as int),
                    ) > 0x8000_0000_0000_0000
                } else {
                    all_digits(t) && dec_value(t) > i64::MAX as nat
                }),
            }
        }),
{
    let b = line.as_bytes();
    let len = b.len();
    let end = if len > 0 && b[len - 1] == 0x0a {
        len - 1
    } else {
        len
    };
    proof {
        assert(strip_newline(line.spec_bytes()) =~= b@.subrange(0, end as int));
    }
    if end == 0 {
        return Err(WireError::Malformed);
    }
    if b[0] == 0x2d {
        if end == 1 {
            return Err(WireError::Malformed);
        }
        proof {
            assert(strip_newline(line.spec_bytes()).subrange(
                1,
                strip_newline(line.spec_bytes()).len() as int,
            ) =~= b@.subrange(1, end as int));
        }
        match parse_digits(b, 1, end, 0x8000_0000_0000_0000u64) {
            Ok(v) => {
                if v == 0x8000_0000_0000_0000u64 {
                    Ok(i64::MIN)
                } else {
                    Ok(-(v as i64))
                }
            },
            Err(e) => Err(e),
        }
    } else {
        match parse_digits(b, 0, end, i64::MAX as u64) {
            Ok(v) => Ok(v as i64),
            Err(e) => Err(e),
        }
    }
}

} // verus!
