//! Time-to-live strings.
//!
//! A ttl is the decimal text of an unsigned integer.  `"0"` means "no
//! expiry"; any other value is an absolute UNIX-epoch second count.  The
//! expiry sweep compares ttls to the current time numerically; a ttl that
//! does not parse as a number that fits the clock is never expired.

use vstd::prelude::*;

verus! {

/// Whether a byte is an ASCII decimal digit.
pub open spec fn is_digit(b: u8) -> bool {
    48 <= b <= 57
}

/// The numeric value of a digit byte (zero on non-digits).
pub open spec fn digit_val(b: u8) -> nat {
    if is_digit(b) {
        (b - 48) as nat
    } else {
        0
    }
}

/// Whether a byte string is a non-empty run of decimal digits.
pub open spec fn valid_dec(s: Seq<u8>) -> bool {
    s.len() > 0 && forall|i: int| 0 <= i < s.len() ==> is_digit(#[trigger] s[i])
}

/// The number denoted by a run of decimal digits.
pub open spec fn dec_val(s: Seq<u8>) -> nat
    decreases s.len(),
{
    if s.len() == 0 {
        0
    } else {
        10 * dec_val(s.drop_last()) + digit_val(s.last())
    }
}

/// The denoted number only grows as more digits are read.
proof fn lemma_dec_prefix(s: Seq<u8>, i: int)
    requires
        0 <= i <= s.len(),
    ensures
        dec_val(s) >= dec_val(s.subrange(0, i)),
    decreases s.len() - i,
{
    if i == s.len() {
        assert(s.subrange(0, i) =~= s);
    } else {
        let t = s.subrange(0, i + 1);
        assert(t.drop_last() =~= s.subrange(0, i));
        assert(dec_val(t) == 10 * dec_val(s.subrange(0, i)) + digit_val(s[i]));
        lemma_dec_prefix(s, i + 1);
    }
}

/// Parse a decimal byte string into a `u64`.
///
/// Returns `None` when the string is empty, holds a non-digit, or denotes a
/// number too large for a `u64`.
pub fn parse_dec_u64(s: &[u8]) -> (r: Option<u64>)
    ensures
        match r {
            Some(v) => valid_dec(s@) && dec_val(s@) == v,
            None => !valid_dec(s@) || dec_val(s@) > u64::MAX,
        },
{
    if s.len() == 0 {
        return None;
    }
    let mut acc: u64 = 0;
    let mut i: usize = 0;
    while i < s.len()
        invariant
            0 <= i <= s@.len(),
            s@.len() > 0,
            forall|j: int| 0 <= j < i ==> is_digit(#[trigger] s@[j]),
            acc == dec_val(s@.subrange(0, i as int)),
        decreases s@.len() - i,
    {
        let b = s[i];
        if b < 48 || b > 57 {
            return None;
        }
        let d: u64 = (b - 48) as u64;
        if acc > (u64::MAX - d) / 10 {
            proof {
                let p = s@.subrange(0, i as int + 1);
                assert(p.drop_last() =~= s@.subrange(0, i as int));
                assert(p.last() == s@[i as int]);
                assert(dec_val(p) == 10 * acc + d);
                assert(acc > (u64::MAX - d) / 10 ==> 10 * acc + d > u64::MAX) by (nonlinear_arith);
                lemma_dec_prefix(s@, i as int + 1);
            }
            return None;
        }
        proof {
            let p = s@.subrange(0, i as int + 1);
            assert(p.drop_last() =~= s@.subrange(0, i as int));
            assert(p.last() == s@[i as int]);
            assert(acc <= (u64::MAX - d) / 10 ==> 10 * acc + d <= u64::MAX) by (nonlinear_arith);
        }
        acc = acc * 10 + d;
        i += 1;
    }
    proof {
        assert(s@.subrange(0, i as int) =~= s@);
    }
    Some(acc)
}

/// Whether a record with ttl string `ttl` has expired at wall-clock second
/// `now`: the ttl is not the no-expiry marker `"0"`, denotes a number the
/// clock can reach, and that number is at or before `now`.
pub open spec fn ttl_expired(ttl: Seq<u8>, now: u64) -> bool {
    ttl != seq![48u8] && valid_dec(ttl) && dec_val(ttl) <= now
}

/// Decide expiry of a ttl string at wall-clock second `now`.
pub fn ttl_is_expired(ttl: &[u8], now: u64) -> (r: bool)
    ensures
        r == ttl_expired(ttl@, now),
{
    if ttl.len() == 1 && ttl[0] == 48 {
        proof {
            assert(ttl@ =~= seq![48u8]);
        }
        return false;
    }
    proof {
        if ttl@ == seq![48u8] {
            assert(ttl@.len() == 1 && ttl@[0] == 48);
        }
    }
    match parse_dec_u64(ttl) {
        Some(v) => v <= now,
        None => false,
    }
}

} // verus!
