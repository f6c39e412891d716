//! The compute side of the client helper.
//!
//! A client speaks the bitwise dialect: it builds query bytes from a key,
//! value and ttl, and reads responses back — checking them for the error
//! text and splitting a full record at its NUL byte.  The socket work around
//! these stays with the caller.

use vstd::prelude::*;
use vstd::string::StrSliceExecFns;
use vstd::string::StringSliceAdditionalSpecFns;

use crate::append_bytes;
use crate::bytes_eq;
use crate::database::ok_msg;
use crate::query::byte_of_query_type;
use crate::query::QueryType;

verus! {

/// The client's error: the server answered in an unexpected shape.
#[derive(Clone, Copy, Debug, PartialEq, Eq, Structural)]
pub enum FireflyError {
    UnexpectedResponseError,
}

impl FireflyError {
    /// A short text naming the error.
    pub fn message(&self) -> (r: &'static str)
        ensures
            r@ == "unexpected response"@,
    {
        "unexpected response"
    }
}

/// Whether `pat` occurs as a contiguous run inside `s`.
pub open spec fn contains_bytes(s: Seq<u8>, pat: Seq<u8>) -> bool {
    exists|i: int| 0 <= i && i + pat.len() <= s.len() && #[trigger] s.subrange(i, i + pat.len()) == pat
}

/// Look for `pat` as a contiguous run inside `s`.
#[verifier::loop_isolation(false)]
pub fn find_bytes(s: &[u8], pat: &[u8]) -> (r: bool)
    ensures
        r == contains_bytes(s@, pat@),
{
    if pat.len() > s.len() {
        return false;
    }
    let n = s.len();
    let m = pat.len();
    let mut i: usize = 0;
    while i <= n - m
        invariant
            m <= n,
            n == s@.len(),
            m == pat@.len(),
            0 <= i <= n - m + 1,
            forall|a: int| 0 <= a < i ==> #[trigger] s@.subrange(a, a + pat@.len()) != pat@,
        decreases n - m + 1 - i,
    {
        let mut j: usize = 0;
        let mut hit = true;
        while j < pat.len()
            invariant
                0 <= j <= pat@.len(),
                i + pat@.len() <= s@.len(),
                hit == (forall|a: int| 0 <= a < j ==> s@[i + a] == pat@[a]),
            decreases pat@.len() - j,
        {
            if s[i + j] != pat[j] {
                hit = false;
                proof {
                    assert(s@[i + j] != pat@[j as int]);
                }
                break;
            }
            proof {
                assert(s@[i + j] == pat@[j as int]);
            }
            j += 1;
        }
        if hit {
            proof {
                assert(s@.subrange(i as int, i + pat@.len()) =~= pat@);
            }
            return true;
        }
        proof {
            let w = choose|a: int| 0 <= a < pat@.len() && s@[i + a] != pat@[a];
            assert(s@.subrange(i as int, i + pat@.len())[w] == s@[i + w]);
            assert(s@.subrange(i as int, i + pat@.len()) != pat@);
        }
        i += 1;
    }
    proof {
        assert forall|a: int| 0 <= a && a + pat@.len() <= s@.len() implies #[trigger] s@.subrange(
            a,
            a + pat@.len(),
        ) != pat@ by {
            assert(a < i);
        }
    }
    false
}

/// The text whose presence marks a response as failed.
pub open spec fn error_marker() -> Seq<u8> {
    "Error".spec_bytes()
}

/// Whether a server response counts as success for the client: it is the
/// plain `Ok`, or at least free of the error text.
pub open spec fn ok_response(response: Seq<u8>) -> bool {
    response == ok_msg() || !contains_bytes(response, error_marker())
}

/// Check a server response for success.
pub fn is_ok_response(response: &[u8]) -> (r: bool)
    ensures
        r == ok_response(response@),
{
    let ok = "Ok".as_bytes_vec();
    if bytes_eq(response, ok.as_slice()) {
        return true;
    }
    let marker = "Error".as_bytes_vec();
    !find_bytes(response, marker.as_slice())
}

/// The position of the first NUL byte of `s` at or after `i`.
pub open spec fn first_nul(s: Seq<u8>, i: int) -> Option<int>
    decreases s.len() - i,
{
    if i < 0 || i >= s.len() {
        None
    } else if s[i] == 0 {
        Some(i)
    } else {
        first_nul(s, i + 1)
    }
}

/// Split a full-record response at its first NUL byte into the value and
/// the ttl; nothing when no NUL is present.
pub fn split_record(response: &[u8]) -> (r: Option<(Vec<u8>, Vec<u8>)>)
    ensures
        match r {
            Some((v, t)) => {
                &&& first_nul(response@, 0) is Some
                &&& v@ == response@.subrange(0, first_nul(response@, 0)->Some_0)
                &&& t@ == response@.subrange(
                    first_nul(response@, 0)->Some_0 + 1,
                    response@.len() as int,
                )
            },
            None => first_nul(response@, 0) is None,
        },
{
    let mut i: usize = 0;
    while i < response.len()
        invariant
            0 <= i <= response@.len(),
            first_nul(response@, 0) == first_nul(response@, i as int),
        decreases response@.len() - i,
    {
        if response[i] == 0 {
            let mut value: Vec<u8> = Vec::new();
            let mut a: usize = 0;
            while a < i
                invariant
                    0 <= a <= i < response@.len(),
                    value@ == response@.subrange(0, a as int),
                decreases i - a,
            {
                value.push(response[a]);
                proof {
                    assert(value@ =~= response@.subrange(0, a as int + 1));
                }
                a += 1;
            }
            let mut ttl: Vec<u8> = Vec::new();
            let mut b: usize = i + 1;
            while b < response.len()
                invariant
                    i < b <= response@.len() || b == i + 1,
                    b <= response@.len(),
                    ttl@ == response@.subrange(i as int + 1, b as int),
                decreases response@.len() - b,
            {
                ttl.push(response[b]);
                proof {
                    assert(ttl@ =~= response@.subrange(i as int + 1, b as int + 1));
                }
                b += 1;
            }
            proof {
                assert(ttl@ =~= response@.subrange(i as int + 1, response@.len() as int));
                assert(value@ =~= response@.subrange(0, i as int));
            }
            return Some((value, ttl));
        }
        i += 1;
    }
    None
}

/// The bytes of a create query in the bitwise dialect.
pub fn new_query(key: &[u8], value: &[u8], ttl: &[u8]) -> (r: Vec<u8>)
    ensures
        r@ == seq![48u8] + key@ + seq![0u8] + value@ + seq![0u8] + ttl@,
{
    let mut r: Vec<u8> = Vec::new();
    r.push(48);
    append_bytes(&mut r, key);
    r.push(0);
    append_bytes(&mut r, value);
    r.push(0);
    append_bytes(&mut r, ttl);
    proof {
        assert(r@ =~= seq![48u8] + key@ + seq![0u8] + value@ + seq![0u8] + ttl@);
    }
    r
}

/// The bytes of a one-argument query in the bitwise dialect: the
/// operation's digit, then the key or value it works on.
pub fn simple_query(query_type: QueryType, arg: &[u8]) -> (r: Vec<u8>)
    ensures
        r@ == seq![byte_of_query_type(query_type)] + arg@,
{
    let mut r: Vec<u8> = Vec::new();
    r.push(query_type.as_byte());
    append_bytes(&mut r, arg);
    proof {
        assert(r@ =~= seq![byte_of_query_type(query_type)] + arg@);
    }
    r
}

} // verus!
