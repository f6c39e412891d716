//! Firefly: an in-memory key/value store with per-record time-to-live,
//! spoken to over a length-delimited byte protocol with two wire dialects.
//!
//! This crate holds the verified core: the query model, the two dialect
//! parsers, the record map and query executor, the session bookkeeping,
//! the expiry sweep, and the snapshot codec.  Network and file plumbing
//! live outside the library and hand it plain byte slices.

use vstd::prelude::*;

pub mod ascii_optimisation;
pub mod bitwise_query;
pub mod client;
pub mod connection;
pub mod database;
pub mod query;
pub mod serialisation;
pub mod store;
pub mod ttl;

verus! {

/// Whether a byte is an ASCII code point.
pub open spec fn byte_is_ascii(b: u8) -> bool {
    b < 128
}

/// Whether every byte of a message is ASCII.
pub open spec fn bytes_are_ascii(s: Seq<u8>) -> bool {
    forall|i: int| 0 <= i < s.len() ==> byte_is_ascii(#[trigger] s[i])
}

/// Check that a byte slice holds only ASCII bytes.
pub fn slice_is_ascii(s: &[u8]) -> (r: bool)
    ensures
        r == bytes_are_ascii(s@),
{
    let mut i: usize = 0;
    while i < s.len()
        invariant
            0 <= i <= s@.len(),
            forall|j: int| 0 <= j < i ==> byte_is_ascii(#[trigger] s@[j]),
        decreases s@.len() - i,
    {
        if s[i] >= 128 {
            return false;
        }
        i += 1;
    }
    true
}

/// Compare two byte slices for equality of their contents.
pub fn bytes_eq(a: &[u8], b: &[u8]) -> (r: bool)
    ensures
        r == (a@ == b@),
{
    if a.len() != b.len() {
        return false;
    }
    let mut i: usize = 0;
    while i < a.len()
        invariant
            a@.len() == b@.len(),
            0 <= i <= a@.len(),
            forall|j: int| 0 <= j < i ==> a@[j] == b@[j],
        decreases a@.len() - i,
    {
        if a[i] != b[i] {
            return false;
        }
        i += 1;
    }
    proof {
        assert(a@ =~= b@);
    }
    true
}

/// Copy a byte vector; the copy holds the same bytes.
pub fn clone_bytes(v: &Vec<u8>) -> (r: Vec<u8>)
    ensures
        r@ == v@,
{
    let r = v.clone();
    proof {
        assert forall|i: int| 0 <= i < v@.len() implies v@[i] == r@[i] by {
            assert(cloned::<u8>(v[i], r[i]));
        }
        assert(v@ =~= r@);
    }
    r
}

/// Whether a byte string holds a NUL byte.
pub open spec fn contains_nul(s: Seq<u8>) -> bool {
    exists|i: int| 0 <= i < s.len() && s[i] == 0
}

/// Check whether a byte slice holds a NUL byte.
pub fn has_nul(s: &[u8]) -> (r: bool)
    ensures
        r == contains_nul(s@),
{
    let mut i: usize = 0;
    while i < s.len()
        invariant
            0 <= i <= s@.len(),
            forall|j: int| 0 <= j < i ==> s@[j] != 0,
        decreases s@.len() - i,
    {
        if s[i] == 0 {
            return true;
        }
        i += 1;
    }
    false
}

/// Append the bytes of `src` to `dst`.
pub fn append_bytes(dst: &mut Vec<u8>, src: &[u8])
    ensures
        final(dst)@ == old(dst)@ + src@,
{
    let mut i: usize = 0;
    proof {
        assert(dst@ =~= old(dst)@ + src@.subrange(0, 0));
    }
    while i < src.len()
        invariant
            0 <= i <= src@.len(),
            dst@ == old(dst)@ + src@.subrange(0, i as int),
        decreases src@.len() - i,
    {
        dst.push(src[i]);
        proof {
            assert(dst@ =~= old(dst)@ + src@.subrange(0, i as int + 1));
        }
        i += 1;
    }
    proof {
        assert(dst@ =~= old(dst)@ + src@);
    }
}

/// Pushing onto a vector of byte vectors pushes the bytes onto its deep view.
pub proof fn lemma_push_deep_view(pre: Vec<Vec<u8>>, post: Vec<Vec<u8>>, x: Vec<u8>)
    requires
        post@ == pre@.push(x),
    ensures
        post.deep_view() == pre.deep_view().push(x@),
{
    assert forall|k: int| 0 <= k < post.deep_view().len() implies post.deep_view()[k]
        == pre.deep_view().push(x@)[k] by {
        assert(post.deep_view()[k] == post@[k].deep_view());
        if k < pre@.len() {
            assert(post@[k] == pre@[k]);
            assert(pre.deep_view()[k] == pre@[k].deep_view());
        } else {
            assert(post@[k] == x);
        }
    }
    assert(post.deep_view() =~= pre.deep_view().push(x@));
}

/// A vector of byte vectors with no elements has an empty deep view.
pub proof fn lemma_empty_deep_view(v: Vec<Vec<u8>>)
    requires
        v@.len() == 0,
    ensures
        v.deep_view() == Seq::<Seq<u8>>::empty(),
{
    assert(v.deep_view() =~= Seq::<Seq<u8>>::empty());
}

} // verus!
