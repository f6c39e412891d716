//! The snapshot codec: the record map as a byte stream.
//!
//! Each record contributes three messages — key, value, ttl — and each
//! message is written as the delimiter byte NUL followed by its bytes, which
//! must be non-empty ASCII without NUL.  Reading walks the delimiters back
//! into messages and folds each group of three into a record, so the
//! read/write pair is inverse on well-formed stores.

use vstd::prelude::*;
use vstd::string::StrSliceExecFns;
use vstd::string::StringSliceAdditionalSpecFns;

use crate::clone_bytes;
use crate::lemma_empty_deep_view;
use crate::lemma_push_deep_view;
use crate::store::Record;
use crate::store::Store;

verus! {

/// The byte that starts each serialised message.
pub const DELIMITER_BYTE: u8 = 0;

/// How many messages one record contributes.
pub const PARTITION_AMOUNT: u8 = 3;

/// Whether a byte may appear inside a serialised message: ASCII and not the
/// delimiter.
pub open spec fn byte_accepted(b: u8) -> bool {
    b < 128 && b != 0
}

/// The decimal text of a number.
pub open spec fn dec_digits(n: nat) -> Seq<u8>
    decreases n,
{
    if n < 10 {
        seq![(48 + n) as u8]
    } else {
        dec_digits(n / 10).push((48 + n % 10) as u8)
    }
}

/// Render a byte's value as decimal text.
fn render_u8(n: u8) -> (r: Vec<u8>)
    ensures
        r@ == dec_digits(n as nat),
{
    let mut r: Vec<u8> = Vec::new();
    if n >= 100 {
        r.push(48 + n / 100);
    }
    if n >= 10 {
        r.push(48 + (n / 10) % 10);
    }
    r.push(48 + n % 10);
    proof {
        let nn = n as nat;
        assert(nn / 10 / 10 == nn / 100) by (nonlinear_arith);
        if n < 10 {
            assert(r@ =~= dec_digits(nn));
        } else if n < 100 {
            assert(nn / 10 < 10);
            assert((nn / 10) % 10 == nn / 10) by (nonlinear_arith)
                requires
                    nn / 10 < 10,
            ;
            assert(dec_digits(nn) == dec_digits(nn / 10).push((48 + nn % 10) as u8));
            assert(r@ =~= dec_digits(nn));
        } else {
            assert(nn / 100 < 10);
            assert(nn / 10 >= 10);
            assert(dec_digits(nn) == dec_digits(nn / 10).push((48 + nn % 10) as u8));
            assert(dec_digits(nn / 10) == dec_digits(nn / 10 / 10).push(
                (48 + (nn / 10) % 10) as u8,
            ));
            assert(r@ =~= dec_digits(nn));
        }
    }
    r
}

/// The error text for a byte a message may not hold.
pub open spec fn byte_error_msg(b: u8) -> Seq<u8> {
    if b >= 128 {
        "Non-ASCII character: ".spec_bytes() + dec_digits(b as nat)
    } else {
        "Illigal action (using delimiter character): ".spec_bytes() + dec_digits(b as nat)
    }
}

/// Check that a byte may appear inside a serialised message.
pub fn process_byte(byte: u8) -> (r: Result<u8, Vec<u8>>)
    ensures
        match r {
            Ok(b) => b == byte && byte_accepted(byte),
            Err(e) => !byte_accepted(byte) && e@ == byte_error_msg(byte),
        },
{
    if byte >= 128 {
        let mut e = "Non-ASCII character: ".as_bytes_vec();
        let d = render_u8(byte);
        crate::append_bytes(&mut e, d.as_slice());
        return Err(e);
    }
    if byte == 0 {
        let mut e = "Illigal action (using delimiter character): ".as_bytes_vec();
        let d = render_u8(byte);
        crate::append_bytes(&mut e, d.as_slice());
        return Err(e);
    }
    Ok(byte)
}

/// The position of the first byte of `m` (from `i` on) that a message may
/// not hold.
pub open spec fn first_bad_from(m: Seq<u8>, i: int) -> Option<int>
    decreases m.len() - i,
{
    if i < 0 || i >= m.len() {
        None
    } else if !byte_accepted(m[i]) {
        Some(i)
    } else {
        first_bad_from(m, i + 1)
    }
}

/// Whether a message can be serialised: non-empty, with every byte accepted.
pub open spec fn msg_ok(m: Seq<u8>) -> bool {
    m.len() > 0 && first_bad_from(m, 0) is None
}

/// What serialising one message yields: the delimiter and the message, or
/// the error text of its first unacceptable byte.
pub open spec fn msg_result(m: Seq<u8>) -> Result<Seq<u8>, Seq<u8>> {
    if m.len() == 0 {
        Err("Message is empty!".spec_bytes())
    } else {
        match first_bad_from(m, 0) {
            Some(j) => Err(byte_error_msg(m[j])),
            None => Ok(seq![0u8] + m),
        }
    }
}

/// Serialise one message: the delimiter byte, then its checked bytes.
pub fn process_message(message: &[u8]) -> (r: Result<Vec<u8>, Vec<u8>>)
    ensures
        match r {
            Ok(o) => msg_result(message@) == Ok::<Seq<u8>, Seq<u8>>(o@),
            Err(e) => msg_result(message@) == Err::<Seq<u8>, Seq<u8>>(e@),
        },
{
    if message.len() == 0 {
        return Err("Message is empty!".as_bytes_vec());
    }
    let mut result: Vec<u8> = Vec::new();
    result.push(0);
    let mut i: usize = 0;
    proof {
        assert(result@ =~= seq![0u8] + message@.subrange(0, 0));
    }
    while i < message.len()
        invariant
            0 <= i <= message@.len(),
            first_bad_from(message@, 0) == first_bad_from(message@, i as int),
            result@ == seq![0u8] + message@.subrange(0, i as int),
        decreases message@.len() - i,
    {
        match process_byte(message[i]) {
            Ok(b) => {
                result.push(b);
                proof {
                    assert(result@ =~= seq![0u8] + message@.subrange(0, i as int + 1));
                }
            },
            Err(e) => {
                return Err(e);
            },
        }
        i += 1;
    }
    proof {
        assert(message@.subrange(0, i as int) =~= message@);
    }
    Ok(result)
}

/// The bytes one record contributes to a snapshot.
pub open spec fn rec_enc(r: Record) -> Seq<u8> {
    seq![0u8] + r.key@ + seq![0u8] + r.value@ + seq![0u8] + r.ttl@
}

/// Whether a record can be serialised: all three of its messages can.
pub open spec fn rec_ok(r: Record) -> bool {
    msg_ok(r.key@) && msg_ok(r.value@) && msg_ok(r.ttl@)
}

/// The error text of the first message of a record that cannot be
/// serialised.
pub open spec fn rec_err(r: Record) -> Seq<u8> {
    if !msg_ok(r.key@) {
        msg_err(r.key@)
    } else if !msg_ok(r.value@) {
        msg_err(r.value@)
    } else {
        msg_err(r.ttl@)
    }
}

/// The error text of a message that cannot be serialised.
pub open spec fn msg_err(m: Seq<u8>) -> Seq<u8> {
    match msg_result(m) {
        Err(e) => e,
        Ok(_) => Seq::empty(),
    }
}

/// What serialising the records from position `i` on yields: their bytes in
/// record order, or the error of the first message that cannot be written.
pub open spec fn tv_from(s: Seq<Record>, i: int) -> Result<Seq<u8>, Seq<u8>>
    decreases s.len() - i,
{
    if i < 0 || i >= s.len() {
        Ok(Seq::empty())
    } else if !rec_ok(s[i]) {
        Err(rec_err(s[i]))
    } else {
        match tv_from(s, i + 1) {
            Ok(rest) => Ok(rec_enc(s[i]) + rest),
            Err(e) => Err(e),
        }
    }
}

/// A serialisation result with bytes put in front of its success value.
pub open spec fn tv_cat(pre: Seq<u8>, r: Result<Seq<u8>, Seq<u8>>) -> Result<Seq<u8>, Seq<u8>> {
    match r {
        Ok(rest) => Ok(pre + rest),
        Err(e) => Err(e),
    }
}

/// Serialise the record map into snapshot bytes.
#[verifier::loop_isolation(false)]
pub fn to_vec(db: &Store) -> (r: Result<Vec<u8>, Vec<u8>>)
    ensures
        match r {
            Ok(o) => tv_from(db.records@, 0) == Ok::<Seq<u8>, Seq<u8>>(o@),
            Err(e) => tv_from(db.records@, 0) == Err::<Seq<u8>, Seq<u8>>(e@),
        },
{
    let ghost s = db.records@;
    let mut out: Vec<u8> = Vec::new();
    let mut i: usize = 0;
    proof {
        if tv_from(s, 0) is Ok {
            assert(tv_cat(out@, tv_from(s, 0)) == tv_from(s, 0)) by {
                assert(out@ + tv_from(s, 0)->Ok_0 =~= tv_from(s, 0)->Ok_0);
            }
        }
    }
    while i < db.records.len()
        invariant
            0 <= i <= s.len(),
            tv_cat(out@, tv_from(s, i as int)) == tv_from(s, 0),
        decreases s.len() - i,
    {
        let rec = &db.records[i];
        let ghost pre = out@;
        let km = match process_message(rec.key.as_slice()) {
            Ok(o) => o,
            Err(e) => {
                return Err(e);
            },
        };
        let vm = match process_message(rec.value.as_slice()) {
            Ok(o) => o,
            Err(e) => {
                return Err(e);
            },
        };
        let tm = match process_message(rec.ttl.as_slice()) {
            Ok(o) => o,
            Err(e) => {
                return Err(e);
            },
        };
        crate::append_bytes(&mut out, km.as_slice());
        crate::append_bytes(&mut out, vm.as_slice());
        crate::append_bytes(&mut out, tm.as_slice());
        proof {
            assert(rec_ok(s[i as int]));
            assert(out@ =~= pre + rec_enc(s[i as int]));
            if tv_from(s, i as int + 1) is Ok {
                assert(out@ + tv_from(s, i as int + 1)->Ok_0 =~= pre + tv_from(s, i as int)->Ok_0);
            }
        }
        i += 1;
    }
    proof {
        assert(tv_from(s, i as int) == Ok::<Seq<u8>, Seq<u8>>(Seq::<u8>::empty()));
        assert(out@ + Seq::<u8>::empty() =~= out@);
    }
    Ok(out)
}

/// The end of the data run starting at `j`: the first position at or after
/// `j` holding the delimiter, or the end of the input.
pub open spec fn run_end(s: Seq<u8>, j: int) -> int
    decreases s.len() - j,
{
    if j < 0 || j >= s.len() || s[j] == 0 {
        j
    } else {
        run_end(s, j + 1)
    }
}

/// Bounds and contents of a data run.
proof fn lemma_run_end(s: Seq<u8>, j: int)
    requires
        0 <= j <= s.len(),
    ensures
        j <= run_end(s, j) <= s.len(),
        run_end(s, j) < s.len() ==> s[run_end(s, j)] == 0,
        forall|a: int| j <= a < run_end(s, j) ==> s[a] != 0,
    decreases s.len() - j,
{
    if j < s.len() && s[j] != 0 {
        lemma_run_end(s, j + 1);
    }
}

/// A run is delimited exactly by its first delimiter or the end of input.
proof fn lemma_run_end_fix(s: Seq<u8>, a: int, b: int)
    requires
        0 <= a <= b <= s.len(),
        forall|j: int| a <= j < b ==> s[j] != 0,
        b == s.len() || s[b] == 0,
    ensures
        run_end(s, a) == b,
    decreases b - a,
{
    if a < b {
        lemma_run_end_fix(s, a + 1, b);
    }
}

/// The messages a snapshot decodes to, from position `i` on: each is a
/// delimiter byte followed by a non-empty data run; nothing on any other
/// shape.
pub open spec fn msgs_from(s: Seq<u8>, i: int) -> Option<Seq<Seq<u8>>>
    decreases s.len() - i,
    when 0 <= i <= s.len()
    via msgs_from_decreases
{
    if i >= s.len() {
        Some(Seq::empty())
    } else if s[i] != 0 {
        None
    } else {
        let end = run_end(s, i + 1);
        if end == i + 1 {
            None
        } else {
            match msgs_from(s, end) {
                Some(rest) => Some(seq![s.subrange(i + 1, end)] + rest),
                None => None,
            }
        }
    }
}

#[via_fn]
proof fn msgs_from_decreases(s: Seq<u8>, i: int) {
    if 0 <= i < s.len() && s[i] == 0 {
        lemma_run_end(s, i + 1);
    }
}

/// A decoding result with messages put in front of its success value.
pub open spec fn opt_prepend(pre: Seq<Seq<u8>>, o: Option<Seq<Seq<u8>>>) -> Option<Seq<Seq<u8>>> {
    match o {
        Some(rest) => Some(pre + rest),
        None => None,
    }
}

/// The record map decoded messages fold to, taking them three at a time;
/// a later record under a key already seen replaces it.
pub open spec fn fold_triples(
    msgs: Seq<Seq<u8>>,
    j: int,
    m: Map<Seq<u8>, (Seq<u8>, Seq<u8>)>,
) -> Map<Seq<u8>, (Seq<u8>, Seq<u8>)>
    decreases msgs.len() - j,
{
    if j < 0 || j + 3 > msgs.len() {
        m
    } else {
        fold_triples(msgs, j + 3, m.insert(msgs[j], (msgs[j + 1], msgs[j + 2])))
    }
}

/// The error text of a snapshot that does not decode.
pub open spec fn malformed_msg() -> Seq<u8> {
    "Malformed snapshot data!".spec_bytes()
}

fn malformed_bytes() -> (r: Vec<u8>)
    ensures
        r@ == malformed_msg(),
{
    "Malformed snapshot data!".as_bytes_vec()
}

/// Deserialise snapshot bytes back into a record map.
///
/// The bytes must be a run of delimited non-empty messages whose count is a
/// multiple of three; anything else is refused.
#[verifier::loop_isolation(false)]
pub fn from_slice(slice: &[u8]) -> (r: Result<Store, Vec<u8>>)
    ensures
        match r {
            Ok(db) => {
                &&& msgs_from(slice@, 0) is Some
                &&& msgs_from(slice@, 0)->Some_0.len() % 3 == 0
                &&& db.wf()
                &&& db@ == fold_triples(
                    msgs_from(slice@, 0)->Some_0,
                    0,
                    Map::<Seq<u8>, (Seq<u8>, Seq<u8>)>::empty(),
                )
            },
            Err(e) => {
                &&& (msgs_from(slice@, 0) is None || msgs_from(slice@, 0)->Some_0.len() % 3 != 0)
                &&& e@ == malformed_msg()
            },
        },
{
    let ghost s = slice@;
    let mut msgs: Vec<Vec<u8>> = Vec::new();
    let mut i: usize = 0;
    proof {
        lemma_empty_deep_view(msgs);
        if msgs_from(s, 0) is Some {
            assert(msgs.deep_view() + msgs_from(s, 0)->Some_0 =~= msgs_from(s, 0)->Some_0);
        }
    }
    while i < slice.len()
        invariant
            0 <= i <= s.len(),
            opt_prepend(msgs.deep_view(), msgs_from(s, i as int)) == msgs_from(s, 0),
        decreases s.len() - i,
    {
        if slice[i] != 0 {
            return Err(malformed_bytes());
        }
        let mut j = i + 1;
        while j < slice.len() && slice[j] != 0
            invariant
                i + 1 <= j <= s.len(),
                forall|a: int| i + 1 <= a < j ==> s[a] != 0,
            decreases s.len() - j,
        {
            j += 1;
        }
        proof {
            lemma_run_end_fix(s, i as int + 1, j as int);
        }
        if j == i + 1 {
            return Err(malformed_bytes());
        }
        let mut seg: Vec<u8> = Vec::new();
        let mut a = i + 1;
        while a < j
            invariant
                i + 1 <= a <= j <= s.len(),
                seg@ == s.subrange(i as int + 1, a as int),
            decreases j - a,
        {
            seg.push(slice[a]);
            proof {
                assert(seg@ =~= s.subrange(i as int + 1, a as int + 1));
            }
            a += 1;
        }
        let ghost msgs_pre = msgs;
        msgs.push(seg);
        proof {
            lemma_push_deep_view(msgs_pre, msgs, msgs@[msgs@.len() - 1]);
            assert(msgs_from(s, i as int) == opt_prepend(
                seq![s.subrange(i as int + 1, j as int)],
                msgs_from(s, j as int),
            ));
            if msgs_from(s, j as int) is Some {
                assert(msgs.deep_view() + msgs_from(s, j as int)->Some_0 =~= msgs_pre.deep_view()
                    + msgs_from(s, i as int)->Some_0);
            }
        }
        i = j;
    }
    proof {
        assert(msgs_from(s, i as int) == Some(Seq::<Seq<u8>>::empty()));
        assert(msgs.deep_view() + Seq::<Seq<u8>>::empty() =~= msgs.deep_view());
        assert(msgs_from(s, 0) == Some(msgs.deep_view()));
    }
    if msgs.len() % 3 != 0 {
        return Err(malformed_bytes());
    }
    let mut db = Store::new();
    let mut k: usize = 0;
    while k < msgs.len()
        invariant
            0 <= k <= msgs.len(),
            k % 3 == 0,
            msgs.len() % 3 == 0,
            db.wf(),
            fold_triples(msgs.deep_view(), k as int, db@) == fold_triples(
                msgs.deep_view(),
                0,
                Map::<Seq<u8>, (Seq<u8>, Seq<u8>)>::empty(),
            ),
        decreases msgs.len() - k,
    {
        proof {
            assert(k + 3 <= msgs.len());
            assert forall|t: int| 0 <= t < msgs@.len() implies #[trigger] msgs.deep_view()[t]
                == msgs@[t]@ by {
                assert(msgs@[t].deep_view() =~= msgs@[t]@);
            }
        }
        let key = clone_bytes(&msgs[k]);
        let value = clone_bytes(&msgs[k + 1]);
        let ttl = clone_bytes(&msgs[k + 2]);
        db.insert(key, value, ttl);
        k += 3;
    }
    Ok(db)
}

/// The key, value and ttl messages of the records from position `i` on.
pub open spec fn flat_from(s: Seq<Record>, i: int) -> Seq<Seq<u8>>
    decreases s.len() - i,
{
    if i < 0 || i >= s.len() {
        Seq::empty()
    } else {
        seq![s[i].key@, s[i].value@, s[i].ttl@] + flat_from(s, i + 1)
    }
}

/// A message with no bad byte holds only accepted bytes.
proof fn lemma_first_bad_none(m: Seq<u8>, i: int)
    requires
        0 <= i <= m.len(),
        first_bad_from(m, i) is None,
    ensures
        forall|j: int| i <= j < m.len() ==> byte_accepted(#[trigger] m[j]),
    decreases m.len() - i,
{
    if i < m.len() {
        lemma_first_bad_none(m, i + 1);
    }
}

/// Data runs look the same from equal suffixes.
proof fn lemma_run_shift(s1: Seq<u8>, i1: int, s2: Seq<u8>, i2: int)
    requires
        0 <= i1 <= s1.len(),
        0 <= i2 <= s2.len(),
        s1.subrange(i1, s1.len() as int) == s2.subrange(i2, s2.len() as int),
    ensures
        run_end(s1, i1) - i1 == run_end(s2, i2) - i2,
    decreases s1.len() - i1,
{
    let a = s1.subrange(i1, s1.len() as int);
    let b = s2.subrange(i2, s2.len() as int);
    assert(a.len() == b.len());
    assert(a.len() == s1.len() - i1);
    assert(b.len() == s2.len() - i2);
    if i1 < s1.len() {
        assert(a[0] == s1[i1]);
        assert(b[0] == s2[i2]);
        if s1[i1] != 0 {
            assert forall|c: int| 0 <= c < s1.len() - i1 - 1 implies #[trigger] s1.subrange(
                i1 + 1,
                s1.len() as int,
            )[c] == s2.subrange(i2 + 1, s2.len() as int)[c] by {
                assert(a[c + 1] == s1[i1 + 1 + c]);
                assert(b[c + 1] == s2[i2 + 1 + c]);
            }
            assert(s1.subrange(i1 + 1, s1.len() as int) =~= s2.subrange(i2 + 1, s2.len() as int));
            lemma_run_shift(s1, i1 + 1, s2, i2 + 1);
        }
    }
}

/// Decoding looks the same from equal suffixes.
proof fn lemma_msgs_shift(s1: Seq<u8>, i1: int, s2: Seq<u8>, i2: int)
    requires
        0 <= i1 <= s1.len(),
        0 <= i2 <= s2.len(),
        s1.subrange(i1, s1.len() as int) == s2.subrange(i2, s2.len() as int),
    ensures
        msgs_from(s1, i1) == msgs_from(s2, i2),
    decreases s1.len() - i1,
{
    let a = s1.subrange(i1, s1.len() as int);
    let b = s2.subrange(i2, s2.len() as int);
    assert(a.len() == b.len());
    assert(a.len() == s1.len() - i1);
    assert(b.len() == s2.len() - i2);
    if i1 < s1.len() {
        assert(a[0] == s1[i1]);
        assert(b[0] == s2[i2]);
        assert forall|c: int| i1 <= c < s1.len() implies s1[c] == s2[c - i1 + i2] by {
            assert(a[c - i1] == s1[c]);
            assert(b[c - i1] == s2[c - i1 + i2]);
        }
        if s1[i1] == 0 {
            lemma_run_end(s1, i1 + 1);
            lemma_run_end(s2, i2 + 1);
            assert forall|c: int| 0 <= c < s1.len() - i1 - 1 implies #[trigger] s1.subrange(
                i1 + 1,
                s1.len() as int,
            )[c] == s2.subrange(i2 + 1, s2.len() as int)[c] by {
                assert(a[c + 1] == s1[i1 + 1 + c]);
                assert(b[c + 1] == s2[i2 + 1 + c]);
            }
            assert(s1.subrange(i1 + 1, s1.len() as int) =~= s2.subrange(i2 + 1, s2.len() as int));
            lemma_run_shift(s1, i1 + 1, s2, i2 + 1);
            let e1 = run_end(s1, i1 + 1);
            let e2 = run_end(s2, i2 + 1);
            if e1 > i1 + 1 {
                assert forall|c: int| 0 <= c < e1 - i1 - 1 implies #[trigger] s1.subrange(
                    i1 + 1,
                    e1,
                )[c] == s2.subrange(i2 + 1, e2)[c] by {
                    assert(a[c + 1] == s1[i1 + 1 + c]);
                    assert(b[c + 1] == s2[i2 + 1 + c]);
                }
                assert(s1.subrange(i1 + 1, e1) =~= s2.subrange(i2 + 1, e2));
                assert forall|c: int| 0 <= c < s1.len() - e1 implies #[trigger] s1.subrange(
                    e1,
                    s1.len() as int,
                )[c] == s2.subrange(e2, s2.len() as int)[c] by {
                    assert(a[e1 - i1 + c] == s1[e1 + c]);
                    assert(b[e1 - i1 + c] == s2[e2 + c]);
                }
                assert(s1.subrange(e1, s1.len() as int) =~= s2.subrange(e2, s2.len() as int));
                lemma_msgs_shift(s1, e1, s2, e2);
            }
        }
    }
}

/// Decoding one delimited message peels it off the front.
proof fn lemma_decode_msg(m: Seq<u8>, tail: Seq<u8>)
    requires
        msg_ok(m),
        tail.len() == 0 || tail[0] == 0,
    ensures
        msgs_from(seq![0u8] + m + tail, 0) == opt_prepend(seq![m], msgs_from(tail, 0)),
{
    let b = seq![0u8] + m + tail;
    let end = 1 + m.len() as int;
    assert(b[0] == 0);
    lemma_first_bad_none(m, 0);
    assert forall|j: int| 1 <= j < end implies b[j] != 0 by {
        assert(b[j] == m[j - 1]);
    }
    if tail.len() > 0 {
        assert(b[end] == tail[0]);
    }
    lemma_run_end_fix(b, 1, end);
    assert(b.subrange(1, end) =~= m);
    assert(b.subrange(end, b.len() as int) =~= tail);
    assert(tail.subrange(0, tail.len() as int) =~= tail);
    lemma_msgs_shift(b, end, tail, 0);
}

/// Decoding one record's bytes peels its three messages off the front.
proof fn lemma_decode_rec(r: Record, tail: Seq<u8>)
    requires
        rec_ok(r),
        tail.len() == 0 || tail[0] == 0,
    ensures
        msgs_from(rec_enc(r) + tail, 0) == opt_prepend(
            seq![r.key@, r.value@, r.ttl@],
            msgs_from(tail, 0),
        ),
{
    let t3 = seq![0u8] + r.ttl@ + tail;
    let t2 = seq![0u8] + r.value@ + t3;
    assert(t3[0] == 0);
    assert(t2[0] == 0);
    lemma_decode_msg(r.ttl@, tail);
    lemma_decode_msg(r.value@, t3);
    lemma_decode_msg(r.key@, t2);
    assert(rec_enc(r) + tail =~= seq![0u8] + r.key@ + t2);
    match msgs_from(tail, 0) {
        Some(rest) => {
            assert(seq![r.key@] + (seq![r.value@] + (seq![r.ttl@] + rest)) =~= seq![
                r.key@,
                r.value@,
                r.ttl@,
            ] + rest);
        },
        None => {},
    }
}

/// Decoding the serialised records from position `i` on yields exactly
/// their messages.
proof fn lemma_decode_all(s: Seq<Record>, i: int)
    requires
        0 <= i <= s.len(),
        tv_from(s, i) is Ok,
    ensures
        msgs_from(tv_from(s, i)->Ok_0, 0) == Some(flat_from(s, i)),
    decreases s.len() - i,
{
    if i >= s.len() {
        assert(tv_from(s, i)->Ok_0 =~= Seq::<u8>::empty());
        assert(flat_from(s, i) =~= Seq::<Seq<u8>>::empty());
    } else {
        let rest = tv_from(s, i + 1)->Ok_0;
        lemma_decode_all(s, i + 1);
        if i + 1 < s.len() {
            assert(rest[0] == 0) by {
                assert(rest == rec_enc(s[i + 1]) + tv_from(s, i + 2)->Ok_0);
                assert(rec_enc(s[i + 1])[0] == 0);
            }
        } else {
            assert(rest.len() == 0) by {
                assert(tv_from(s, i + 1)->Ok_0 =~= Seq::<u8>::empty());
            }
        }
        lemma_decode_rec(s[i], rest);
        assert(tv_from(s, i)->Ok_0 == rec_enc(s[i]) + rest);
        assert(seq![s[i].key@, s[i].value@, s[i].ttl@] + flat_from(s, i + 1) =~= flat_from(s, i));
    }
}

/// Folding looks the same from equal message suffixes.
proof fn lemma_fold_shift(
    m1: Seq<Seq<u8>>,
    j1: int,
    m2: Seq<Seq<u8>>,
    j2: int,
    acc: Map<Seq<u8>, (Seq<u8>, Seq<u8>)>,
)
    requires
        0 <= j1 <= m1.len(),
        0 <= j2 <= m2.len(),
        m1.subrange(j1, m1.len() as int) == m2.subrange(j2, m2.len() as int),
    ensures
        fold_triples(m1, j1, acc) == fold_triples(m2, j2, acc),
    decreases m1.len() - j1,
{
    let a = m1.subrange(j1, m1.len() as int);
    let b = m2.subrange(j2, m2.len() as int);
    assert(a.len() == b.len());
    assert(a.len() == m1.len() - j1);
    assert(b.len() == m2.len() - j2);
    if j1 + 3 <= m1.len() {
        assert(a[0] == m1[j1] && a[1] == m1[j1 + 1] && a[2] == m1[j1 + 2]);
        assert(b[0] == m2[j2] && b[1] == m2[j2 + 1] && b[2] == m2[j2 + 2]);
        assert forall|c: int| 0 <= c < m1.len() - j1 - 3 implies #[trigger] m1.subrange(
            j1 + 3,
            m1.len() as int,
        )[c] == m2.subrange(j2 + 3, m2.len() as int)[c] by {
            assert(a[c + 3] == m1[j1 + 3 + c]);
            assert(b[c + 3] == m2[j2 + 3 + c]);
        }
        assert(m1.subrange(j1 + 3, m1.len() as int) =~= m2.subrange(j2 + 3, m2.len() as int));
        lemma_fold_shift(m1, j1 + 3, m2, j2 + 3, acc.insert(m1[j1], (m1[j1 + 1], m1[j1 + 2])));
    }
}

/// Folding the messages of the records from position `i` on over the map of
/// the first `i` records rebuilds the whole map.
proof fn lemma_fold_all(s: Seq<Record>, i: int)
    requires
        crate::store::keys_unique(s),
        0 <= i <= s.len(),
    ensures
        fold_triples(
            flat_from(s, i),
            0,
            crate::store::seq_as_map(s.subrange(0, i)),
        ) == crate::store::seq_as_map(s),
    decreases s.len() - i,
{
    let pre = s.subrange(0, i);
    if i == s.len() {
        assert(flat_from(s, i) =~= Seq::<Seq<u8>>::empty());
        assert(pre =~= s);
    } else {
        let flat = flat_from(s, i);
        let r = s[i];
        assert(flat == seq![r.key@, r.value@, r.ttl@] + flat_from(s, i + 1));
        assert(flat.len() == 3 + flat_from(s, i + 1).len());
        assert(flat[0] == r.key@ && flat[1] == r.value@ && flat[2] == r.ttl@);
        assert forall|a: int, b: int| 0 <= a < b < pre.len() implies (#[trigger] pre[a]).key@
            != (#[trigger] pre[b]).key@ by {
            assert(pre[a] == s[a] && pre[b] == s[b]);
        }
        assert(!crate::store::seq_has_key(pre, r.key@)) by {
            if crate::store::seq_has_key(pre, r.key@) {
                let j = choose|j: int| 0 <= j < pre.len() && pre[j].key@ == r.key@;
                assert(s[j].key@ == s[i as int].key@);
            }
        }
        crate::store::lemma_map_push(pre, r);
        assert(pre.push(r) =~= s.subrange(0, i + 1));
        let acc = crate::store::seq_as_map(pre).insert(r.key@, crate::store::pair_of(r));
        assert(fold_triples(flat, 0, crate::store::seq_as_map(pre)) == fold_triples(flat, 3, acc));
        assert(flat.subrange(3, flat.len() as int) =~= flat_from(s, i + 1));
        assert(flat_from(s, i + 1).subrange(0, flat_from(s, i + 1).len() as int) =~= flat_from(
            s,
            i + 1,
        ));
        lemma_fold_shift(flat, 3, flat_from(s, i + 1), 0, acc);
        lemma_fold_all(s, i + 1);
    }
}

/// The messages of the records come in whole triples.
proof fn lemma_flat_len(s: Seq<Record>, i: int)
    requires
        0 <= i <= s.len(),
    ensures
        flat_from(s, i).len() == 3 * (s.len() - i),
    decreases s.len() - i,
{
    if i < s.len() {
        lemma_flat_len(s, i + 1);
    }
}

/// Snapshot recovery: reading back what was written restores the map.  For
/// any store with distinct keys whose records serialise, decoding the
/// written bytes yields exactly the records' messages, in whole triples, and
/// folding them rebuilds the same key-to-pair map — so a restart that loads
/// the snapshot serves every record the snapshot held.
pub proof fn lemma_snapshot_round_trip(s: Seq<Record>)
    requires
        crate::store::keys_unique(s),
        tv_from(s, 0) is Ok,
    ensures
        msgs_from(tv_from(s, 0)->Ok_0, 0) == Some(flat_from(s, 0)),
        flat_from(s, 0).len() % 3 == 0,
        fold_triples(
            flat_from(s, 0),
            0,
            Map::<Seq<u8>, (Seq<u8>, Seq<u8>)>::empty(),
        ) == crate::store::seq_as_map(s),
{
    lemma_decode_all(s, 0);
    lemma_flat_len(s, 0);
    assert(flat_from(s, 0).len() == 3 * s.len());
    assert((3 * s.len()) as int % 3 == 0) by (nonlinear_arith);
    assert(crate::store::seq_as_map(s.subrange(0, 0)) =~= Map::<
        Seq<u8>,
        (Seq<u8>, Seq<u8>),
    >::empty()) by {
        assert forall|k: Seq<u8>| !crate::store::seq_has_key(s.subrange(0, 0), k) by {}
    }
    lemma_fold_all(s, 0);
}

} // verus!
