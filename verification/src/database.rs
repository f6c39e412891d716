//! The query executor and the request path around it.
//!
//! `execute_query` applies a parsed operation to the record map and forms
//! the response bytes; `process_query` validates a raw frame, parses it in
//! the session's dialect, executes it, and reports which operation ran.
//! The expiry sweep and the snapshot decision of the two background loops
//! live here as well; the loops' clocks, locks and file handles stay with
//! the caller.

use vstd::prelude::*;
use vstd::string::StrSliceExecFns;
use vstd::string::StringSliceAdditionalSpecFns;

use crate::append_bytes;
use crate::bitwise_query;
use crate::bytes_are_ascii;
use crate::clone_bytes;
use crate::contains_nul;
use crate::has_nul;
use crate::query;
use crate::query::arg_count;
use crate::bitwise_query::bitwise_parse;
use crate::query::string_parse;
use crate::query::QueryType;
use crate::slice_is_ascii;
use crate::store::keeps_fresh;
use crate::store::keeps_value_not;
use crate::store::kept;
use crate::store::map_retained;
use crate::store::Store;
use crate::ttl::ttl_expired;

verus! {

/// The reply to a mutating or dialect-switching operation.
pub open spec fn ok_msg() -> Seq<u8> {
    "Ok".spec_bytes()
}

/// The reply to a read whose key is absent.
pub open spec fn not_found_msg() -> Seq<u8> {
    "Error: Key not found!".spec_bytes()
}

/// The reply to a frame that no parser accepted.
pub open spec fn parse_failed_msg() -> Seq<u8> {
    "Could not properly parse query!".spec_bytes()
}

/// The reply to an empty, lone-newline, or non-ASCII frame.
pub open spec fn invalid_msg() -> Seq<u8> {
    "Invalid or empty query (must be valid ascii).".spec_bytes()
}

/// The warning prepended when a string-dialect frame holds NUL bytes.
pub open spec fn nul_warning_msg() -> Seq<u8> {
    "Non bitwise queries cannot contain null bytes".spec_bytes()
}

fn ok_bytes() -> (r: Vec<u8>)
    ensures
        r@ == ok_msg(),
{
    "Ok".as_bytes_vec()
}

fn not_found_bytes() -> (r: Vec<u8>)
    ensures
        r@ == not_found_msg(),
{
    "Error: Key not found!".as_bytes_vec()
}

fn parse_failed_bytes() -> (r: Vec<u8>)
    ensures
        r@ == parse_failed_msg(),
{
    "Could not properly parse query!".as_bytes_vec()
}

fn invalid_bytes() -> (r: Vec<u8>)
    ensures
        r@ == invalid_msg(),
{
    "Invalid or empty query (must be valid ascii).".as_bytes_vec()
}

fn nul_warning_bytes() -> (r: Vec<u8>)
    ensures
        r@ == nul_warning_msg(),
{
    "Non bitwise queries cannot contain null bytes".as_bytes_vec()
}

/// The record map after an operation: `New` inserts or replaces, `Drop`
/// removes its key, `DropAll` removes every key holding the given value,
/// and everything else leaves the map alone.
pub open spec fn apply_query(
    qt: QueryType,
    args: Seq<Seq<u8>>,
    m: Map<Seq<u8>, (Seq<u8>, Seq<u8>)>,
) -> Map<Seq<u8>, (Seq<u8>, Seq<u8>)> {
    match qt {
        QueryType::New => m.insert(args[0], (args[1], args[2])),
        QueryType::Drop => m.remove(args[0]),
        QueryType::DropAll => map_retained(m, keeps_value_not(args[0])),
        _ => m,
    }
}

/// The response bytes of an operation against map `m`: reads return the
/// stored value, ttl, or both joined by a NUL byte, or the key-not-found
/// text; everything else returns `Ok`.
pub open spec fn query_response(
    qt: QueryType,
    args: Seq<Seq<u8>>,
    m: Map<Seq<u8>, (Seq<u8>, Seq<u8>)>,
) -> Seq<u8> {
    match qt {
        QueryType::Get => if m.dom().contains(args[0]) {
            m[args[0]].0 + seq![0u8] + m[args[0]].1
        } else {
            not_found_msg()
        },
        QueryType::GetValue => if m.dom().contains(args[0]) {
            m[args[0]].0
        } else {
            not_found_msg()
        },
        QueryType::GetTTL => if m.dom().contains(args[0]) {
            m[args[0]].1
        } else {
            not_found_msg()
        },
        _ => ok_msg(),
    }
}

/// Form the response of a read operation: the requested part of the record
/// under `key`, or the key-not-found text.
pub fn get_value(db: &Store, key: &[u8], query_type: QueryType) -> (r: Vec<u8>)
    requires
        db.wf(),
        query_type == QueryType::Get || query_type == QueryType::GetValue || query_type
            == QueryType::GetTTL,
    ensures
        r@ == query_response(query_type, seq![key@], db@),
{
    match db.get(key) {
        Some((value, ttl)) => {
            if matches!(query_type, QueryType::Get) {
                let mut r = value;
                r.push(0);
                proof {
                    assert(r@ =~= db@[key@].0 + seq![0u8]);
                }
                append_bytes(&mut r, ttl.as_slice());
                r
            } else if matches!(query_type, QueryType::GetValue) {
                value
            } else {
                ttl
            }
        },
        None => not_found_bytes(),
    }
}

/// Apply a parsed operation to the record map and form its response.
pub fn execute_query(query_type: QueryType, arguments: Vec<Vec<u8>>, db: &mut Store) -> (r: Vec<
    u8,
>)
    requires
        old(db).wf(),
        arguments.deep_view().len() == arg_count(query_type),
    ensures
        final(db).wf(),
        final(db)@ == apply_query(query_type, arguments.deep_view(), old(db)@),
        r@ == query_response(query_type, arguments.deep_view(), old(db)@),
{
    proof {
        assert forall|k: int| 0 <= k < arguments@.len() implies #[trigger] arguments.deep_view()[k]
            == arguments@[k]@ by {
            assert(arguments@[k].deep_view() =~= arguments@[k]@);
        }
    }
    match query_type {
        QueryType::New => {
            let key = clone_bytes(&arguments[0]);
            let value = clone_bytes(&arguments[1]);
            let ttl = clone_bytes(&arguments[2]);
            db.insert(key, value, ttl);
            ok_bytes()
        },
        QueryType::Get => get_value(db, arguments[0].as_slice(), QueryType::Get),
        QueryType::GetValue => get_value(db, arguments[0].as_slice(), QueryType::GetValue),
        QueryType::GetTTL => get_value(db, arguments[0].as_slice(), QueryType::GetTTL),
        QueryType::Drop => {
            db.remove(arguments[0].as_slice());
            ok_bytes()
        },
        QueryType::DropAll => {
            db.drop_all(arguments[0].as_slice());
            ok_bytes()
        },
        QueryType::QueryTypeString => ok_bytes(),
        QueryType::QueryTypeBitwise => ok_bytes(),
    }
}

/// Whether a raw frame may be parsed at all: not empty, not a lone newline,
/// and pure ASCII.
pub open spec fn message_valid(bytes: Seq<u8>) -> bool {
    bytes.len() > 0 && bytes != seq![10u8] && bytes_are_ascii(bytes)
}

/// What processing a raw frame does, as one value: the operation that ran
/// (when one did), the record map afterwards, and the response bytes.
pub open spec fn process_result(
    m: Map<Seq<u8>, (Seq<u8>, Seq<u8>)>,
    bytes: Seq<u8>,
    is_bitwise: bool,
) -> (Option<QueryType>, Map<Seq<u8>, (Seq<u8>, Seq<u8>)>, Seq<u8>) {
    if !message_valid(bytes) {
        (None, m, invalid_msg())
    } else {
        let parsed = if is_bitwise {
            bitwise_parse(bytes)
        } else {
            string_parse(bytes)
        };
        let prefix = if !is_bitwise && contains_nul(bytes) {
            nul_warning_msg()
        } else {
            Seq::<u8>::empty()
        };
        match parsed {
            Some((qt, args)) => (
                Some(qt),
                apply_query(qt, args, m),
                prefix + query_response(qt, args, m),
            ),
            None => (None, m, parse_failed_msg()),
        }
    }
}

/// Validate, parse, and execute one raw frame against the record map.
///
/// Returns the operation that ran, when one did, and the response bytes to
/// write back.  A frame the validator or parser refuses leaves the map
/// untouched and yields an error text; the session stays open either way.
pub fn process_query(db: &mut Store, bytes: &[u8], is_bitwise: bool) -> (r: (
    Option<QueryType>,
    Vec<u8>,
))
    requires
        old(db).wf(),
    ensures
        final(db).wf(),
        r.0 == process_result(old(db)@, bytes@, is_bitwise).0,
        final(db)@ == process_result(old(db)@, bytes@, is_bitwise).1,
        r.1@ == process_result(old(db)@, bytes@, is_bitwise).2,
{
    let single_newline = bytes.len() == 1 && bytes[0] == 10;
    proof {
        if single_newline {
            assert(bytes@ =~= seq![10u8]);
        }
        if bytes@ == seq![10u8] {
            assert(bytes@.len() == 1 && bytes@[0] == 10);
        }
    }
    if bytes.len() == 0 || single_newline || !slice_is_ascii(bytes) {
        return (None, invalid_bytes());
    }
    let mut res: Vec<u8> = Vec::new();
    if !is_bitwise && has_nul(bytes) {
        res = nul_warning_bytes();
    }
    let parsed = if is_bitwise {
        bitwise_query::parse_query(bytes)
    } else {
        query::parse_query(bytes)
    };
    match parsed {
        Ok((query_type, arguments)) => {
            let out = execute_query(query_type, arguments, db);
            append_bytes(&mut res, out.as_slice());
            (Some(query_type), res)
        },
        Err(_) => (None, parse_failed_bytes()),
    }
}

/// Ask whether a snapshot is due and reset the change counter.
///
/// The snapshot loop calls this each tick: a nonzero counter means changes
/// happened since the last snapshot, so one is due and the counter starts
/// over; mutations that land while the snapshot is written re-raise it.
pub fn snapshot_needed(changed: &mut usize) -> (r: bool)
    ensures
        *final(changed) == 0,
        r == (*old(changed) != 0),
{
    let c = *changed;
    *changed = 0;
    c != 0
}

/// Remove every expired record and count each removal as a change.
///
/// The expiration loop calls this each tick with the current wall-clock
/// second; the caller supplies the clock.
pub fn expire_records(db: &mut Store, now: u64, changed: &mut usize)
    requires
        old(db).wf(),
        *old(changed) + old(db).spec_len() <= usize::MAX,
    ensures
        final(db).wf(),
        final(db)@ == map_retained(old(db)@, keeps_fresh(now)),
        final(db).records@ == kept(old(db).records@, keeps_fresh(now), 0),
        *final(changed) == *old(changed) + old(db).spec_len() - final(db).spec_len(),
{
    let before = db.len();
    db.sweep_expired(now);
    let after = db.len();
    *changed = *changed + (before - after);
}

/// Round trip of create and read: after `New(k, v, t)`, reading the value
/// gives `v`, reading the ttl gives `t`, and reading the record gives `v`, a
/// NUL byte, then `t`; the reads change nothing.
pub proof fn lemma_create_then_read(
    m: Map<Seq<u8>, (Seq<u8>, Seq<u8>)>,
    k: Seq<u8>,
    v: Seq<u8>,
    t: Seq<u8>,
)
    ensures
        ({
            let m1 = apply_query(QueryType::New, seq![k, v, t], m);
            &&& query_response(QueryType::GetValue, seq![k], m1) == v
            &&& query_response(QueryType::GetTTL, seq![k], m1) == t
            &&& query_response(QueryType::Get, seq![k], m1) == v + seq![0u8] + t
            &&& apply_query(QueryType::Get, seq![k], m1) == m1
            &&& apply_query(QueryType::GetValue, seq![k], m1) == m1
            &&& apply_query(QueryType::GetTTL, seq![k], m1) == m1
        }),
{
}

/// Create is last-writer-wins: two creates under one key leave the second
/// value and ttl, and reading the record returns them.
pub proof fn lemma_create_last_writer_wins(
    m: Map<Seq<u8>, (Seq<u8>, Seq<u8>)>,
    k: Seq<u8>,
    v1: Seq<u8>,
    t1: Seq<u8>,
    v2: Seq<u8>,
    t2: Seq<u8>,
)
    ensures
        ({
            let m2 = apply_query(
                QueryType::New,
                seq![k, v2, t2],
                apply_query(QueryType::New, seq![k, v1, t1], m),
            );
            &&& m2[k] == (v2, t2)
            &&& query_response(QueryType::Get, seq![k], m2) == v2 + seq![0u8] + t2
        }),
{
}

/// Drop is idempotent: both drops answer `Ok`, the second changes nothing,
/// and a read of the dropped key then misses.
pub proof fn lemma_drop_idempotent(m: Map<Seq<u8>, (Seq<u8>, Seq<u8>)>, k: Seq<u8>)
    ensures
        ({
            let m1 = apply_query(QueryType::Drop, seq![k], m);
            &&& query_response(QueryType::Drop, seq![k], m) == ok_msg()
            &&& query_response(QueryType::Drop, seq![k], m1) == ok_msg()
            &&& apply_query(QueryType::Drop, seq![k], m1) == m1
            &&& query_response(QueryType::GetValue, seq![k], m1) == not_found_msg()
        }),
{
    let m1 = apply_query(QueryType::Drop, seq![k], m);
    assert(m1.remove(k) =~= m1);
}

/// Drop-by-value removes exactly the matching records: afterwards a key is
/// present if and only if it was present with a different value, and the
/// surviving records are unchanged.
pub proof fn lemma_drop_all_matching(m: Map<Seq<u8>, (Seq<u8>, Seq<u8>)>, v: Seq<u8>)
    ensures
        ({
            let m1 = apply_query(QueryType::DropAll, seq![v], m);
            &&& forall|k: Seq<u8>| #[trigger]
                m1.dom().contains(k) <==> (m.dom().contains(k) && m[k].0 != v)
            &&& forall|k: Seq<u8>| #[trigger] m1.dom().contains(k) ==> m1[k] == m[k]
            &&& forall|k: Seq<u8>|
                m.dom().contains(k) && (#[trigger] m[k]).0 == v ==> query_response(
                    QueryType::GetValue,
                    seq![k],
                    m1,
                ) == not_found_msg()
        }),
{
}

/// Round trip of create and read over the wire, in the bitwise dialect:
/// for any ASCII, NUL-free key, value and ttl, processing the client's
/// create frame runs `New`, answers `Ok`, and stores the pair; processing
/// the client's read frames then returns the value, the ttl, and the two
/// joined by a NUL byte, without touching the map.
pub proof fn lemma_wire_round_trip(
    m: Map<Seq<u8>, (Seq<u8>, Seq<u8>)>,
    k: Seq<u8>,
    v: Seq<u8>,
    t: Seq<u8>,
)
    requires
        crate::bytes_are_ascii(k) && !crate::contains_nul(k),
        crate::bytes_are_ascii(v) && !crate::contains_nul(v),
        crate::bytes_are_ascii(t) && !crate::contains_nul(t),
    ensures
        ({
            let create = seq![48u8] + k + seq![0u8] + v + seq![0u8] + t;
            let m1 = process_result(m, create, true).1;
            &&& process_result(m, create, true).0 == Some(QueryType::New)
            &&& m1 == m.insert(k, (v, t))
            &&& process_result(m, create, true).2 == ok_msg()
            &&& process_result(m1, seq![50u8] + k, true).2 == v
            &&& process_result(m1, seq![51u8] + k, true).2 == t
            &&& process_result(m1, seq![49u8] + k, true).2 == v + seq![0u8] + t
            &&& process_result(m1, seq![49u8] + k, true).1 == m1
        }),
{
    let create = seq![48u8] + k + seq![0u8] + v + seq![0u8] + t;
    let after_key = 1 + k.len() as int;
    let after_value = after_key + 1 + v.len() as int;
    assert(create[0] == 48);
    assert(message_valid(create)) by {
        assert forall|i: int| 0 <= i < create.len() implies crate::byte_is_ascii(
            #[trigger] create[i],
        ) by {
            if 1 <= i < after_key {
                assert(create[i] == k[i - 1]);
            } else if after_key + 1 <= i < after_value {
                assert(create[i] == v[i - after_key - 1]);
            } else if after_value + 1 <= i {
                assert(create[i] == t[i - after_value - 1]);
            }
        }
        assert(create != seq![10u8]) by {
            assert(create[0] != 10);
        }
    }
    crate::bitwise_query::lemma_parse_new_query(k, v, t);
    assert(seq![k, v, t][0] == k && seq![k, v, t][1] == v && seq![k, v, t][2] == t);
    let m1 = m.insert(k, (v, t));
    assert(process_result(m, create, true).1 == m1);
    assert(Seq::<u8>::empty() + ok_msg() =~= ok_msg());

    assert forall|d: u8| d == 49 || d == 50 || d == 51 implies message_valid(
        #[trigger] (seq![d] + k),
    ) by {
        let rq = seq![d] + k;
        assert(rq[0] == d);
        assert forall|i: int| 0 <= i < rq.len() implies crate::byte_is_ascii(
            #[trigger] rq[i],
        ) by {
            if 1 <= i {
                assert(rq[i] == k[i - 1]);
            }
        }
        assert(rq != seq![10u8]) by {
            assert(rq[0] != 10);
        }
    }
    crate::bitwise_query::lemma_parse_simple_query(QueryType::Get, k);
    crate::bitwise_query::lemma_parse_simple_query(QueryType::GetValue, k);
    crate::bitwise_query::lemma_parse_simple_query(QueryType::GetTTL, k);
    assert(seq![k][0] == k);
    assert(m1.dom().contains(k) && m1[k] == (v, t));
    assert(Seq::<u8>::empty() + v =~= v);
    assert(Seq::<u8>::empty() + t =~= t);
    assert(Seq::<u8>::empty() + (v + seq![0u8] + t) =~= v + seq![0u8] + t);
}

/// Expiration: a record whose ttl has elapsed is gone after the sweep — the
/// sweep strictly shrinks the record sequence (so the sweep raises the
/// change counter) and a read of its key then misses.
pub proof fn lemma_expiration(s: Seq<crate::store::Record>, now: u64, j: int)
    requires
        crate::store::keys_unique(s),
        0 <= j < s.len(),
        ttl_expired(s[j].ttl@, now),
    ensures
        kept(s, keeps_fresh(now), 0).len() < s.len(),
        !map_retained(crate::store::seq_as_map(s), keeps_fresh(now)).dom().contains(s[j].key@),
        query_response(
            QueryType::GetValue,
            seq![s[j].key@],
            map_retained(crate::store::seq_as_map(s), keeps_fresh(now)),
        ) == not_found_msg(),
{
    let q = keeps_fresh(now);
    assert(!q(crate::store::pair_of(s[j])));
    crate::store::lemma_kept_drops(s, q, 0, j);
    crate::store::lemma_key_idx_unique(s, j);
    assert(crate::store::seq_as_map(s)[s[j].key@] == crate::store::pair_of(s[j]));
}

} // verus!
