//! The bitwise-dialect parser.
//!
//! A statement of the bitwise dialect selects its operation with a single
//! ASCII digit — the first byte that is not a space or newline — and carries
//! its arguments after that digit, separated by NUL bytes.

use vstd::prelude::*;

use crate::lemma_empty_deep_view;
use crate::lemma_push_deep_view;
use crate::query::arg_count;
use crate::query::args_accepted;
use crate::query::byte_of_query_type;
use crate::query::fix_args;
use crate::query::parse_query_arguments;
use crate::query::query_type_of_byte;
use crate::query::QueryError;
use crate::query::QueryType;

verus! {

/// The first byte of the input that is not a space or newline.
pub open spec fn first_significant(q: Seq<u8>, i: int) -> Option<u8>
    decreases q.len() - i,
{
    if i < 0 || i >= q.len() {
        None
    } else if q[i] == 32 || q[i] == 10 {
        first_significant(q, i + 1)
    } else {
        Some(q[i])
    }
}

/// The operation a bitwise-dialect statement selects: the one of its first
/// significant byte, read as an ASCII digit.
pub open spec fn bitwise_verb_of(q: Seq<u8>) -> Option<QueryType> {
    match first_significant(q, 0) {
        Some(b) => query_type_of_byte(b),
        None => None,
    }
}

/// Deduce the operation of a bitwise-dialect statement from its first
/// significant byte.
#[verifier::loop_isolation(false)]
pub fn get_query_type(query: &[u8]) -> (r: Option<QueryType>)
    ensures
        r == bitwise_verb_of(query@),
{
    let mut i: usize = 0;
    while i < query.len()
        invariant
            0 <= i <= query@.len(),
            first_significant(query@, 0) == first_significant(query@, i as int),
        decreases query@.len() - i,
    {
        let b = query[i];
        if !(b == 32 || b == 10) {
            return QueryType::from_byte(b);
        }
        i += 1;
    }
    None
}

/// The state of the bitwise argument extractor: the finished arguments, the
/// bytes of the argument being read, and whether the operation digit has
/// been passed yet.
pub struct BitScan {
    pub args: Seq<Seq<u8>>,
    pub cur: Seq<u8>,
    pub passed: bool,
}

/// The extractor before any byte is read.
pub open spec fn bit_scan_init() -> BitScan {
    BitScan { args: Seq::empty(), cur: Seq::empty(), passed: false }
}

/// One byte of bitwise argument extraction.  Bytes up to and including the
/// first occurrence of the operation digit `idb` are skipped; after it, NUL
/// finishes an argument and any other byte accumulates.
pub open spec fn bit_step(st: BitScan, b: u8, idb: u8) -> BitScan {
    if !st.passed {
        BitScan { passed: b == idb, ..st }
    } else if b == 0 {
        BitScan { args: st.args.push(st.cur), cur: Seq::empty(), ..st }
    } else {
        BitScan { cur: st.cur.push(b), ..st }
    }
}

/// Run the bitwise argument extractor over the input from position `i` on.
pub open spec fn bit_run(st: BitScan, q: Seq<u8>, i: int, idb: u8) -> BitScan
    decreases q.len() - i,
{
    if i < 0 || i >= q.len() {
        st
    } else {
        bit_run(bit_step(st, q[i], idb), q, i + 1, idb)
    }
}

/// The arguments of a bitwise-dialect statement for operation `qt`: what the
/// extractor finishes, plus the argument still open when the input ends.
pub open spec fn bitwise_args_of(qt: QueryType, q: Seq<u8>) -> Seq<Seq<u8>> {
    let end = bit_run(bit_scan_init(), q, 0, byte_of_query_type(qt));
    end.args.push(end.cur)
}

/// Extract the NUL-separated arguments of a bitwise-dialect statement.
#[verifier::loop_isolation(false)]
pub fn get_arguments(query_type: QueryType, query: &[u8]) -> (r: Vec<Vec<u8>>)
    ensures
        r.deep_view() == bitwise_args_of(query_type, query@),
{
    let idb = query_type.as_byte();
    let mut args: Vec<Vec<u8>> = Vec::new();
    let mut cur: Vec<u8> = Vec::new();
    let mut passed: bool = false;
    let mut i: usize = 0;
    proof {
        lemma_empty_deep_view(args);
        assert(BitScan { args: args.deep_view(), cur: cur@, passed: passed } == bit_scan_init());
    }
    while i < query.len()
        invariant
            0 <= i <= query@.len(),
            bit_run(bit_scan_init(), query@, 0, idb) == bit_run(
                BitScan { args: args.deep_view(), cur: cur@, passed: passed },
                query@,
                i as int,
                idb,
            ),
        decreases query@.len() - i,
    {
        let ghost pre = BitScan { args: args.deep_view(), cur: cur@, passed: passed };
        let b = query[i];
        if !passed {
            passed = b == idb;
        } else if b == 0 {
            let ghost args_vec_pre = args;
            args.push(cur);
            cur = Vec::new();
            proof {
                lemma_push_deep_view(args_vec_pre, args, args@[args@.len() - 1]);
            }
        } else {
            cur.push(b);
        }
        proof {
            let post = BitScan { args: args.deep_view(), cur: cur@, passed: passed };
            assert(bit_step(pre, b, idb) == post);
        }
        i += 1;
    }
    let ghost args_vec_pre = args;
    args.push(cur);
    proof {
        lemma_push_deep_view(args_vec_pre, args, args@[args@.len() - 1]);
    }
    args
}

/// What parsing a raw bitwise-dialect statement yields: the selected
/// operation and its arity-checked arguments, or nothing when no operation
/// digit is found or the arity is wrong.
pub open spec fn bitwise_parse(q: Seq<u8>) -> Option<(QueryType, Seq<Seq<u8>>)> {
    match bitwise_verb_of(q) {
        None => None,
        Some(qt) => if args_accepted(qt, bitwise_args_of(qt, q)) {
            Some((qt, fix_args(qt, bitwise_args_of(qt, q))))
        } else {
            None
        },
    }
}

/// A run of bytes without NUL and without the operation digit seen yet
/// accumulates into the open argument.
proof fn lemma_bit_chunk(st: BitScan, q: Seq<u8>, i: int, j: int, idb: u8)
    requires
        st.passed,
        0 <= i <= j <= q.len(),
        forall|a: int| i <= a < j ==> q[a] != 0,
    ensures
        bit_run(st, q, i, idb) == bit_run(
            BitScan { cur: st.cur + q.subrange(i, j), ..st },
            q,
            j,
            idb,
        ),
    decreases j - i,
{
    if i == j {
        assert(st.cur + q.subrange(i, j) =~= st.cur);
    } else {
        assert(bit_step(st, q[i], idb) == BitScan { cur: st.cur.push(q[i]), ..st });
        lemma_bit_chunk(BitScan { cur: st.cur.push(q[i]), ..st }, q, i + 1, j, idb);
        assert(st.cur.push(q[i]) + q.subrange(i + 1, j) =~= st.cur + q.subrange(i, j));
    }
}

/// The client's create query parses back to exactly its three arguments:
/// for any NUL-free key, value and ttl, the bitwise parser reads the bytes
/// the client builds for `New` as that operation with that key, value and
/// ttl.
pub proof fn lemma_parse_new_query(k: Seq<u8>, v: Seq<u8>, t: Seq<u8>)
    requires
        !crate::contains_nul(k),
        !crate::contains_nul(v),
        !crate::contains_nul(t),
    ensures
        bitwise_parse(seq![48u8] + k + seq![0u8] + v + seq![0u8] + t) == Some(
            (QueryType::New, seq![k, v, t]),
        ),
{
    let q = seq![48u8] + k + seq![0u8] + v + seq![0u8] + t;
    let idb: u8 = 48;
    let after_key = 1 + k.len() as int;
    let after_value = after_key + 1 + v.len() as int;
    assert(q[0] == 48);
    assert(first_significant(q, 0) == Some(48u8));
    assert(bitwise_verb_of(q) == Some(QueryType::New));

    let st0 = bit_scan_init();
    assert(bit_step(st0, q[0], idb) == BitScan { passed: true, ..st0 });
    let st1 = BitScan { passed: true, ..st0 };
    assert(bit_run(st0, q, 0, idb) == bit_run(st1, q, 1, idb));
    assert forall|a: int| 1 <= a < after_key implies q[a] != 0 by {
        assert(q[a] == k[a - 1]);
        if k[a - 1] == 0 {
            assert(crate::contains_nul(k));
        }
    }
    lemma_bit_chunk(st1, q, 1, after_key, idb);
    assert(q.subrange(1, after_key) =~= k);
    assert(st1.cur + k =~= k);
    let st2 = BitScan { cur: k, ..st1 };
    assert(q[after_key] == 0);
    let st3 = BitScan { args: st2.args.push(k), cur: Seq::empty(), ..st2 };
    assert(bit_step(st2, q[after_key], idb) == st3);
    assert(bit_run(st2, q, after_key, idb) == bit_run(st3, q, after_key + 1, idb));
    assert forall|a: int| after_key + 1 <= a < after_value implies q[a] != 0 by {
        assert(q[a] == v[a - after_key - 1]);
        if v[a - after_key - 1] == 0 {
            assert(crate::contains_nul(v));
        }
    }
    lemma_bit_chunk(st3, q, after_key + 1, after_value, idb);
    assert(q.subrange(after_key + 1, after_value) =~= v);
    assert(st3.cur + v =~= v);
    let st4 = BitScan { cur: v, ..st3 };
    assert(q[after_value] == 0);
    let st5 = BitScan { args: st4.args.push(v), cur: Seq::empty(), ..st4 };
    assert(bit_step(st4, q[after_value], idb) == st5);
    assert(bit_run(st4, q, after_value, idb) == bit_run(st5, q, after_value + 1, idb));
    assert forall|a: int| after_value + 1 <= a < q.len() implies q[a] != 0 by {
        assert(q[a] == t[a - after_value - 1]);
        if t[a - after_value - 1] == 0 {
            assert(crate::contains_nul(t));
        }
    }
    lemma_bit_chunk(st5, q, after_value + 1, q.len() as int, idb);
    assert(q.subrange(after_value + 1, q.len() as int) =~= t);
    assert(st5.cur + t =~= t);
    let st6 = BitScan { cur: t, ..st5 };
    assert(bit_run(st6, q, q.len() as int, idb) == st6);
    assert(bitwise_args_of(QueryType::New, q) == st6.args.push(t));
    assert(st6.args.push(t) =~= seq![k, v, t]);
    assert(fix_args(QueryType::New, seq![k, v, t]) == seq![k, v, t]);
}

/// The client's one-argument queries parse back to exactly their argument:
/// for any NUL-free argument, the bitwise parser reads the bytes the client
/// builds for a read, drop, or drop-by-value as that operation with that
/// argument.
pub proof fn lemma_parse_simple_query(qt: QueryType, arg: Seq<u8>)
    requires
        !crate::contains_nul(arg),
        arg_count(qt) == 1,
    ensures
        bitwise_parse(seq![byte_of_query_type(qt)] + arg) == Some((qt, seq![arg])),
{
    let idb = byte_of_query_type(qt);
    let q = seq![idb] + arg;
    assert(q[0] == idb);
    assert(idb != 32 && idb != 10);
    assert(first_significant(q, 0) == Some(idb));
    assert(query_type_of_byte(idb) == Some(qt));

    let st0 = bit_scan_init();
    assert(bit_step(st0, q[0], idb) == BitScan { passed: true, ..st0 });
    let st1 = BitScan { passed: true, ..st0 };
    assert(bit_run(st0, q, 0, idb) == bit_run(st1, q, 1, idb));
    assert forall|a: int| 1 <= a < q.len() implies q[a] != 0 by {
        assert(q[a] == arg[a - 1]);
        if arg[a - 1] == 0 {
            assert(crate::contains_nul(arg));
        }
    }
    lemma_bit_chunk(st1, q, 1, q.len() as int, idb);
    assert(q.subrange(1, q.len() as int) =~= arg);
    assert(st1.cur + arg =~= arg);
    let st2 = BitScan { cur: arg, ..st1 };
    assert(bit_run(st2, q, q.len() as int, idb) == st2);
    assert(bitwise_args_of(qt, q) == st2.args.push(arg));
    assert(st2.args.push(arg) =~= seq![arg]);
    assert(qt != QueryType::New && qt != QueryType::QueryTypeString && qt
        != QueryType::QueryTypeBitwise);
    assert(fix_args(qt, seq![arg]) == seq![arg]);
}

/// Parse a bitwise-dialect statement into its operation and arguments.
pub fn parse_query(query: &[u8]) -> (r: Result<(QueryType, Vec<Vec<u8>>), QueryError>)
    ensures
        match r {
            Ok((qt, args)) => bitwise_parse(query@) == Some((qt, args.deep_view())),
            Err(e) => {
                &&& bitwise_parse(query@) is None
                &&& e == (if bitwise_verb_of(query@) is None {
                    QueryError::UnknownQueryType
                } else {
                    QueryError::WrongArgumentCount
                })
            },
        },
{
    match get_query_type(query) {
        Some(query_type) => {
            let arguments = get_arguments(query_type, query);
            parse_query_arguments(query_type, arguments)
        },
        None => Err(QueryError::UnknownQueryType),
    }
}

} // verus!
