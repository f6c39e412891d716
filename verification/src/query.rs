//! The query model and the string-dialect parser.
//!
//! A statement of the string dialect is a verb, quoted arguments, and a
//! terminating `;`.  Verb recognition is prefix-streaming over the input
//! with spaces and newlines skipped and case folded away: the match advances
//! while more than one verb is still consistent; once exactly one candidate
//! remains it wins, and once none remains the most recent verb whose prefix
//! had been fully walked wins.  Arguments are quoted with `'` or `"`; the
//! quote that opens the first argument closes every argument of the
//! statement, and bytes outside quotes are ignored filler.

use vstd::prelude::*;

use crate::lemma_empty_deep_view;
use crate::lemma_push_deep_view;

verus! {

/// The eight operation kinds.
#[derive(Clone, Copy, Debug, PartialEq, Eq, Structural)]
pub enum QueryType {
    New,
    Get,
    GetValue,
    GetTTL,
    Drop,
    DropAll,
    QueryTypeString,
    QueryTypeBitwise,
}

/// Errors of the two dialect parsers.
#[derive(Clone, Copy, Debug, PartialEq, Eq, Structural)]
pub enum QueryError {
    /// No verb (or operation digit) could be recognised.
    UnknownQueryType,
    /// The recognised operation came with the wrong number of arguments.
    WrongArgumentCount,
}

/// The operation selected by an ASCII digit byte, as the bitwise dialect
/// writes it.
pub open spec fn query_type_of_byte(byte: u8) -> Option<QueryType> {
    if byte == 48 {
        Some(QueryType::New)
    } else if byte == 49 {
        Some(QueryType::Get)
    } else if byte == 50 {
        Some(QueryType::GetValue)
    } else if byte == 51 {
        Some(QueryType::GetTTL)
    } else if byte == 52 {
        Some(QueryType::Drop)
    } else if byte == 53 {
        Some(QueryType::DropAll)
    } else if byte == 54 {
        Some(QueryType::QueryTypeString)
    } else if byte == 55 {
        Some(QueryType::QueryTypeBitwise)
    } else {
        None
    }
}

/// The ASCII digit byte that selects an operation.
pub open spec fn byte_of_query_type(qt: QueryType) -> u8 {
    match qt {
        QueryType::New => 48,
        QueryType::Get => 49,
        QueryType::GetValue => 50,
        QueryType::GetTTL => 51,
        QueryType::Drop => 52,
        QueryType::DropAll => 53,
        QueryType::QueryTypeString => 54,
        QueryType::QueryTypeBitwise => 55,
    }
}

impl QueryType {
    /// The query type selected by an ASCII digit byte, `None` otherwise.
    pub fn from_byte(byte: u8) -> (r: Option<QueryType>)
        ensures
            r == query_type_of_byte(byte),
    {
        match byte {
            48 => Some(QueryType::New),
            49 => Some(QueryType::Get),
            50 => Some(QueryType::GetValue),
            51 => Some(QueryType::GetTTL),
            52 => Some(QueryType::Drop),
            53 => Some(QueryType::DropAll),
            54 => Some(QueryType::QueryTypeString),
            55 => Some(QueryType::QueryTypeBitwise),
            _ => None,
        }
    }

    /// The ASCII digit byte of this query type.
    pub fn as_byte(&self) -> (r: u8)
        ensures
            r == byte_of_query_type(*self),
            query_type_of_byte(r) == Some(*self),
    {
        match self {
            QueryType::New => 48,
            QueryType::Get => 49,
            QueryType::GetValue => 50,
            QueryType::GetTTL => 51,
            QueryType::Drop => 52,
            QueryType::DropAll => 53,
            QueryType::QueryTypeString => 54,
            QueryType::QueryTypeBitwise => 55,
        }
    }
}

/// The upper-case verb of each query type, as ASCII bytes.
pub open spec fn verb_chars(qt: QueryType) -> Seq<u8> {
    match qt {
        QueryType::New => seq![78u8, 69, 87],
        QueryType::Get => seq![71u8, 69, 84],
        QueryType::GetValue => seq![71u8, 69, 84, 86, 65, 76, 85, 69],
        QueryType::GetTTL => seq![71u8, 69, 84, 84, 84, 76],
        QueryType::Drop => seq![68u8, 82, 79, 80],
        QueryType::DropAll => seq![68u8, 82, 79, 80, 65, 76, 76],
        QueryType::QueryTypeString => seq![81u8, 85, 69, 82, 89, 84, 89, 80, 69, 83, 84, 82, 73, 78, 71],
        QueryType::QueryTypeBitwise => seq![81u8, 85, 69, 82, 89, 84, 89, 80, 69, 66, 73, 84, 87, 73, 83, 69],
    }
}

/// Build the verb bytes of a query type.
fn verb_bytes(qt: QueryType) -> (r: Vec<u8>)
    ensures
        r@ == verb_chars(qt),
{
    let mut r: Vec<u8> = Vec::new();
    match qt {
        QueryType::New => {
            r.push(78);
            r.push(69);
            r.push(87);
        },
        QueryType::Get => {
            r.push(71);
            r.push(69);
            r.push(84);
        },
        QueryType::GetValue => {
            r.push(71);
            r.push(69);
            r.push(84);
            r.push(86);
            r.push(65);
            r.push(76);
            r.push(85);
            r.push(69);
        },
        QueryType::GetTTL => {
            r.push(71);
            r.push(69);
            r.push(84);
            r.push(84);
            r.push(84);
            r.push(76);
        },
        QueryType::Drop => {
            r.push(68);
            r.push(82);
            r.push(79);
            r.push(80);
        },
        QueryType::DropAll => {
            r.push(68);
            r.push(82);
            r.push(79);
            r.push(80);
            r.push(65);
            r.push(76);
            r.push(76);
        },
        QueryType::QueryTypeString => {
            r.push(81);
            r.push(85);
            r.push(69);
            r.push(82);
            r.push(89);
            r.push(84);
            r.push(89);
            r.push(80);
            r.push(69);
            r.push(83);
            r.push(84);
            r.push(82);
            r.push(73);
            r.push(78);
            r.push(71);
        },
        QueryType::QueryTypeBitwise => {
            r.push(81);
            r.push(85);
            r.push(69);
            r.push(82);
            r.push(89);
            r.push(84);
            r.push(89);
            r.push(80);
            r.push(69);
            r.push(66);
            r.push(73);
            r.push(84);
            r.push(87);
            r.push(73);
            r.push(83);
            r.push(69);
        },
    }
    proof {
        assert(r@ =~= verb_chars(qt));
    }
    r
}

/// Whether verb matching skips over a byte.
pub open spec fn is_skippable(b: u8) -> bool {
    b == 32 || b == 10
}

/// A byte with an ASCII lower-case letter folded to upper case.
pub open spec fn upper_byte(b: u8) -> u8 {
    if 97 <= b && b <= 122 {
        (b - 32) as u8
    } else {
        b
    }
}

/// The case-folded letters of the input from position `i` on, with spaces
/// and newlines dropped.
pub open spec fn letters_from(q: Seq<u8>, i: int) -> Seq<u8>
    decreases q.len() - i,
{
    if i < 0 || i >= q.len() {
        Seq::empty()
    } else if is_skippable(q[i]) {
        letters_from(q, i + 1)
    } else {
        seq![upper_byte(q[i])] + letters_from(q, i + 1)
    }
}

/// The case-folded letters of the whole input.
pub open spec fn letters_of(q: Seq<u8>) -> Seq<u8> {
    letters_from(q, 0)
}

/// Whether the verb of `qt` is still consistent after the first `i` letters:
/// it is at least `i` letters long and agrees with them all.
pub open spec fn verb_alive(qt: QueryType, letters: Seq<u8>, i: int) -> bool {
    &&& 0 <= i <= letters.len()
    &&& verb_chars(qt).len() >= i
    &&& verb_chars(qt).subrange(0, i) == letters.subrange(0, i)
}

/// How many verbs are still consistent after the first `i` letters.
pub open spec fn alive_count(letters: Seq<u8>, i: int) -> int {
    (if verb_alive(QueryType::New, letters, i) { 1int } else { 0 })
        + (if verb_alive(QueryType::Get, letters, i) { 1int } else { 0 })
        + (if verb_alive(QueryType::GetValue, letters, i) { 1int } else { 0 })
        + (if verb_alive(QueryType::GetTTL, letters, i) { 1int } else { 0 })
        + (if verb_alive(QueryType::Drop, letters, i) { 1int } else { 0 })
        + (if verb_alive(QueryType::DropAll, letters, i) { 1int } else { 0 })
        + (if verb_alive(QueryType::QueryTypeString, letters, i) { 1int } else { 0 })
        + (if verb_alive(QueryType::QueryTypeBitwise, letters, i) { 1int } else { 0 })
}

/// The first verb (in table order) still consistent after `i` letters.
pub open spec fn first_alive(letters: Seq<u8>, i: int) -> Option<QueryType> {
    if verb_alive(QueryType::New, letters, i) {
        Some(QueryType::New)
    } else if verb_alive(QueryType::Get, letters, i) {
        Some(QueryType::Get)
    } else if verb_alive(QueryType::GetValue, letters, i) {
        Some(QueryType::GetValue)
    } else if verb_alive(QueryType::GetTTL, letters, i) {
        Some(QueryType::GetTTL)
    } else if verb_alive(QueryType::Drop, letters, i) {
        Some(QueryType::Drop)
    } else if verb_alive(QueryType::DropAll, letters, i) {
        Some(QueryType::DropAll)
    } else if verb_alive(QueryType::QueryTypeString, letters, i) {
        Some(QueryType::QueryTypeString)
    } else if verb_alive(QueryType::QueryTypeBitwise, letters, i) {
        Some(QueryType::QueryTypeBitwise)
    } else {
        None
    }
}

/// Whether the verb of `qt` reaches its last letter at step `i` while still
/// consistent; such a verb becomes the "most recent exactly-walked verb".
pub open spec fn verb_sets_last(qt: QueryType, letters: Seq<u8>, i: int) -> bool {
    verb_alive(qt, letters, i) && verb_chars(qt).len() == i + 1
}

/// The "most recent exactly-walked verb" after step `i` has updated it.
/// Later entries of the verb table overwrite earlier ones.
pub open spec fn step_last(letters: Seq<u8>, i: int, prev: Option<QueryType>) -> Option<
    QueryType,
> {
    if verb_sets_last(QueryType::QueryTypeBitwise, letters, i) {
        Some(QueryType::QueryTypeBitwise)
    } else if verb_sets_last(QueryType::QueryTypeString, letters, i) {
        Some(QueryType::QueryTypeString)
    } else if verb_sets_last(QueryType::DropAll, letters, i) {
        Some(QueryType::DropAll)
    } else if verb_sets_last(QueryType::Drop, letters, i) {
        Some(QueryType::Drop)
    } else if verb_sets_last(QueryType::GetTTL, letters, i) {
        Some(QueryType::GetTTL)
    } else if verb_sets_last(QueryType::GetValue, letters, i) {
        Some(QueryType::GetValue)
    } else if verb_sets_last(QueryType::Get, letters, i) {
        Some(QueryType::Get)
    } else if verb_sets_last(QueryType::New, letters, i) {
        Some(QueryType::New)
    } else {
        prev
    }
}

/// The "most recent exactly-walked verb" once the first `i` letters are done.
pub open spec fn last_at(letters: Seq<u8>, i: int) -> Option<QueryType>
    decreases i,
{
    if i <= 0 {
        None
    } else {
        step_last(letters, i - 1, last_at(letters, i - 1))
    }
}

/// The streaming verb match over the letters, from step `i` on: it stops
/// with the sole consistent verb, or with the most recent exactly-walked
/// verb once no verb is consistent, and yields nothing when the letters run
/// out undecided.
pub open spec fn scan_verbs(letters: Seq<u8>, i: int) -> Option<QueryType>
    decreases letters.len() - i,
{
    if i < 0 || i >= letters.len() {
        None
    } else {
        let c = alive_count(letters, i + 1);
        if c == 1 {
            first_alive(letters, i + 1)
        } else if c == 0 {
            last_at(letters, i + 1)
        } else {
            scan_verbs(letters, i + 1)
        }
    }
}

/// The verb recognised in a raw string-dialect statement.
pub open spec fn verb_lookup(q: Seq<u8>) -> Option<QueryType> {
    scan_verbs(letters_of(q), 0)
}

/// Consistency after `i + 1` letters is consistency after `i` letters plus
/// agreement on letter `i`.
proof fn lemma_alive_step(qt: QueryType, letters: Seq<u8>, i: int)
    requires
        0 <= i < letters.len(),
    ensures
        verb_alive(qt, letters, i + 1) == (verb_alive(qt, letters, i) && verb_chars(qt).len() >= i
            + 1 && verb_chars(qt)[i] == letters[i]),
{
    let v = verb_chars(qt);
    if verb_alive(qt, letters, i) && v.len() >= i + 1 && v[i] == letters[i] {
        assert(v.subrange(0, i + 1) =~= v.subrange(0, i).push(v[i]));
        assert(letters.subrange(0, i + 1) =~= letters.subrange(0, i).push(letters[i]));
        assert(verb_alive(qt, letters, i + 1));
    }
    if verb_alive(qt, letters, i + 1) {
        assert(v.subrange(0, i) =~= v.subrange(0, i + 1).subrange(0, i));
        assert(letters.subrange(0, i) =~= letters.subrange(0, i + 1).subrange(0, i));
        assert(v[i] == v.subrange(0, i + 1)[i]);
        assert(letters[i] == letters.subrange(0, i + 1)[i]);
    }
}

/// Every verb is consistent with zero letters.
proof fn lemma_alive_zero(letters: Seq<u8>)
    ensures
        forall|qt: QueryType| verb_alive(qt, letters, 0),
{
    assert forall|qt: QueryType| verb_alive(qt, letters, 0) by {
        assert(verb_chars(qt).subrange(0, 0) =~= letters.subrange(0, 0));
    }
}

/// Recognise the verb of a string-dialect statement.
#[verifier::loop_isolation(false)]
#[verifier::rlimit(60)]
pub fn get_query_type(query: &[u8]) -> (r: Option<QueryType>)
    ensures
        r == verb_lookup(query@),
{
    // Fold case and drop skippable bytes first.
    let mut letters: Vec<u8> = Vec::new();
    let mut p: usize = 0;
    proof {
        assert(letters@ + letters_from(query@, 0) =~= letters_of(query@));
    }
    while p < query.len()
        invariant
            0 <= p <= query@.len(),
            letters@ + letters_from(query@, p as int) == letters_of(query@),
        decreases query@.len() - p,
    {
        let b = query[p];
        if !(b == 32 || b == 10) {
            let u = if b >= 97 && b <= 122 {
                b - 32
            } else {
                b
            };
            let ghost pre = letters@;
            letters.push(u);
            proof {
                assert(letters_from(query@, p as int) == seq![upper_byte(query@[p as int])]
                    + letters_from(query@, p as int + 1));
                assert(letters@ + letters_from(query@, p as int + 1) =~= pre + letters_from(
                    query@,
                    p as int,
                ));
            }
        }
        p += 1;
    }
    proof {
        assert(letters@ + letters_from(query@, query@.len() as int) =~= letters@);
        assert(letters@ == letters_of(query@));
    }

    // Walk the letters, narrowing the consistent verbs.
    let v_new = verb_bytes(QueryType::New);
    let v_get = verb_bytes(QueryType::Get);
    let v_getvalue = verb_bytes(QueryType::GetValue);
    let v_getttl = verb_bytes(QueryType::GetTTL);
    let v_drop = verb_bytes(QueryType::Drop);
    let v_dropall = verb_bytes(QueryType::DropAll);
    let v_qts = verb_bytes(QueryType::QueryTypeString);
    let v_qtb = verb_bytes(QueryType::QueryTypeBitwise);
    let mut a_new = true;
    let mut a_get = true;
    let mut a_getvalue = true;
    let mut a_getttl = true;
    let mut a_drop = true;
    let mut a_dropall = true;
    let mut a_qts = true;
    let mut a_qtb = true;
    let mut last: Option<QueryType> = None;
    let mut i: usize = 0;
    proof {
        lemma_alive_zero(letters@);
    }
    while i < letters.len()
        invariant
            0 <= i <= letters@.len(),
            a_new == verb_alive(QueryType::New, letters@, i as int),
            a_get == verb_alive(QueryType::Get, letters@, i as int),
            a_getvalue == verb_alive(QueryType::GetValue, letters@, i as int),
            a_getttl == verb_alive(QueryType::GetTTL, letters@, i as int),
            a_drop == verb_alive(QueryType::Drop, letters@, i as int),
            a_dropall == verb_alive(QueryType::DropAll, letters@, i as int),
            a_qts == verb_alive(QueryType::QueryTypeString, letters@, i as int),
            a_qtb == verb_alive(QueryType::QueryTypeBitwise, letters@, i as int),
            last == last_at(letters@, i as int),
            scan_verbs(letters@, 0) == scan_verbs(letters@, i as int),
        decreases letters@.len() - i,
    {
        let u = letters[i];
        if a_new {
            if v_new.len() == i + 1 {
                last = Some(QueryType::New);
            }
            if i >= v_new.len() || v_new[i] != u {
                a_new = false;
            }
        }
        if a_get {
            if v_get.len() == i + 1 {
                last = Some(QueryType::Get);
            }
            if i >= v_get.len() || v_get[i] != u {
                a_get = false;
            }
        }
        if a_getvalue {
            if v_getvalue.len() == i + 1 {
                last = Some(QueryType::GetValue);
            }
            if i >= v_getvalue.len() || v_getvalue[i] != u {
                a_getvalue = false;
            }
        }
        if a_getttl {
            if v_getttl.len() == i + 1 {
                last = Some(QueryType::GetTTL);
            }
            if i >= v_getttl.len() || v_getttl[i] != u {
                a_getttl = false;
            }
        }
        if a_drop {
            if v_drop.len() == i + 1 {
                last = Some(QueryType::Drop);
            }
            if i >= v_drop.len() || v_drop[i] != u {
                a_drop = false;
            }
        }
        if a_dropall {
            if v_dropall.len() == i + 1 {
                last = Some(QueryType::DropAll);
            }
            if i >= v_dropall.len() || v_dropall[i] != u {
                a_dropall = false;
            }
        }
        if a_qts {
            if v_qts.len() == i + 1 {
                last = Some(QueryType::QueryTypeString);
            }
            if i >= v_qts.len() || v_qts[i] != u {
                a_qts = false;
            }
        }
        if a_qtb {
            if v_qtb.len() == i + 1 {
                last = Some(QueryType::QueryTypeBitwise);
            }
            if i >= v_qtb.len() || v_qtb[i] != u {
                a_qtb = false;
            }
        }
        proof {
            lemma_alive_step(QueryType::New, letters@, i as int);
            lemma_alive_step(QueryType::Get, letters@, i as int);
            lemma_alive_step(QueryType::GetValue, letters@, i as int);
            lemma_alive_step(QueryType::GetTTL, letters@, i as int);
            lemma_alive_step(QueryType::Drop, letters@, i as int);
            lemma_alive_step(QueryType::DropAll, letters@, i as int);
            lemma_alive_step(QueryType::QueryTypeString, letters@, i as int);
            lemma_alive_step(QueryType::QueryTypeBitwise, letters@, i as int);
            assert(last == step_last(letters@, i as int, last_at(letters@, i as int)));
            assert(last == last_at(letters@, i as int + 1));
        }
        let mut c: usize = 0;
        if a_new {
            c += 1;
        }
        if a_get {
            c += 1;
        }
        if a_getvalue {
            c += 1;
        }
        if a_getttl {
            c += 1;
        }
        if a_drop {
            c += 1;
        }
        if a_dropall {
            c += 1;
        }
        if a_qts {
            c += 1;
        }
        if a_qtb {
            c += 1;
        }
        proof {
            assert(c as int == alive_count(letters@, i as int + 1));
        }
        if c == 1 {
            let r = if a_new {
                Some(QueryType::New)
            } else if a_get {
                Some(QueryType::Get)
            } else if a_getvalue {
                Some(QueryType::GetValue)
            } else if a_getttl {
                Some(QueryType::GetTTL)
            } else if a_drop {
                Some(QueryType::Drop)
            } else if a_dropall {
                Some(QueryType::DropAll)
            } else if a_qts {
                Some(QueryType::QueryTypeString)
            } else {
                Some(QueryType::QueryTypeBitwise)
            };
            proof {
                assert(r == first_alive(letters@, i as int + 1));
                assert(scan_verbs(letters@, i as int) == r);
            }
            return r;
        } else if c == 0 {
            proof {
                assert(scan_verbs(letters@, i as int) == last_at(letters@, i as int + 1));
            }
            return last;
        }
        proof {
            assert(scan_verbs(letters@, i as int) == scan_verbs(letters@, i as int + 1));
        }
        i += 1;
    }
    proof {
        assert(scan_verbs(letters@, i as int) is None);
    }
    None
}

/// The state of the argument extractor: the finished arguments, the bytes of
/// the argument being read, whether a quote is open, which quote byte closes
/// arguments, and whether a `;` outside quotes has ended the statement.
pub struct ArgScan {
    pub args: Seq<Seq<u8>>,
    pub cur: Seq<u8>,
    pub within: bool,
    pub endb: u8,
    pub done: bool,
}

/// The extractor before any byte is read: no arguments, a single quote
/// closes until the first opening quote says otherwise.
pub open spec fn arg_scan_init() -> ArgScan {
    ArgScan { args: Seq::empty(), cur: Seq::empty(), within: false, endb: 39, done: false }
}

/// One byte of argument extraction.  A quote met with an empty argument
/// opens (and fixes the closing quote); the closing quote finishes the
/// argument; bytes under an open quote accumulate; a `;` outside quotes
/// ends the statement; anything else outside quotes is filler.
pub open spec fn arg_step(st: ArgScan, b: u8) -> ArgScan {
    if st.done {
        st
    } else {
        let is_delim = b == 39 || b == 34;
        if is_delim && st.cur.len() == 0 {
            ArgScan { within: true, endb: b, ..st }
        } else {
            let st1 = if is_delim && b == st.endb {
                ArgScan { args: st.args.push(st.cur), cur: Seq::empty(), within: false, ..st }
            } else {
                st
            };
            if st1.within {
                ArgScan { cur: st1.cur.push(b), ..st1 }
            } else if b == 59 {
                ArgScan { done: true, ..st1 }
            } else {
                st1
            }
        }
    }
}

/// Run the argument extractor over the input from position `i` on.
pub open spec fn arg_run(st: ArgScan, q: Seq<u8>, i: int) -> ArgScan
    decreases q.len() - i,
{
    if i < 0 || i >= q.len() || st.done {
        st
    } else {
        arg_run(arg_step(st, q[i]), q, i + 1)
    }
}

/// The arguments of a raw string-dialect statement.
pub open spec fn string_args_of(q: Seq<u8>) -> Seq<Seq<u8>> {
    arg_run(arg_scan_init(), q, 0).args
}

/// Extract the quoted arguments of a string-dialect statement.
#[verifier::loop_isolation(false)]
pub fn get_arguments(query: &[u8]) -> (r: Vec<Vec<u8>>)
    ensures
        r.deep_view() == string_args_of(query@),
{
    let mut args: Vec<Vec<u8>> = Vec::new();
    let mut cur: Vec<u8> = Vec::new();
    let mut within: bool = false;
    let mut endb: u8 = 39;
    let mut i: usize = 0;
    proof {
        lemma_empty_deep_view(args);
        assert(ArgScan { args: args.deep_view(), cur: cur@, within: within, endb: endb, done: false }
            == arg_scan_init());
    }
    while i < query.len()
        invariant
            0 <= i <= query@.len(),
            arg_run(arg_scan_init(), query@, 0) == arg_run(
                ArgScan {
                    args: args.deep_view(),
                    cur: cur@,
                    within: within,
                    endb: endb,
                    done: false,
                },
                query@,
                i as int,
            ),
        decreases query@.len() - i,
    {
        let ghost pre = ArgScan {
            args: args.deep_view(),
            cur: cur@,
            within: within,
            endb: endb,
            done: false,
        };
        let b = query[i];
        let is_delim = b == 39 || b == 34;
        if is_delim && cur.len() == 0 {
            within = true;
            endb = b;
        } else {
            if is_delim && b == endb {
                let ghost args_vec_pre = args;
                args.push(cur);
                cur = Vec::new();
                within = false;
                proof {
                    lemma_push_deep_view(args_vec_pre, args, args@[args@.len() - 1]);
                }
            }
            if within {
                cur.push(b);
            } else if b == 59 {
                let ghost st1 = ArgScan {
                    args: args.deep_view(),
                    cur: cur@,
                    within: within,
                    endb: endb,
                    done: true,
                };
                proof {
                    assert(arg_step(pre, b) == st1);
                    assert(arg_run(pre, query@, i as int) == arg_run(st1, query@, i as int + 1));
                    assert(arg_run(st1, query@, i as int + 1) == st1);
                }
                return args;
            }
        }
        proof {
            let post = ArgScan {
                args: args.deep_view(),
                cur: cur@,
                within: within,
                endb: endb,
                done: false,
            };
            assert(arg_step(pre, b) == post);
            assert(arg_run(pre, query@, i as int) == arg_run(post, query@, i as int + 1));
        }
        i += 1;
    }
    proof {
        let end = ArgScan {
            args: args.deep_view(),
            cur: cur@,
            within: within,
            endb: endb,
            done: false,
        };
        assert(arg_run(end, query@, i as int) == end);
    }
    args
}

/// How many arguments each operation expects.
pub open spec fn arg_count(qt: QueryType) -> int {
    match qt {
        QueryType::New => 3,
        QueryType::QueryTypeString => 0,
        QueryType::QueryTypeBitwise => 0,
        _ => 1,
    }
}

/// The extracted arguments adjusted for the operation: operations without
/// arguments ignore what was extracted, and a two-argument `New` gains the
/// no-expiry ttl `"0"`.
pub open spec fn fix_args(qt: QueryType, args: Seq<Seq<u8>>) -> Seq<Seq<u8>> {
    if arg_count(qt) == 0 {
        Seq::empty()
    } else if qt == QueryType::New && args.len() == 2 {
        args.push(seq![48u8])
    } else {
        args
    }
}

/// Whether the extracted arguments fit the operation's arity.
pub open spec fn args_accepted(qt: QueryType, args: Seq<Seq<u8>>) -> bool {
    fix_args(qt, args).len() == arg_count(qt)
}

/// Check the extracted arguments against the operation's arity, completing a
/// two-argument `New` with the no-expiry ttl.
pub fn parse_query_arguments(query_type: QueryType, arguments: Vec<Vec<u8>>) -> (r: Result<
    (QueryType, Vec<Vec<u8>>),
    QueryError,
>)
    ensures
        match r {
            Ok((qt, out)) => args_accepted(query_type, arguments.deep_view()) && qt == query_type
                && out.deep_view() == fix_args(query_type, arguments.deep_view()),
            Err(e) => !args_accepted(query_type, arguments.deep_view()) && e
                == QueryError::WrongArgumentCount,
        },
{
    let expected: usize = match query_type {
        QueryType::New => 3,
        QueryType::QueryTypeString => 0,
        QueryType::QueryTypeBitwise => 0,
        _ => 1,
    };
    if expected == 0 {
        let out: Vec<Vec<u8>> = Vec::new();
        proof {
            lemma_empty_deep_view(out);
        }
        return Ok((query_type, out));
    }
    let mut out = arguments;
    if matches!(query_type, QueryType::New) && out.len() == 2 {
        let mut zero: Vec<u8> = Vec::new();
        zero.push(48);
        proof {
            assert(zero@ =~= seq![48u8]);
        }
        let ghost out_pre = out;
        out.push(zero);
        proof {
            lemma_push_deep_view(out_pre, out, out@[out@.len() - 1]);
        }
    }
    if out.len() != expected {
        return Err(QueryError::WrongArgumentCount);
    }
    Ok((query_type, out))
}

/// What parsing a raw string-dialect statement yields: the recognised verb
/// and its arity-checked arguments, or nothing when no verb is recognised or
/// the arity is wrong.
pub open spec fn string_parse(q: Seq<u8>) -> Option<(QueryType, Seq<Seq<u8>>)> {
    match verb_lookup(q) {
        None => None,
        Some(qt) => if args_accepted(qt, string_args_of(q)) {
            Some((qt, fix_args(qt, string_args_of(q))))
        } else {
            None
        },
    }
}

/// Parse a string-dialect statement into its operation and arguments.
pub fn parse_query(query: &[u8]) -> (r: Result<(QueryType, Vec<Vec<u8>>), QueryError>)
    ensures
        match r {
            Ok((qt, args)) => string_parse(query@) == Some((qt, args.deep_view())),
            Err(e) => {
                &&& string_parse(query@) is None
                &&& e == (if verb_lookup(query@) is None {
                    QueryError::UnknownQueryType
                } else {
                    QueryError::WrongArgumentCount
                })
            },
        },
{
    match get_query_type(query) {
        Some(query_type) => {
            let arguments = get_arguments(query);
            parse_query_arguments(query_type, arguments)
        },
        None => Err(QueryError::UnknownQueryType),
    }
}

} // verus!
