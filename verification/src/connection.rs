//! Per-session bookkeeping after an operation has run.
//!
//! Each session owns a dialect flag; the dialect-switching operations set
//! it, and nothing else touches it.  Mutating operations raise the
//! process-wide change counter that schedules snapshots.

use vstd::prelude::*;

use crate::database::process_result;
use crate::query::QueryType;

verus! {

/// The session's dialect after an operation: the switching operations pick
/// theirs, everything else (including a failed parse) keeps the current one.
pub open spec fn next_dialect(query_type: Option<QueryType>, is_bitwise: bool) -> bool {
    match query_type {
        Some(QueryType::QueryTypeBitwise) => true,
        Some(QueryType::QueryTypeString) => false,
        _ => is_bitwise,
    }
}

/// Whether an operation mutates the record map: exactly `New`, `Drop` and
/// `DropAll` do; reads, dialect switches and failed parses do not.
pub open spec fn is_mutating(query_type: Option<QueryType>) -> bool {
    match query_type {
        Some(QueryType::New) => true,
        Some(QueryType::Drop) => true,
        Some(QueryType::DropAll) => true,
        _ => false,
    }
}

/// Record what an operation did to this session: update its dialect flag
/// and note whether data changed.
pub fn check_query_impact(
    query_type: Option<QueryType>,
    is_bitwise: &mut bool,
    changed_data: &mut bool,
)
    ensures
        *final(is_bitwise) == next_dialect(query_type, *old(is_bitwise)),
        *final(changed_data) == (*old(changed_data) || is_mutating(query_type)),
{
    match query_type {
        Some(QueryType::QueryTypeBitwise) => {
            *is_bitwise = true;
        },
        Some(QueryType::QueryTypeString) => {
            *is_bitwise = false;
        },
        Some(QueryType::New) => {
            *changed_data = true;
        },
        Some(QueryType::Drop) => {
            *changed_data = true;
        },
        Some(QueryType::DropAll) => {
            *changed_data = true;
        },
        _ => {},
    }
}

/// Record what an operation did beyond the map itself: update this
/// session's dialect flag, and raise the change counter exactly when the
/// operation mutated data.
pub fn process_query_impact(
    query_type: Option<QueryType>,
    is_bitwise: &mut bool,
    changed: &mut usize,
)
    requires
        *old(changed) < usize::MAX,
    ensures
        *final(is_bitwise) == next_dialect(query_type, *old(is_bitwise)),
        *final(changed) == *old(changed) + (if is_mutating(query_type) {
            1int
        } else {
            0
        }),
{
    let mut changed_data = false;
    check_query_impact(query_type, is_bitwise, &mut changed_data);
    if changed_data {
        *changed = *changed + 1;
    }
}

/// Counter progression: a create, drop, or drop-by-value strictly raises
/// the change counter; a read, a dialect switch, and a failed parse (which
/// runs no operation) leave it alone.
pub proof fn lemma_counter_progression()
    ensures
        is_mutating(Some(QueryType::New)),
        is_mutating(Some(QueryType::Drop)),
        is_mutating(Some(QueryType::DropAll)),
        !is_mutating(Some(QueryType::Get)),
        !is_mutating(Some(QueryType::GetValue)),
        !is_mutating(Some(QueryType::GetTTL)),
        !is_mutating(Some(QueryType::QueryTypeString)),
        !is_mutating(Some(QueryType::QueryTypeBitwise)),
        !is_mutating(None::<QueryType>),
{
}

/// The change counter misses no change: a frame whose operation is not a
/// create, drop or drop-by-value — a read, a dialect switch, or one the
/// validator or a parser refused — leaves the record map exactly as it was,
/// so raising the counter for the mutating operations alone loses no
/// snapshot.
pub proof fn lemma_counter_tracks_mutation(
    m: Map<Seq<u8>, (Seq<u8>, Seq<u8>)>,
    bytes: Seq<u8>,
    is_bitwise: bool,
)
    ensures
        !is_mutating(process_result(m, bytes, is_bitwise).0) ==> process_result(
            m,
            bytes,
            is_bitwise,
        ).1 == m,
{
}

/// Dialect stickiness: only the two switching operations move a session's
/// dialect flag, each to its own dialect; every other outcome keeps the flag
/// as it was.  A session's flag is a function of its own operations alone,
/// so another session's operations cannot move it.
pub proof fn lemma_dialect_stickiness(query_type: Option<QueryType>, is_bitwise: bool)
    ensures
        next_dialect(query_type, is_bitwise) != is_bitwise ==> (query_type == Some(
            QueryType::QueryTypeBitwise,
        ) || query_type == Some(QueryType::QueryTypeString)),
        next_dialect(Some(QueryType::QueryTypeBitwise), is_bitwise),
        !next_dialect(Some(QueryType::QueryTypeString), is_bitwise),
{
}

} // verus!
