//! The record map: the authoritative state of the store.
//!
//! A `Store` maps keys to `(value, ttl)` pairs.  Keys are unique; creating a
//! record under an existing key replaces the stored pair.  The map is held as
//! a vector of records with pairwise-distinct keys, and is viewed in
//! specifications as a `Map<Seq<u8>, (Seq<u8>, Seq<u8>)>`.

use vstd::prelude::*;
use vstd::pervasive::VecAdditionalExecFns;

use crate::bytes_eq;
use crate::clone_bytes;
use crate::ttl::ttl_expired;
use crate::ttl::ttl_is_expired;

verus! {

/// One stored record: a key, its value, and its time-to-live string.
pub struct Record {
    pub key: Vec<u8>,
    pub value: Vec<u8>,
    pub ttl: Vec<u8>,
}

/// Whether some record in `s` carries the key `k`.
pub open spec fn seq_has_key(s: Seq<Record>, k: Seq<u8>) -> bool {
    exists|i: int| 0 <= i < s.len() && (#[trigger] s[i]).key@ == k
}

/// The index of a record carrying the key `k` (unique when keys are distinct).
pub open spec fn seq_key_idx(s: Seq<Record>, k: Seq<u8>) -> int {
    choose|i: int| 0 <= i < s.len() && (#[trigger] s[i]).key@ == k
}

/// Whether the records of `s` carry pairwise-distinct keys.
pub open spec fn keys_unique(s: Seq<Record>) -> bool {
    forall|i: int, j: int|
        0 <= i < j < s.len() ==> (#[trigger] s[i]).key@ != (#[trigger] s[j]).key@
}

/// The map described by a record sequence with distinct keys.
pub open spec fn seq_as_map(s: Seq<Record>) -> Map<Seq<u8>, (Seq<u8>, Seq<u8>)> {
    Map::new(
        |k: Seq<u8>| seq_has_key(s, k),
        |k: Seq<u8>|
            {
                let i = seq_key_idx(s, k);
                (s[i].value@, s[i].ttl@)
            },
    )
}

/// With distinct keys, the index found for a record's own key is that record's index.
pub proof fn lemma_key_idx_unique(s: Seq<Record>, i: int)
    requires
        keys_unique(s),
        0 <= i < s.len(),
    ensures
        seq_has_key(s, s[i].key@),
        seq_key_idx(s, s[i].key@) == i,
{
    assert(seq_has_key(s, s[i].key@));
    let j = seq_key_idx(s, s[i].key@);
    assert(0 <= j < s.len() && s[j].key@ == s[i].key@);
    if i < j {
        assert(s[i].key@ != s[j].key@);
    } else if j < i {
        assert(s[j].key@ != s[i].key@);
    }
}

/// Appending a record with a fresh key inserts its pair into the map.
pub proof fn lemma_map_push(s: Seq<Record>, r: Record)
    requires
        keys_unique(s),
        !seq_has_key(s, r.key@),
    ensures
        keys_unique(s.push(r)),
        seq_as_map(s.push(r)) == seq_as_map(s).insert(r.key@, pair_of(r)),
{
    let s1 = s.push(r);
    let n = s.len() as int;
    let k = r.key@;
    assert forall|a: int, b: int| 0 <= a < b < s1.len() implies (#[trigger] s1[a]).key@
        != (#[trigger] s1[b]).key@ by {
        if b < n {
            assert(s[a].key@ != s[b].key@);
        } else {
            assert(s1[b].key@ == k);
            assert(s1[a] == s[a]);
            if s[a].key@ == k {
                assert(seq_has_key(s, k));
            }
        }
    }
    assert forall|k2: Seq<u8>| seq_has_key(s1, k2) == (k2 == k || seq_has_key(s, k2)) by {
        if seq_has_key(s1, k2) {
            let j = choose|j: int| 0 <= j < s1.len() && s1[j].key@ == k2;
            if j < n {
                assert(s[j].key@ == k2);
            }
        }
        if k2 == k {
            assert(s1[n].key@ == k2);
        } else if seq_has_key(s, k2) {
            let j = choose|j: int| 0 <= j < s.len() && s[j].key@ == k2;
            assert(s1[j].key@ == k2);
        }
    }
    assert forall|k2: Seq<u8>| #[trigger] seq_as_map(s1).dom().contains(k2) implies seq_as_map(
        s1,
    )[k2] == seq_as_map(s).insert(k, pair_of(r))[k2] by {
        let j = seq_key_idx(s1, k2);
        assert(0 <= j < s1.len() && s1[j].key@ == k2);
        lemma_key_idx_unique(s1, j);
        if k2 == k {
            assert(j == n) by {
                lemma_key_idx_unique(s1, n);
            }
        } else {
            assert(j < n);
            assert(s[j].key@ == k2);
            lemma_key_idx_unique(s, j);
        }
    }
    assert(seq_as_map(s1) =~= seq_as_map(s).insert(k, pair_of(r)));
}

/// The `(value, ttl)` pair of a record, as specifications see it.
pub open spec fn pair_of(r: Record) -> (Seq<u8>, Seq<u8>) {
    (r.value@, r.ttl@)
}

/// The records of `s` from position `i` on whose `(value, ttl)` pair
/// satisfies `q`, in unchanged order.
pub open spec fn kept(s: Seq<Record>, q: spec_fn((Seq<u8>, Seq<u8>)) -> bool, i: int) -> Seq<Record>
    decreases s.len() - i,
{
    if i < 0 || i >= s.len() {
        Seq::empty()
    } else if q(pair_of(s[i])) {
        seq![s[i]] + kept(s, q, i + 1)
    } else {
        kept(s, q, i + 1)
    }
}

/// The predicate of the pairs whose value differs from `v`; dropping by
/// value retains exactly these.
pub open spec fn keeps_value_not(v: Seq<u8>) -> spec_fn((Seq<u8>, Seq<u8>)) -> bool {
    |p: (Seq<u8>, Seq<u8>)| p.0 != v
}

/// The predicate of the pairs whose ttl has not elapsed at second `now`;
/// the expiry sweep retains exactly these.
pub open spec fn keeps_fresh(now: u64) -> spec_fn((Seq<u8>, Seq<u8>)) -> bool {
    |p: (Seq<u8>, Seq<u8>)| !ttl_expired(p.1, now)
}

/// The restriction of a map to the keys whose pair satisfies `q`.
pub open spec fn map_retained(
    m: Map<Seq<u8>, (Seq<u8>, Seq<u8>)>,
    q: spec_fn((Seq<u8>, Seq<u8>)) -> bool,
) -> Map<Seq<u8>, (Seq<u8>, Seq<u8>)> {
    Map::new(|k: Seq<u8>| m.dom().contains(k) && q(m[k]), |k: Seq<u8>| m[k])
}

/// Membership and uniqueness facts about `kept`.
proof fn lemma_kept_props(s: Seq<Record>, q: spec_fn((Seq<u8>, Seq<u8>)) -> bool, i: int)
    requires
        0 <= i <= s.len(),
        keys_unique(s),
    ensures
        kept(s, q, i).len() <= s.len() - i,
        forall|a: int|
            0 <= a < kept(s, q, i).len() ==> exists|j: int|
                i <= j < s.len() && s[j] == #[trigger] kept(s, q, i)[a] && q(pair_of(s[j])),
        forall|j: int|
            i <= j < s.len() && q(pair_of(#[trigger] s[j])) ==> seq_has_key(
                kept(s, q, i),
                s[j].key@,
            ),
        forall|k: Seq<u8>| #[trigger]
            seq_has_key(kept(s, q, i), k) ==> exists|j: int|
                i <= j < s.len() && s[j].key@ == k && q(pair_of(s[j])),
        keys_unique(kept(s, q, i)),
    decreases s.len() - i,
{
    if i == s.len() {
    } else {
        lemma_kept_props(s, q, i + 1);
        let rest = kept(s, q, i + 1);
        let cur = kept(s, q, i);
        if q(pair_of(s[i])) {
            assert(cur == seq![s[i]] + rest);
            assert(cur[0] == s[i]);
            assert forall|a: int| 1 <= a < cur.len() implies cur[a] == rest[a - 1] by {}
            assert forall|a: int| 0 <= a < cur.len() implies exists|j: int|
                i <= j < s.len() && s[j] == #[trigger] cur[a] && q(pair_of(s[j])) by {
                if a == 0 {
                    assert(s[i] == cur[a] && q(pair_of(s[i])));
                } else {
                    let j = choose|j: int|
                        i + 1 <= j < s.len() && s[j] == rest[a - 1] && q(pair_of(s[j]));
                    assert(s[j] == cur[a] && q(pair_of(s[j])));
                }
            }
            assert forall|j: int|
                i <= j < s.len() && q(pair_of(#[trigger] s[j])) implies seq_has_key(
                cur,
                s[j].key@,
            ) by {
                if j == i {
                    assert(cur[0].key@ == s[j].key@);
                } else {
                    assert(seq_has_key(rest, s[j].key@));
                    let a = choose|a: int| 0 <= a < rest.len() && rest[a].key@ == s[j].key@;
                    assert(cur[a + 1].key@ == s[j].key@);
                }
            }
            assert forall|k: Seq<u8>| #[trigger] seq_has_key(cur, k) implies exists|j: int|
                i <= j < s.len() && s[j].key@ == k && q(pair_of(s[j])) by {
                let a = choose|a: int| 0 <= a < cur.len() && cur[a].key@ == k;
                if a == 0 {
                    assert(s[i].key@ == k && q(pair_of(s[i])));
                } else {
                    assert(seq_has_key(rest, k)) by {
                        assert(rest[a - 1].key@ == k);
                    }
                }
            }
            assert forall|a: int, b: int| 0 <= a < b < cur.len() implies
                (#[trigger] cur[a]).key@ != (#[trigger] cur[b]).key@ by {
                if a == 0 {
                    assert(seq_has_key(rest, cur[b].key@)) by {
                        assert(rest[b - 1].key@ == cur[b].key@);
                    }
                    let j = choose|j: int|
                        i + 1 <= j < s.len() && s[j].key@ == cur[b].key@ && q(pair_of(s[j]));
                    assert(s[i].key@ != s[j].key@);
                } else {
                    assert(rest[a - 1].key@ != rest[b - 1].key@);
                }
            }
        } else {
            assert(cur == rest);
            assert forall|a: int| 0 <= a < cur.len() implies exists|j: int|
                i <= j < s.len() && s[j] == #[trigger] cur[a] && q(pair_of(s[j])) by {
                let j = choose|j: int| i + 1 <= j < s.len() && s[j] == rest[a] && q(pair_of(s[j]));
                assert(s[j] == cur[a] && q(pair_of(s[j])));
            }
            assert forall|j: int|
                i <= j < s.len() && q(pair_of(#[trigger] s[j])) implies seq_has_key(
                cur,
                s[j].key@,
            ) by {
                assert(j != i);
            }
            assert forall|k: Seq<u8>| #[trigger] seq_has_key(cur, k) implies exists|j: int|
                i <= j < s.len() && s[j].key@ == k && q(pair_of(s[j])) by {
                let j = choose|j: int|
                    i + 1 <= j < s.len() && s[j].key@ == k && q(pair_of(s[j]));
                assert(i <= j < s.len() && s[j].key@ == k && q(pair_of(s[j])));
            }
        }
    }
}

/// The map of the retained records is the retained map.
pub proof fn lemma_kept_map(s: Seq<Record>, q: spec_fn((Seq<u8>, Seq<u8>)) -> bool)
    requires
        keys_unique(s),
    ensures
        keys_unique(kept(s, q, 0)),
        kept(s, q, 0).len() <= s.len(),
        seq_as_map(kept(s, q, 0)) == map_retained(seq_as_map(s), q),
{
    lemma_kept_props(s, q, 0);
    let t = kept(s, q, 0);
    let m0 = seq_as_map(s);
    assert forall|k: Seq<u8>| seq_has_key(t, k) == (seq_has_key(s, k) && q(m0[k])) by {
        if seq_has_key(t, k) {
            let j = choose|j: int| 0 <= j < s.len() && s[j].key@ == k && q(pair_of(s[j]));
            lemma_key_idx_unique(s, j);
            assert(m0[k] == pair_of(s[j]));
        }
        if seq_has_key(s, k) && q(m0[k]) {
            let j = seq_key_idx(s, k);
            assert(0 <= j < s.len() && s[j].key@ == k);
            lemma_key_idx_unique(s, j);
            assert(m0[k] == pair_of(s[j]));
        }
    }
    assert forall|k: Seq<u8>| #[trigger] seq_as_map(t).dom().contains(k) implies seq_as_map(t)[k]
        == m0[k] by {
        let a = seq_key_idx(t, k);
        assert(0 <= a < t.len() && t[a].key@ == k) by {
            lemma_key_idx_unique(t, seq_key_idx(t, k));
        }
        let j = choose|j: int| 0 <= j < s.len() && s[j] == t[a] && q(pair_of(s[j]));
        lemma_key_idx_unique(s, j);
    }
    assert(seq_as_map(t) =~= map_retained(m0, q));
}

/// Retaining drops at least one record when some record fails the predicate.
pub proof fn lemma_kept_drops(s: Seq<Record>, q: spec_fn((Seq<u8>, Seq<u8>)) -> bool, i: int, j: int)
    requires
        0 <= i <= j < s.len(),
        !q(pair_of(s[j])),
    ensures
        kept(s, q, i).len() < s.len() - i,
    decreases j - i,
{
    if i == j {
        lemma_kept_len(s, q, i + 1);
    } else {
        lemma_kept_drops(s, q, i + 1, j);
    }
}

/// Retaining never grows the record sequence.
proof fn lemma_kept_len(s: Seq<Record>, q: spec_fn((Seq<u8>, Seq<u8>)) -> bool, i: int)
    requires
        0 <= i <= s.len(),
    ensures
        kept(s, q, i).len() <= s.len() - i,
    decreases s.len() - i,
{
    if i < s.len() {
        lemma_kept_len(s, q, i + 1);
    }
}

/// The in-memory record map.
pub struct Store {
    pub records: Vec<Record>,
}

impl View for Store {
    type V = Map<Seq<u8>, (Seq<u8>, Seq<u8>)>;

    open spec fn view(&self) -> Map<Seq<u8>, (Seq<u8>, Seq<u8>)> {
        seq_as_map(self.records@)
    }
}

impl Store {
    /// Well-formedness: a key appears at most once.
    pub open spec fn wf(self) -> bool {
        keys_unique(self.records@)
    }

    /// The number of stored records.
    pub open spec fn spec_len(self) -> nat {
        self.records@.len()
    }

    /// An empty store.
    pub fn new() -> (s: Store)
        ensures
            s.wf(),
            s@ == Map::<Seq<u8>, (Seq<u8>, Seq<u8>)>::empty(),
            s.spec_len() == 0,
    {
        let s = Store { records: Vec::new() };
        proof {
            assert(s@ =~= Map::<Seq<u8>, (Seq<u8>, Seq<u8>)>::empty());
        }
        s
    }

    /// The number of stored records.
    pub fn len(&self) -> (n: usize)
        ensures
            n == self.spec_len(),
    {
        self.records.len()
    }

    /// Find the position of the record holding `key`, if any.
    fn find(&self, key: &[u8]) -> (r: Option<usize>)
        ensures
            match r {
                Some(i) => i < self.records@.len() && self.records@[i as int].key@ == key@,
                None => !seq_has_key(self.records@, key@),
            },
    {
        let n = self.records.len();
        let mut i: usize = 0;
        while i < n
            invariant
                n == self.records@.len(),
                0 <= i <= n,
                forall|j: int| 0 <= j < i ==> (#[trigger] self.records@[j]).key@ != key@,
            decreases n - i,
        {
            if bytes_eq(self.records[i].key.as_slice(), key) {
                return Some(i);
            }
            i += 1;
        }
        None
    }

    /// Look up `key`; return copies of its value and ttl when present.
    pub fn get(&self, key: &[u8]) -> (r: Option<(Vec<u8>, Vec<u8>)>)
        requires
            self.wf(),
        ensures
            match r {
                Some(p) => self@.contains_key(key@) && (p.0@, p.1@) == self@[key@],
                None => !self@.contains_key(key@),
            },
    {
        match self.find(key) {
            Some(i) => {
                proof {
                    lemma_key_idx_unique(self.records@, i as int);
                }
                let r = &self.records[i];
                Some((clone_bytes(&r.value), clone_bytes(&r.ttl)))
            },
            None => None,
        }
    }

    /// Insert or replace the record under `key`.
    pub fn insert(&mut self, key: Vec<u8>, value: Vec<u8>, ttl: Vec<u8>)
        requires
            old(self).wf(),
        ensures
            final(self).wf(),
            final(self)@ == old(self)@.insert(key@, (value@, ttl@)),
            final(self).spec_len() == if old(self)@.contains_key(key@) {
                old(self).spec_len()
            } else {
                old(self).spec_len() + 1
            },
    {
        let ghost s0 = self.records@;
        match self.find(key.as_slice()) {
            Some(i) => {
                proof {
                    lemma_key_idx_unique(s0, i as int);
                }
                let ghost k = key@;
                self.records.set(i, Record { key, value, ttl });
                proof {
                    let s1 = self.records@;
                    assert forall|a: int, b: int| 0 <= a < b < s1.len() implies
                        (#[trigger] s1[a]).key@ != (#[trigger] s1[b]).key@ by {
                        assert(s0[a].key@ != s0[b].key@);
                    }
                    assert forall|k2: Seq<u8>| seq_has_key(s1, k2) == (k2 == k || seq_has_key(
                        s0,
                        k2,
                    )) by {
                        if seq_has_key(s1, k2) {
                            let j = choose|j: int| 0 <= j < s1.len() && s1[j].key@ == k2;
                            if j != i {
                                assert(s0[j].key@ == k2);
                            }
                        }
                        if k2 == k {
                            assert(s1[i as int].key@ == k2);
                        } else if seq_has_key(s0, k2) {
                            let j = choose|j: int| 0 <= j < s0.len() && s0[j].key@ == k2;
                            assert(j != i);
                            assert(s1[j].key@ == k2);
                        }
                    }
                    assert forall|k2: Seq<u8>| #[trigger]
                        seq_as_map(s1).dom().contains(k2) implies seq_as_map(s1)[k2]
                        == seq_as_map(s0).insert(k, (value@, ttl@))[k2] by {
                        let j = seq_key_idx(s1, k2);
                        assert(0 <= j < s1.len() && s1[j].key@ == k2);
                        lemma_key_idx_unique(s1, j);
                        if k2 == k {
                            assert(j == i) by {
                                lemma_key_idx_unique(s1, i as int);
                            }
                        } else {
                            assert(j != i);
                            assert(s0[j].key@ == k2);
                            lemma_key_idx_unique(s0, j);
                        }
                    }
                    assert(seq_as_map(s1) =~= seq_as_map(s0).insert(k, (value@, ttl@)));
                }
            },
            None => {
                let ghost k = key@;
                self.records.push(Record { key, value, ttl });
                proof {
                    let s1 = self.records@;
                    let n = s0.len() as int;
                    assert forall|a: int, b: int| 0 <= a < b < s1.len() implies
                        (#[trigger] s1[a]).key@ != (#[trigger] s1[b]).key@ by {
                        if b < n {
                            assert(s0[a].key@ != s0[b].key@);
                        } else {
                            assert(s1[b].key@ == k);
                            assert(s0[a].key@ != k);
                        }
                    }
                    assert forall|k2: Seq<u8>| seq_has_key(s1, k2) == (k2 == k || seq_has_key(
                        s0,
                        k2,
                    )) by {
                        if seq_has_key(s1, k2) {
                            let j = choose|j: int| 0 <= j < s1.len() && s1[j].key@ == k2;
                            if j < n {
                                assert(s0[j].key@ == k2);
                            }
                        }
                        if k2 == k {
                            assert(s1[n].key@ == k2);
                        } else if seq_has_key(s0, k2) {
                            let j = choose|j: int| 0 <= j < s0.len() && s0[j].key@ == k2;
                            assert(s1[j].key@ == k2);
                        }
                    }
                    assert forall|k2: Seq<u8>| #[trigger]
                        seq_as_map(s1).dom().contains(k2) implies seq_as_map(s1)[k2]
                        == seq_as_map(s0).insert(k, (value@, ttl@))[k2] by {
                        let j = seq_key_idx(s1, k2);
                        assert(0 <= j < s1.len() && s1[j].key@ == k2);
                        lemma_key_idx_unique(s1, j);
                        if k2 == k {
                            assert(j == n) by {
                                lemma_key_idx_unique(s1, n);
                            }
                        } else {
                            assert(j < n);
                            assert(s0[j].key@ == k2);
                            lemma_key_idx_unique(s0, j);
                        }
                    }
                    assert(seq_as_map(s1) =~= seq_as_map(s0).insert(k, (value@, ttl@)));
                }
            },
        }
    }

    /// Remove the record under `key`, if present.
    pub fn remove(&mut self, key: &[u8])
        requires
            old(self).wf(),
        ensures
            final(self).wf(),
            final(self)@ == old(self)@.remove(key@),
            final(self).spec_len() == if old(self)@.contains_key(key@) {
                (old(self).spec_len() - 1) as nat
            } else {
                old(self).spec_len()
            },
    {
        let ghost s0 = self.records@;
        match self.find(key) {
            Some(i) => {
                proof {
                    lemma_key_idx_unique(s0, i as int);
                }
                self.records.remove(i);
                proof {
                    let s1 = self.records@;
                    let n = s0.len() as int;
                    assert forall|a: int, b: int| 0 <= a < b < s1.len() implies
                        (#[trigger] s1[a]).key@ != (#[trigger] s1[b]).key@ by {
                        let a0 = if a < i { a } else { a + 1 };
                        let b0 = if b < i { b } else { b + 1 };
                        assert(s1[a] == s0[a0] && s1[b] == s0[b0]);
                        assert(s0[a0].key@ != s0[b0].key@);
                    }
                    assert forall|k2: Seq<u8>| seq_has_key(s1, k2) == (k2 != key@ && seq_has_key(
                        s0,
                        k2,
                    )) by {
                        if seq_has_key(s1, k2) {
                            let j = choose|j: int| 0 <= j < s1.len() && s1[j].key@ == k2;
                            let j0 = if j < i { j } else { j + 1 };
                            assert(s1[j] == s0[j0]);
                            assert(s0[j0].key@ == k2);
                            assert(j0 != i);
                            assert(k2 != key@) by {
                                lemma_key_idx_unique(s0, j0);
                                lemma_key_idx_unique(s0, i as int);
                            }
                        }
                        if k2 != key@ && seq_has_key(s0, k2) {
                            let j0 = choose|j: int| 0 <= j < s0.len() && s0[j].key@ == k2;
                            assert(j0 != i);
                            let j = if j0 < i { j0 } else { j0 - 1 };
                            assert(s1[j] == s0[j0]);
                            assert(s1[j].key@ == k2);
                        }
                    }
                    assert forall|k2: Seq<u8>| #[trigger]
                        seq_as_map(s1).dom().contains(k2) implies seq_as_map(s1)[k2]
                        == seq_as_map(s0).remove(key@)[k2] by {
                        let j = seq_key_idx(s1, k2);
                        assert(0 <= j < s1.len() && s1[j].key@ == k2);
                        lemma_key_idx_unique(s1, j);
                        let j0 = if j < i { j } else { j + 1 };
                        assert(s1[j] == s0[j0]);
                        lemma_key_idx_unique(s0, j0);
                    }
                    assert(seq_as_map(s1) =~= seq_as_map(s0).remove(key@));
                }
            },
            None => {
                proof {
                    assert(!seq_as_map(s0).dom().contains(key@));
                    assert(seq_as_map(s0) =~= seq_as_map(s0).remove(key@));
                }
            },
        }
    }

    /// Remove every record whose value equals `value`.
    #[verifier::loop_isolation(false)]
    pub fn drop_all(&mut self, value: &[u8])
        requires
            old(self).wf(),
        ensures
            final(self).wf(),
            final(self)@ == map_retained(old(self)@, keeps_value_not(value@)),
            final(self).records@ == kept(old(self).records@, keeps_value_not(value@), 0),
            final(self).spec_len() <= old(self).spec_len(),
    {
        let ghost s0 = self.records@;
        let ghost q = keeps_value_not(value@);
        let ghost mut j: int = 0;
        let mut i: usize = 0;
        proof {
            assert(self.records@.subrange(0, 0) + kept(s0, q, 0) =~= kept(s0, q, 0));
            assert(self.records@.subrange(0, s0.len() as int) =~= s0.subrange(0, s0.len() as int));
        }
        while i < self.records.len()
            invariant
                keys_unique(s0),
                0 <= i as int <= self.records@.len(),
                i as int <= j <= s0.len(),
                self.records@.len() - i as int == s0.len() - j,
                self.records@.subrange(i as int, self.records@.len() as int) == s0.subrange(
                    j,
                    s0.len() as int,
                ),
                self.records@.subrange(0, i as int) + kept(s0, q, j) == kept(s0, q, 0),
            decreases s0.len() - j,
        {
            let ghost pre = self.records@;
            proof {
                assert(pre[i as int] == pre.subrange(i as int, pre.len() as int)[0]);
                assert(pre[i as int] == s0[j]);
            }
            if bytes_eq(self.records[i].value.as_slice(), value) {
                self.records.remove(i);
                proof {
                    assert(!q(pair_of(s0[j])));
                    assert(kept(s0, q, j) == kept(s0, q, j + 1));
                    let cur = self.records@;
                    assert(cur == pre.subrange(0, i as int) + pre.subrange(
                        i as int + 1,
                        pre.len() as int,
                    ));
                    assert forall|a: int| 0 <= a < i as int implies cur[a] == pre[a] by {}
                    assert(cur.subrange(0, i as int) =~= pre.subrange(0, i as int));
                    assert forall|a: int| 0 <= a < cur.len() - i as int implies cur.subrange(
                        i as int,
                        cur.len() as int,
                    )[a] == s0.subrange(j + 1, s0.len() as int)[a] by {
                        assert(cur[i as int + a] == pre[i as int + 1 + a]);
                        assert(pre.subrange(i as int, pre.len() as int)[a + 1] == s0.subrange(
                            j,
                            s0.len() as int,
                        )[a + 1]);
                    }
                    assert(cur.subrange(i as int, cur.len() as int) =~= s0.subrange(
                        j + 1,
                        s0.len() as int,
                    ));
                }
            } else {
                i += 1;
                proof {
                    assert(q(pair_of(s0[j])));
                    assert(kept(s0, q, j) == seq![s0[j]] + kept(s0, q, j + 1));
                    assert(pre[i as int - 1] == s0[j]);
                    assert(pre.subrange(0, i as int) =~= pre.subrange(0, i as int - 1).push(s0[j]));
                    assert(pre.subrange(0, i as int) + kept(s0, q, j + 1) =~= pre.subrange(
                        0,
                        i as int - 1,
                    ) + kept(s0, q, j));
                    assert forall|a: int| 0 <= a < pre.len() - i as int implies pre.subrange(
                        i as int,
                        pre.len() as int,
                    )[a] == s0.subrange(j + 1, s0.len() as int)[a] by {
                        assert(pre.subrange(i as int - 1, pre.len() as int)[a + 1] == s0.subrange(
                            j,
                            s0.len() as int,
                        )[a + 1]);
                    }
                    assert(pre.subrange(i as int, pre.len() as int) =~= s0.subrange(
                        j + 1,
                        s0.len() as int,
                    ));
                }
            }
            proof {
                j = j + 1;
            }
        }
        proof {
            assert(self.records@.subrange(0, i as int) =~= self.records@);
            assert(j == s0.len());
            assert(kept(s0, q, j) =~= Seq::<Record>::empty());
            assert(self.records@ + kept(s0, q, j) =~= self.records@);
            assert(self.records@ == kept(s0, q, 0));
            lemma_kept_map(s0, q);
        }
    }

    /// Remove every record whose ttl has elapsed at wall-clock second `now`.
    #[verifier::loop_isolation(false)]
    pub fn sweep_expired(&mut self, now: u64)
        requires
            old(self).wf(),
        ensures
            final(self).wf(),
            final(self)@ == map_retained(old(self)@, keeps_fresh(now)),
            final(self).records@ == kept(old(self).records@, keeps_fresh(now), 0),
            final(self).spec_len() <= old(self).spec_len(),
    {
        let ghost s0 = self.records@;
        let ghost q = keeps_fresh(now);
        let ghost mut j: int = 0;
        let mut i: usize = 0;
        proof {
            assert(self.records@.subrange(0, 0) + kept(s0, q, 0) =~= kept(s0, q, 0));
            assert(self.records@.subrange(0, s0.len() as int) =~= s0.subrange(0, s0.len() as int));
        }
        while i < self.records.len()
            invariant
                keys_unique(s0),
                0 <= i as int <= self.records@.len(),
                i as int <= j <= s0.len(),
                self.records@.len() - i as int == s0.len() - j,
                self.records@.subrange(i as int, self.records@.len() as int) == s0.subrange(
                    j,
                    s0.len() as int,
                ),
                self.records@.subrange(0, i as int) + kept(s0, q, j) == kept(s0, q, 0),
            decreases s0.len() - j,
        {
            let ghost pre = self.records@;
            proof {
                assert(pre[i as int] == pre.subrange(i as int, pre.len() as int)[0]);
                assert(pre[i as int] == s0[j]);
            }
            if ttl_is_expired(self.records[i].ttl.as_slice(), now) {
                self.records.remove(i);
                proof {
                    assert(!q(pair_of(s0[j])));
                    assert(kept(s0, q, j) == kept(s0, q, j + 1));
                    let cur = self.records@;
                    assert(cur == pre.subrange(0, i as int) + pre.subrange(
                        i as int + 1,
                        pre.len() as int,
                    ));
                    assert forall|a: int| 0 <= a < i as int implies cur[a] == pre[a] by {}
                    assert(cur.subrange(0, i as int) =~= pre.subrange(0, i as int));
                    assert forall|a: int| 0 <= a < cur.len() - i as int implies cur.subrange(
                        i as int,
                        cur.len() as int,
                    )[a] == s0.subrange(j + 1, s0.len() as int)[a] by {
                        assert(cur[i as int + a] == pre[i as int + 1 + a]);
                        assert(pre.subrange(i as int, pre.len() as int)[a + 1] == s0.subrange(
                            j,
                            s0.len() as int,
                        )[a + 1]);
                    }
                    assert(cur.subrange(i as int, cur.len() as int) =~= s0.subrange(
                        j + 1,
                        s0.len() as int,
                    ));
                }
            } else {
                i += 1;
                proof {
                    assert(q(pair_of(s0[j])));
                    assert(kept(s0, q, j) == seq![s0[j]] + kept(s0, q, j + 1));
                    assert(pre[i as int - 1] == s0[j]);
                    assert(pre.subrange(0, i as int) =~= pre.subrange(0, i as int - 1).push(s0[j]));
                    assert(pre.subrange(0, i as int) + kept(s0, q, j + 1) =~= pre.subrange(
                        0,
                        i as int - 1,
                    ) + kept(s0, q, j));
                    assert forall|a: int| 0 <= a < pre.len() - i as int implies pre.subrange(
                        i as int,
                        pre.len() as int,
                    )[a] == s0.subrange(j + 1, s0.len() as int)[a] by {
                        assert(pre.subrange(i as int - 1, pre.len() as int)[a + 1] == s0.subrange(
                            j,
                            s0.len() as int,
                        )[a + 1]);
                    }
                    assert(pre.subrange(i as int, pre.len() as int) =~= s0.subrange(
                        j + 1,
                        s0.len() as int,
                    ));
                }
            }
            proof {
                j = j + 1;
            }
        }
        proof {
            assert(self.records@.subrange(0, i as int) =~= self.records@);
            assert(j == s0.len());
            assert(kept(s0, q, j) =~= Seq::<Record>::empty());
            assert(self.records@ + kept(s0, q, j) =~= self.records@);
            assert(self.records@ == kept(s0, q, 0));
            lemma_kept_map(s0, q);
        }
    }
}

} // verus!
