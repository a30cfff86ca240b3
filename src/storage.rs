//! The storage engine: the deduplicated, time-indexed collection of
//! [`Status`] records of every source, and its configuration.

use vstd::prelude::*;
use vstd::string::StringSliceAdditionalSpecFns;
use crate::data::{merged, SourceId, Status};
use crate::dispatch::{Envelope, Request};
use crate::wire::span_is;

verus! {

/// Storage errors.
#[derive(Clone, Debug, PartialEq, Eq)]
pub enum StorageError {
    /// The named storage backend is not part of this build.
    StorageNotCompiled { name: String },
    /// The named duplicate strategy does not exist.
    UnknownDupeStrategy { name: String },
    /// The named storage backend does not exist.
    UnknownStorageType { name: String },
}

/// Whether `s` is exactly the ASCII text `lit`.
fn text_is(s: &str, lit: &Vec<u8>) -> (r: bool)
    ensures
        r == (s.spec_bytes() == lit@),
{
    let b = s.as_bytes();
    assert(b@.subrange(0, b@.len() as int) =~= b@);
    span_is(b, 0, b.len(), lit)
}

// "drop"
pub open spec fn drop_name() -> Seq<u8> {
    seq![100u8, 114, 111, 112]
}

// "merge"
pub open spec fn merge_name() -> Seq<u8> {
    seq![109u8, 101, 114, 103, 101]
}

// "overwrite"
pub open spec fn overwrite_name() -> Seq<u8> {
    seq![111u8, 118, 101, 114, 119, 114, 105, 116, 101]
}

// "memory"
pub open spec fn memory_name() -> Seq<u8> {
    seq![109u8, 101, 109, 111, 114, 121]
}

// "sled"
pub open spec fn sled_name() -> Seq<u8> {
    seq![115u8, 108, 101, 100]
}

/// Strategy to use when multiple [`Status`] packets arrive with the same pair
/// of `source_id` + `timestamp`.
#[derive(Clone, Copy, Debug, PartialEq, Eq, Structural)]
pub enum DupeStrategy {
    /// Discard newly received packets, keeping the original one.
    Drop,
    /// Add all fields of the newly received packets to the current entry,
    /// potentially overwriting existing data.
    Merge,
    /// Replace existing [`Status`] entry with the newly received one.
    Overwrite,
}

impl DupeStrategy {
    /// Reads a strategy from its name: `drop`, `merge` or `overwrite`.
    pub fn parse(s: &str) -> (r: Result<DupeStrategy, StorageError>)
        ensures
            s.spec_bytes() == drop_name() ==> r == Ok::<DupeStrategy, StorageError>(
                DupeStrategy::Drop,
            ),
            s.spec_bytes() == merge_name() ==> r == Ok::<DupeStrategy, StorageError>(
                DupeStrategy::Merge,
            ),
            s.spec_bytes() == overwrite_name() ==> r == Ok::<DupeStrategy, StorageError>(
                DupeStrategy::Overwrite,
            ),
            s.spec_bytes() != drop_name() && s.spec_bytes() != merge_name() && s.spec_bytes()
                != overwrite_name() ==> (r matches Err(StorageError::UnknownDupeStrategy { name })
                && name@ == s@),
    {
        let d = vec![100u8, 114, 111, 112];
        let m = vec![109u8, 101, 114, 103, 101];
        let o = vec![111u8, 118, 101, 114, 119, 114, 105, 116, 101];
        assert(d@ =~= drop_name());
        assert(m@ =~= merge_name());
        assert(o@ =~= overwrite_name());
        if text_is(s, &d) {
            Ok(DupeStrategy::Drop)
        } else if text_is(s, &m) {
            Ok(DupeStrategy::Merge)
        } else if text_is(s, &o) {
            Ok(DupeStrategy::Overwrite)
        } else {
            Err(StorageError::UnknownDupeStrategy { name: s.to_owned() })
        }
    }
}

impl std::str::FromStr for DupeStrategy {
    type Err = StorageError;

    fn from_str(s: &str) -> Result<DupeStrategy, StorageError> {
        DupeStrategy::parse(s)
    }
}

/// Lists all supported storage backends along with their corresponding
/// configuration options.
#[derive(Clone, Copy, Debug, PartialEq, Eq, Structural)]
pub enum StorageConfig {
    /// In-memory storage. Not persisted between service restarts.
    InMemory,
}

/// `b` names the on-disk backend: `sled`, or `sled:` followed by a path.
pub open spec fn names_sled(b: Seq<u8>) -> bool {
    b == sled_name() || (b.len() >= 5 && b.subrange(0, 5) == sled_name().push(58u8))
}

impl StorageConfig {
    /// Reads a storage configuration: `memory`, or `sled[:path]`, a backend
    /// that this build does not hold.
    pub fn parse(s: &str) -> (r: Result<StorageConfig, StorageError>)
        ensures
            s.spec_bytes() == memory_name() ==> r == Ok::<StorageConfig, StorageError>(
                StorageConfig::InMemory,
            ),
            names_sled(s.spec_bytes()) ==> (r matches Err(StorageError::StorageNotCompiled { name })
                && name@ == s@),
            s.spec_bytes() != memory_name() && !names_sled(s.spec_bytes()) ==> (r matches Err(
                StorageError::UnknownStorageType { name },
            ) && name@ == s@),
    {
        let memory = vec![109u8, 101, 109, 111, 114, 121];
        let sled = vec![115u8, 108, 101, 100];
        let sled_colon = vec![115u8, 108, 101, 100, 58];
        assert(memory@ =~= memory_name());
        assert(sled@ =~= sled_name());
        assert(sled_colon@ =~= sled_name().push(58u8));
        let b = s.as_bytes();
        assert(b@.subrange(0, b@.len() as int) =~= b@);
        if span_is(b, 0, b.len(), &memory) {
            assert(s.spec_bytes() != sled_name());
            Ok(StorageConfig::InMemory)
        } else if span_is(b, 0, b.len(), &sled) || (b.len() >= 5 && span_is(b, 0, 5, &sled_colon)) {
            Err(StorageError::StorageNotCompiled { name: s.to_owned() })
        } else {
            Err(StorageError::UnknownStorageType { name: s.to_owned() })
        }
    }
}

impl std::str::FromStr for StorageConfig {
    type Err = StorageError;

    fn from_str(s: &str) -> Result<StorageConfig, StorageError> {
        StorageConfig::parse(s)
    }
}

/// One end of a time range.
#[derive(Clone, Copy, Debug, PartialEq, Eq, Structural)]
pub enum TimeBound {
    Included(i64),
    Excluded(i64),
    Unbounded,
}

/// A range of timestamps, each end inclusive, exclusive or open.
#[derive(Clone, Copy, Debug, PartialEq, Eq, Structural)]
pub struct TimeRange {
    pub start: TimeBound,
    pub end: TimeBound,
}

impl TimeRange {
    /// `t` lies within the range.
    pub open spec fn holds(self, t: i64) -> bool {
        &&& match self.start {
            TimeBound::Included(a) => a <= t,
            TimeBound::Excluded(a) => a < t,
            TimeBound::Unbounded => true,
        }
        &&& match self.end {
            TimeBound::Included(b) => t <= b,
            TimeBound::Excluded(b) => t < b,
            TimeBound::Unbounded => true,
        }
    }

    pub fn contains(&self, t: i64) -> (r: bool)
        ensures
            r == self.holds(t),
    {
        let lower = match self.start {
            TimeBound::Included(a) => a <= t,
            TimeBound::Excluded(a) => a < t,
            TimeBound::Unbounded => true,
        };
        let upper = match self.end {
            TimeBound::Included(b) => t <= b,
            TimeBound::Excluded(b) => t < b,
            TimeBound::Unbounded => true,
        };
        lower && upper
    }
}

/// The key under which a record is stored.
pub open spec fn key_of(st: Status) -> (SourceId, i64) {
    (st.source_id, st.timestamp)
}

/// The order of keys: by source, then by timestamp.
pub open spec fn key_lt(a: (SourceId, i64), b: (SourceId, i64)) -> bool {
    a.0.0 < b.0.0 || (a.0.0 == b.0.0 && a.1 < b.1)
}

/// The records are in strictly ascending order of their keys.
pub open spec fn sorted_by_key(s: Seq<Status>) -> bool {
    forall|i: int, j: int|
        0 <= i < j < s.len() ==> key_lt(#[trigger] key_of(s[i]), #[trigger] key_of(s[j]))
}

pub open spec fn holds_key(s: Seq<Status>, k: (SourceId, i64)) -> bool {
    exists|i: int| 0 <= i < s.len() && key_of(s[i]) == k
}

/// The records of `s` by their keys.
pub open spec fn records_map(s: Seq<Status>) -> Map<(SourceId, i64), Status> {
    Map::new(
        |k: (SourceId, i64)| holds_key(s, k),
        |k: (SourceId, i64)| s[choose|i: int| 0 <= i < s.len() && key_of(s[i]) == k],
    )
}

/// What the store holds at the key of `st` after `st` is persisted under
/// `strategy` into `m`; every other key keeps its record.
pub open spec fn resolve(
    m: Map<(SourceId, i64), Status>,
    st: Status,
    strategy: DupeStrategy,
) -> Map<(SourceId, i64), Status> {
    let k = key_of(st);
    match strategy {
        DupeStrategy::Drop => if m.contains_key(k) {
            m
        } else {
            m.insert(k, st)
        },
        DupeStrategy::Merge => if m.contains_key(k) {
            m.insert(k, merged(m[k], st))
        } else {
            m.insert(k, st)
        },
        DupeStrategy::Overwrite => m.insert(k, st),
    }
}

/// `st` is a record of source `src` with a timestamp in `range`.
pub open spec fn selected(st: Status, src: SourceId, range: TimeRange) -> bool {
    st.source_id == src && range.holds(st.timestamp)
}

/// `out` is exactly the records of `m` of source `src` with a timestamp in
/// `range`, in ascending order of timestamp.
pub open spec fn answers_range(
    m: Map<(SourceId, i64), Status>,
    src: SourceId,
    range: TimeRange,
    out: Seq<Status>,
) -> bool {
    &&& forall|a: int, b: int|
        0 <= a < b < out.len() ==> (#[trigger] out[a]).timestamp < (#[trigger] out[b]).timestamp
    &&& forall|a: int|
        0 <= a < out.len() ==> selected(#[trigger] out[a], src, range) && m.contains_key(
            key_of(out[a]),
        ) && m[key_of(out[a])] == out[a]
    &&& forall|t: i64|
        #![trigger m.contains_key((src, t))]
        m.contains_key((src, t)) && range.holds(t) ==> exists|a: int|
            0 <= a < out.len() && (#[trigger] out[a]).timestamp == t
}

proof fn lemma_entry(s: Seq<Status>, i: int)
    requires
        sorted_by_key(s),
        0 <= i < s.len(),
    ensures
        records_map(s).contains_key(key_of(s[i])),
        records_map(s)[key_of(s[i])] == s[i],
{
    let k = key_of(s[i]);
    assert(holds_key(s, k));
    let j = choose|j: int| 0 <= j < s.len() && key_of(s[j]) == k;
    if j < i {
        assert(key_lt(key_of(s[j]), key_of(s[i])));
    } else if j > i {
        assert(key_lt(key_of(s[i]), key_of(s[j])));
    }
}

proof fn lemma_update(s: Seq<Status>, i: int, x: Status)
    requires
        sorted_by_key(s),
        0 <= i < s.len(),
        key_of(x) == key_of(s[i]),
    ensures
        sorted_by_key(s.update(i, x)),
        records_map(s.update(i, x)) == records_map(s).insert(key_of(x), x),
{
    let t = s.update(i, x);
    assert forall|a: int, b: int| 0 <= a < b < t.len() implies key_lt(
        #[trigger] key_of(t[a]),
        #[trigger] key_of(t[b]),
    ) by {
        assert(key_of(t[a]) == key_of(s[a]));
        assert(key_of(t[b]) == key_of(s[b]));
    }
    let m = records_map(s).insert(key_of(x), x);
    assert forall|k: (SourceId, i64)| #[trigger]
        records_map(t).contains_key(k) == m.contains_key(k) by {
        if holds_key(t, k) {
            let j = choose|j: int| 0 <= j < t.len() && key_of(t[j]) == k;
            assert(key_of(s[j]) == k);
        }
        if holds_key(s, k) {
            let j = choose|j: int| 0 <= j < s.len() && key_of(s[j]) == k;
            assert(key_of(t[j]) == k);
        }
    }
    assert forall|k: (SourceId, i64)| #[trigger]
        records_map(t).contains_key(k) implies records_map(t)[k] == m[k] by {
        let j = choose|j: int| 0 <= j < t.len() && key_of(t[j]) == k;
        lemma_entry(t, j);
        if j != i {
            lemma_entry(s, j);
        }
    }
    assert(records_map(t) =~= m);
}

proof fn lemma_insert(s: Seq<Status>, i: int, x: Status)
    requires
        sorted_by_key(s),
        0 <= i <= s.len(),
        forall|j: int| 0 <= j < i ==> key_lt(#[trigger] key_of(s[j]), key_of(x)),
        forall|j: int| i <= j < s.len() ==> key_lt(key_of(x), #[trigger] key_of(s[j])),
    ensures
        !records_map(s).contains_key(key_of(x)),
        sorted_by_key(s.insert(i, x)),
        records_map(s.insert(i, x)) == records_map(s).insert(key_of(x), x),
{
    let t = s.insert(i, x);
    assert(!holds_key(s, key_of(x))) by {
        if holds_key(s, key_of(x)) {
            let j = choose|j: int| 0 <= j < s.len() && key_of(s[j]) == key_of(x);
            if j < i {
                assert(key_lt(key_of(s[j]), key_of(x)));
            } else {
                assert(key_lt(key_of(x), key_of(s[j])));
            }
        }
    }
    assert forall|a: int, b: int| 0 <= a < b < t.len() implies key_lt(
        #[trigger] key_of(t[a]),
        #[trigger] key_of(t[b]),
    ) by {
        if a < i && b < i {
            assert(key_lt(key_of(s[a]), key_of(s[b])));
        } else if a < i && b == i {
        } else if a < i {
            assert(key_lt(key_of(s[a]), key_of(x)));
            assert(key_lt(key_of(x), key_of(s[b - 1])));
        } else if a == i {
            assert(t[b] == s[b - 1]);
        } else {
            assert(key_lt(key_of(s[a - 1]), key_of(s[b - 1])));
        }
    }
    let m = records_map(s).insert(key_of(x), x);
    assert forall|k: (SourceId, i64)| #[trigger]
        records_map(t).contains_key(k) == m.contains_key(k) by {
        if holds_key(t, k) {
            let j = choose|j: int| 0 <= j < t.len() && key_of(t[j]) == k;
            if j < i {
                assert(key_of(s[j]) == k);
            } else if j > i {
                assert(key_of(s[j - 1]) == k);
            }
        }
        if holds_key(s, k) {
            let j = choose|j: int| 0 <= j < s.len() && key_of(s[j]) == k;
            if j < i {
                assert(key_of(t[j]) == k);
            } else {
                assert(key_of(t[j + 1]) == k);
            }
        }
        if k == key_of(x) {
            assert(key_of(t[i]) == k);
        }
    }
    assert forall|k: (SourceId, i64)| #[trigger]
        records_map(t).contains_key(k) implies records_map(t)[k] == m[k] by {
        let j = choose|j: int| 0 <= j < t.len() && key_of(t[j]) == k;
        lemma_entry(t, j);
        if j < i {
            lemma_entry(s, j);
        } else if j > i {
            lemma_entry(s, j - 1);
        }
    }
    assert(records_map(t) =~= m);
}

/// In-memory storage: the records of every source, kept in ascending order
/// of source and timestamp.
pub struct MemoryStorage {
    statuses: Vec<Status>,
    dupe_strategy: DupeStrategy,
}

impl MemoryStorage {
    /// The records held, by source and timestamp.
    pub closed spec fn view(&self) -> Map<(SourceId, i64), Status> {
        records_map(self.statuses@)
    }

    /// The strategy that resolves duplicates.
    pub closed spec fn strategy(&self) -> DupeStrategy {
        self.dupe_strategy
    }

    pub closed spec fn wf(&self) -> bool {
        sorted_by_key(self.statuses@)
    }

    pub fn new(dupe_strategy: DupeStrategy) -> (r: Self)
        ensures
            r.wf(),
            r.view() == Map::<(SourceId, i64), Status>::empty(),
            r.strategy() == dupe_strategy,
    {
        let r = MemoryStorage { statuses: Vec::new(), dupe_strategy };
        assert(r.view() =~= Map::<(SourceId, i64), Status>::empty());
        r
    }

    /// Saves a single [`Status`] packet, resolving a duplicate key by the
    /// strategy of the store.
    pub fn persist_status(&mut self, status: Status) -> (r: Result<(), StorageError>)
        requires
            old(self).wf(),
        ensures
            r is Ok,
            final(self).wf(),
            final(self).strategy() == old(self).strategy(),
            final(self).view() == resolve(old(self).view(), status, old(self).strategy()),
    {
        let src = status.source_id.0;
        let ts = status.timestamp;
        let len = self.statuses.len();
        let mut i: usize = 0;
        while i < len && (self.statuses[i].source_id.0 < src || (self.statuses[i].source_id.0
            == src && self.statuses[i].timestamp < ts))
            invariant
                i <= len,
                len == self.statuses@.len(),
                src == status.source_id.0,
                ts == status.timestamp,
                forall|j: int| 0 <= j < i ==> key_lt(#[trigger] key_of(self.statuses@[j]), key_of(status)),
            decreases len - i,
        {
            i = i + 1;
        }
        let ghost s = self.statuses@;
        if i < len && self.statuses[i].source_id.0 == src && self.statuses[i].timestamp == ts {
            proof {
                assert(key_of(s[i as int]) == key_of(status));
                lemma_entry(s, i as int);
            }
            match self.dupe_strategy {
                DupeStrategy::Drop => {},
                DupeStrategy::Merge => {
                    let current = self.statuses[i];
                    let next = current.merge(&status);
                    proof {
                        lemma_update(s, i as int, next);
                    }
                    self.statuses.set(i, next);
                },
                DupeStrategy::Overwrite => {
                    proof {
                        lemma_update(s, i as int, status);
                    }
                    self.statuses.set(i, status);
                },
            }
        } else {
            proof {
                assert forall|j: int| i <= j < s.len() implies key_lt(
                    key_of(status),
                    #[trigger] key_of(s[j]),
                ) by {
                    if j > i {
                        assert(key_lt(key_of(s[i as int]), key_of(s[j])));
                    }
                }
                lemma_insert(s, i as int, status);
            }
            self.statuses.insert(i, status);
        }
        Ok(())
    }

    /// Gets the [`Status`] packets of a given [`SourceId`] in a given time
    /// range, in ascending order of timestamp.
    pub fn get_statuses(&self, source_id: SourceId, timestamps: &TimeRange) -> (r: Result<
        Vec<Status>,
        StorageError,
    >)
        requires
            self.wf(),
        ensures
            r matches Ok(out) && answers_range(self.view(), source_id, *timestamps, out@),
    {
        let len = self.statuses.len();
        let mut out: Vec<Status> = Vec::new();
        let ghost mut idx: Seq<int> = Seq::empty();
        let mut i: usize = 0;
        while i < len
            invariant
                i <= len,
                len == self.statuses@.len(),
                sorted_by_key(self.statuses@),
                idx.len() == out@.len(),
                forall|a: int|
                    0 <= a < idx.len() ==> 0 <= #[trigger] idx[a] < i && out@[a]
                        == self.statuses@[idx[a]] && selected(
                        out@[a],
                        source_id,
                        *timestamps,
                    ),
                forall|a: int, b: int| 0 <= a < b < idx.len() ==> #[trigger] idx[a] < #[trigger] idx[b],
                forall|j: int|
                    0 <= j < i && selected(#[trigger] self.statuses@[j], source_id, *timestamps)
                        ==> exists|a: int| 0 <= a < idx.len() && idx[a] == j,
            decreases len - i,
        {
            let st = self.statuses[i];
            let ghost before = idx;
            if st.source_id.0 == source_id.0 && timestamps.contains(st.timestamp) {
                out.push(st);
                proof {
                    idx = idx.push(i as int);
                    assert(idx[idx.len() - 1] == i);
                }
            }
            proof {
                assert forall|j: int|
                    0 <= j <= i && selected(#[trigger] self.statuses@[j], source_id, *timestamps)
                        implies exists|a: int| 0 <= a < idx.len() && idx[a] == j by {
                    if j < i {
                        let a = choose|a: int| 0 <= a < before.len() && before[a] == j;
                        assert(idx[a] == j);
                    } else {
                        assert(idx[idx.len() - 1] == j);
                    }
                }
            }
            i = i + 1;
        }
        let ghost s = self.statuses@;
        proof {
            assert forall|a: int, b: int| 0 <= a < b < out@.len() implies (#[trigger] out@[a]).timestamp
                < (#[trigger] out@[b]).timestamp by {
                assert(idx[a] < idx[b]);
                assert(key_lt(key_of(s[idx[a]]), key_of(s[idx[b]])));
            }
            assert forall|a: int| 0 <= a < out@.len() implies selected(
                #[trigger] out@[a],
                source_id,
                *timestamps,
            ) && records_map(s).contains_key(key_of(out@[a])) && records_map(s)[key_of(out@[a])]
                == out@[a] by {
                lemma_entry(s, idx[a]);
            }
            assert forall|t: i64| #[trigger]
                records_map(s).contains_key((source_id, t)) && timestamps.holds(t) implies exists|
                a: int,
            | 0 <= a < out@.len() && (#[trigger] out@[a]).timestamp == t by {
                let j = choose|j: int| 0 <= j < s.len() && key_of(s[j]) == (source_id, t);
                assert(selected(s[j], source_id, *timestamps));
                let a = choose|a: int| 0 <= a < idx.len() && idx[a] == j;
                assert(out@[a].timestamp == t);
            }
        }
        Ok(out)
    }
}

/// Persisting `v1` and then `v2`, both under one key that the store did not
/// hold, leaves `v1` under the `Drop` strategy, `v2` under `Overwrite`, and
/// the merge of `v1` with `v2` under `Merge`. No other key changes.
pub proof fn lemma_dedup_policy(
    m: Map<(SourceId, i64), Status>,
    v1: Status,
    v2: Status,
    strategy: DupeStrategy,
)
    requires
        key_of(v1) == key_of(v2),
        !m.contains_key(key_of(v1)),
    ensures
        ({
            let after = resolve(resolve(m, v1, strategy), v2, strategy);
            &&& after.contains_key(key_of(v1))
            &&& strategy == DupeStrategy::Drop ==> after[key_of(v1)] == v1
            &&& strategy == DupeStrategy::Overwrite ==> after[key_of(v1)] == v2
            &&& strategy == DupeStrategy::Merge ==> after[key_of(v1)] == merged(v1, v2)
            &&& after.remove(key_of(v1)) == m
        }),
{
    let k = key_of(v1);
    let after = resolve(resolve(m, v1, strategy), v2, strategy);
    assert(after.remove(k) =~= m);
}

/// An answer to a range query for a source that the store holds no record
/// of is empty.
pub proof fn lemma_unknown_source_empty(
    m: Map<(SourceId, i64), Status>,
    src: SourceId,
    range: TimeRange,
    out: Seq<Status>,
)
    requires
        answers_range(m, src, range, out),
        forall|t: i64| !m.contains_key((src, t)),
    ensures
        out.len() == 0,
{
    if out.len() > 0 {
        assert(m.contains_key(key_of(out[0])));
        assert(key_of(out[0]) == (src, out[0].timestamp));
    }
}

/// A concrete instance of one of the supported storage engines.
pub enum StorageEngine {
    InMemory(MemoryStorage),
}

impl StorageEngine {
    /// The records held, by source and timestamp.
    pub open spec fn view(&self) -> Map<(SourceId, i64), Status> {
        match self {
            StorageEngine::InMemory(s) => s.view(),
        }
    }

    /// The strategy that resolves duplicates.
    pub open spec fn strategy(&self) -> DupeStrategy {
        match self {
            StorageEngine::InMemory(s) => s.strategy(),
        }
    }

    pub open spec fn wf(&self) -> bool {
        match self {
            StorageEngine::InMemory(s) => s.wf(),
        }
    }

    /// Saves a single [`Status`] packet.
    pub fn persist_status(&mut self, status: Status) -> (r: Result<(), StorageError>)
        requires
            old(self).wf(),
        ensures
            r is Ok,
            final(self).wf(),
            final(self).strategy() == old(self).strategy(),
            final(self).view() == resolve(old(self).view(), status, old(self).strategy()),
    {
        match self {
            StorageEngine::InMemory(s) => s.persist_status(status),
        }
    }

    /// Gets the [`Status`] packets of a given [`SourceId`] in a given time
    /// range, in ascending order of timestamp.
    pub fn get_statuses(&self, source_id: SourceId, timestamps: &TimeRange) -> (r: Result<
        Vec<Status>,
        StorageError,
    >)
        requires
            self.wf(),
        ensures
            r matches Ok(out) && answers_range(self.view(), source_id, *timestamps, out@),
    {
        match self {
            StorageEngine::InMemory(s) => s.get_statuses(source_id, timestamps),
        }
    }
}

/// Initialize an instance of a storage engine based on the provided
/// [`StorageConfig`] and return it, empty.
pub fn init(cfg: &StorageConfig, dupe_strategy: DupeStrategy) -> (r: Result<
    StorageEngine,
    StorageError,
>)
    ensures
        r matches Ok(e) && e.wf() && e.strategy() == dupe_strategy && e.view() == Map::<
            (SourceId, i64),
            Status,
        >::empty(),
{
    match cfg {
        StorageConfig::InMemory => Ok(StorageEngine::InMemory(MemoryStorage::new(dupe_strategy))),
    }
}

/// Commands that change what the store holds.
pub enum StorageCommand {
    PersistStatus(Status),
}

impl Request for StorageCommand {
    type Result = Result<(), StorageError>;
}

/// The records of one source within a time range.
#[derive(Clone, Copy, Debug, PartialEq, Eq, Structural)]
pub struct GetStatuses {
    pub source_id: SourceId,
    pub timestamps: TimeRange,
}

/// Queries of what the store holds.
pub enum StorageQuery {
    GetStatuses(GetStatuses),
}

impl Request for StorageQuery {
    type Result = Result<Vec<Status>, StorageError>;
}

/// Serves a command on the store.
pub fn on_command(engine: &mut StorageEngine, cmd: StorageCommand) -> (r: Result<(), StorageError>)
    requires
        old(engine).wf(),
    ensures
        final(engine).wf(),
        final(engine).strategy() == old(engine).strategy(),
        match cmd {
            StorageCommand::PersistStatus(st) => {
                &&& r is Ok
                &&& final(engine).view() == resolve(old(engine).view(), st, old(engine).strategy())
            },
        },
{
    match cmd {
        StorageCommand::PersistStatus(st) => engine.persist_status(st),
    }
}

/// Serves a query on the store.
pub fn on_query(engine: &StorageEngine, query: &StorageQuery) -> (r: Result<
    Vec<Status>,
    StorageError,
>)
    requires
        engine.wf(),
    ensures
        match *query {
            StorageQuery::GetStatuses(q) => r matches Ok(out) && answers_range(
                engine.view(),
                q.source_id,
                q.timestamps,
                out@,
            ),
        },
{
    match query {
        StorageQuery::GetStatuses(q) => engine.get_statuses(q.source_id, &q.timestamps),
    }
}

/// Serves one request taken from the mailbox: a command through
/// [`on_command`], a query through [`on_query`], giving the reply of the
/// same kind. A query leaves the store as it was.
pub fn serve(
    engine: &mut StorageEngine,
    request: Envelope<StorageCommand, StorageQuery>,
) -> (r: Envelope<Result<(), StorageError>, Result<Vec<Status>, StorageError>>)
    requires
        old(engine).wf(),
    ensures
        final(engine).wf(),
        final(engine).strategy() == old(engine).strategy(),
        match request {
            Envelope::Command(StorageCommand::PersistStatus(st)) => {
                &&& r matches Envelope::Command(res) && res is Ok
                &&& final(engine).view() == resolve(old(engine).view(), st, old(engine).strategy())
            },
            Envelope::Query(StorageQuery::GetStatuses(q)) => {
                &&& r matches Envelope::Query(res) && (res matches Ok(out) && answers_range(
                    old(engine).view(),
                    q.source_id,
                    q.timestamps,
                    out@,
                ))
                &&& final(engine).view() == old(engine).view()
            },
        },
{
    match request {
        Envelope::Command(cmd) => Envelope::Command(on_command(engine, cmd)),
        Envelope::Query(query) => Envelope::Query(on_query(engine, &query)),
    }
}

} // verus!
