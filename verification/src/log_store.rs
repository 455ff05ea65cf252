//! The log: what is stored and what is on its way to the store.
use crate::codec::LogPos;
use crate::error::{error_text, Error, Result};
use crate::group::lemma_take_push;
use crate::recovery::{
    last_purged, later_of, mark_purged, marked, purged_error, purged_readable, purged_upto,
};
use crate::storage::{entries_of, is_last, lists, log_range, Storage, StoreView};
use crate::tree::{ascending, sorted_keys};
use std::collections::BTreeMap;
use vstd::prelude::*;

verus! {

/// How many entries one flush may hold before it takes no more.
pub const FLUSH_MAX_ENTRIES: usize = 512;

/// How many bytes one flush may hold before it takes no more.
pub const FLUSH_MAX_BYTES: usize = 8_388_608;

/// The bytes of the entries.
pub open spec fn entry_bytes(entries: Seq<(u64, Vec<u8>)>) -> nat
    decreases entries.len(),
{
    if entries.len() == 0 {
        0
    } else {
        entry_bytes(entries.drop_last()) + entries.last().1@.len()
    }
}

/// The number, or the largest one that fits where it does not fit.
spec fn capped_size(n: nat) -> usize {
    if n <= usize::MAX {
        n as usize
    } else {
        usize::MAX
    }
}

/// What the flusher is handed: entries to write, or the wish to hear when all that was
/// handed in before is settled.
#[derive(Debug)]
pub enum FlushJob {
    Append(Vec<(u64, Vec<u8>)>),
    Barrier,
}

/// What kind of job it is.
#[derive(Debug, Clone, Copy, PartialEq, Eq)]
pub enum JobKind {
    Append,
    Barrier,
}

/// What a job is told.
#[derive(Debug, PartialEq, Eq)]
pub enum FlushAnswer {
    /// Whether its entries were written, and if not, why.
    Written(std::result::Result<(), String>),
    /// All that was handed in before is settled.
    Passed,
}

/// The entries of a job.
pub open spec fn job_entries(job: FlushJob) -> Seq<(u64, Vec<u8>)> {
    match job {
        FlushJob::Append(entries) => entries@,
        FlushJob::Barrier => Seq::empty(),
    }
}

/// The kind of a job.
pub open spec fn job_kind(job: FlushJob) -> JobKind {
    match job {
        FlushJob::Append(_) => JobKind::Append,
        FlushJob::Barrier => JobKind::Barrier,
    }
}

/// The answer is the one that a job gets when the write of its batch comes out so: an
/// append is told what came of the write, in the words of the error where it failed.
pub open spec fn settles(answer: FlushAnswer, kind: JobKind, outcome: Result<()>) -> bool {
    match kind {
        JobKind::Append => match outcome {
            Ok(_) => answer == FlushAnswer::Written(Ok(())),
            Err(e) => answer matches FlushAnswer::Written(Err(words)) && words@ == error_text(e),
        },
        JobKind::Barrier => answer == FlushAnswer::Passed,
    }
}

/// Entries that are written to the store together, and the jobs that they come from.
#[derive(Debug)]
pub struct FlushBatch {
    entries: Vec<(u64, Vec<u8>)>,
    bytes: usize,
    kinds: Vec<JobKind>,
    closed: bool,
}

impl FlushBatch {
    pub closed spec fn wf(&self) -> bool {
        &&& self.bytes == capped_size(entry_bytes(self.entries@))
        &&& self.closed == self.kinds@.contains(JobKind::Barrier)
    }

    /// The entries of the batch.
    pub closed spec fn view(&self) -> Seq<(u64, Vec<u8>)> {
        self.entries@
    }

    /// The jobs of the batch, in the order in which they came.
    pub closed spec fn kinds(&self) -> Seq<JobKind> {
        self.kinds@
    }

    /// Somebody waits for the batch to be written, so it takes no more.
    pub closed spec fn is_closed(&self) -> bool {
        self.closed
    }

    /// A batch without jobs.
    pub fn new() -> (r: Self)
        ensures
            r.wf(),
            r@ == Seq::<(u64, Vec<u8>)>::empty(),
            r.kinds() == Seq::<JobKind>::empty(),
            !r.is_closed(),
    {
        FlushBatch { entries: Vec::new(), bytes: 0, kinds: Vec::new(), closed: false }
    }

    /// Takes a job into the batch. A barrier closes it.
    pub fn take(&mut self, job: FlushJob)
        requires
            old(self).wf(),
        ensures
            final(self).wf(),
            final(self)@ == old(self)@ + job_entries(job),
            final(self).kinds() == old(self).kinds().push(job_kind(job)),
            final(self).is_closed() == (old(self).is_closed() || job is Barrier),
    {
        let ghost kinds = self.kinds@;
        match job {
            FlushJob::Append(entries) => {
                self.kinds.push(JobKind::Append);
                proof {
                    lemma_push_contains(kinds, JobKind::Append, JobKind::Barrier);
                }
                self.add(entries);
            },
            FlushJob::Barrier => {
                self.kinds.push(JobKind::Barrier);
                self.closed = true;
                proof {
                    lemma_push_contains(kinds, JobKind::Barrier, JobKind::Barrier);
                    assert(self@ =~= old(self)@ + job_entries(job));
                }
            },
        }
    }

    /// Adds entries to the batch.
    fn add(&mut self, entries: Vec<(u64, Vec<u8>)>)
        requires
            old(self).wf(),
        ensures
            final(self).wf(),
            final(self)@ == old(self)@ + entries@,
            final(self).kinds() == old(self).kinds(),
            final(self).is_closed() == old(self).is_closed(),
    {
        let ghost start = self.entries@;
        let ghost all = entries@;
        assert(start + all.take(0) =~= start);
        for e in it: entries
            invariant
                it.seq() == all,
                self.wf(),
                self.entries@ == start + all.take(it.index()),
                self.closed == old(self).closed,
                self.kinds == old(self).kinds,
        {
            let ghost before = self.entries@;
            let ghost n = it.index();
            self.bytes = self.bytes.saturating_add(e.1.len());
            self.entries.push(e);
            proof {
                assert(self.entries@.drop_last() =~= before);
                assert(self.entries@ =~= start + all.take(n + 1));
            }
        }
        assert(all.take(all.len() as int) =~= all);
    }

    /// Whether the batch takes more entries.
    pub fn wants_more(&self) -> (r: bool)
        requires
            self.wf(),
        ensures
            r == (!self.is_closed() && self@.len() < FLUSH_MAX_ENTRIES && entry_bytes(self@)
                < FLUSH_MAX_BYTES),
            r <==> !self.is_closed() && self@.len() < 512 && entry_bytes(self@) < 8_388_608,
    {
        !self.closed && self.entries.len() < FLUSH_MAX_ENTRIES && self.bytes < FLUSH_MAX_BYTES
    }

    /// Writes the batch to the store.
    pub fn flush<S: Storage>(&self, db: &mut S) -> (r: Result<()>)
        ensures
            match r {
                Ok(_) => final(db).held() == old(db).held().append(self@),
                Err(e) => S::fails_with(e),
            },
            self@.len() == 0 ==> r is Ok,
    {
        if self.entries.len() == 0 {
            proof {
                assert(self.entries@ =~= Seq::empty());
                assert(db.held().append(self@) =~= db.held());
            }
            return Ok(());
        }
        db.append_log(&self.entries)
    }

    /// Settles the jobs of the batch when its write has come out: the entries are no longer
    /// on their way where they were written, and stay there where they were not. Every job
    /// gets one answer, in the order of the jobs.
    pub fn settle(&self, outcome: Result<()>, pending: &mut PendingLog) -> (r: Vec<FlushAnswer>)
        ensures
            final(pending)@ == match outcome {
                Ok(_) => old(pending)@.remove_keys(indices_of(self@)),
                Err(_) => old(pending)@,
            },
            r@.len() == self.kinds().len(),
            forall|i: int|
                0 <= i < r@.len() ==> settles(#[trigger] r@[i], self.kinds()[i], outcome),
    {
        if outcome.is_ok() {
            pending.complete(self);
        }
        let mut answers: Vec<FlushAnswer> = Vec::new();
        let mut i: usize = 0;
        while i < self.kinds.len()
            invariant
                i <= self.kinds@.len(),
                answers@.len() == i,
                forall|j: int|
                    0 <= j < i ==> settles(#[trigger] answers@[j], self.kinds@[j], outcome),
            decreases self.kinds@.len() - i,
        {
            let answer = match self.kinds[i] {
                JobKind::Append => FlushAnswer::Written(
                    match &outcome {
                        Ok(_) => Ok(()),
                        Err(e) => Err(e.message()),
                    },
                ),
                JobKind::Barrier => FlushAnswer::Passed,
            };
            answers.push(answer);
            i += 1;
        }
        answers
    }
}

/// What a list holds after one more was added.
proof fn lemma_push_contains(kinds: Seq<JobKind>, more: JobKind, kind: JobKind)
    ensures
        kinds.push(more).contains(kind) <==> kinds.contains(kind) || more == kind,
{
    if kinds.contains(kind) {
        let i = choose|i: int| 0 <= i < kinds.len() && kinds[i] == kind;
        assert(kinds.push(more)[i] == kind);
    }
    if more == kind {
        assert(kinds.push(more)[kinds.len() as int] == kind);
    }
}

/// The entries that are on their way to the store.
#[derive(Debug)]
pub struct PendingLog {
    entries: BTreeMap<u64, Vec<u8>>,
}

impl View for PendingLog {
    type V = Map<u64, Seq<u8>>;

    closed spec fn view(&self) -> Map<u64, Seq<u8>> {
        self.entries@.map_values(|b: Vec<u8>| b@)
    }
}

/// The log as it is read: what is on its way counts before what is stored.
pub open spec fn whole_log(s: StoreView, pending: Map<u64, Seq<u8>>) -> Map<u64, Seq<u8>> {
    s.log.union_prefer_right(pending)
}

/// The indices of the entries.
pub open spec fn indices_of(entries: Seq<(u64, Vec<u8>)>) -> Set<u64> {
    entries_of(entries).dom()
}

/// Where the range of a read begins.
#[derive(Debug, Clone, Copy, PartialEq, Eq)]
pub enum RangeStart {
    Included(u64),
    Excluded(u64),
    Unbounded,
}

/// Where the range of a read ends.
#[derive(Debug, Clone, Copy, PartialEq, Eq)]
pub enum RangeEnd {
    Included(u64),
    Excluded(u64),
    Unbounded,
}

/// The index lies within the range.
pub open spec fn in_range(k: u64, start: RangeStart, end: RangeEnd) -> bool {
    &&& match start {
        RangeStart::Included(x) => x <= k,
        RangeStart::Excluded(x) => x < k,
        RangeStart::Unbounded => true,
    }
    &&& match end {
        RangeEnd::Included(x) => k <= x,
        RangeEnd::Excluded(x) => k < x,
        RangeEnd::Unbounded => true,
    }
}

/// The last entry is a stored one at an index after which no range can end.
pub open spec fn last_out_of_range(s: StoreView, pending: Map<u64, Seq<u8>>) -> bool {
    s.log.contains_key(u64::MAX) && !pending.contains_key(u64::MAX)
}

/// The error says that the log has used up its indices.
pub open spec fn says_used_up(e: Error) -> bool {
    e matches Error::Storage(words) && words@ == "the log has used up its indices"@
}

/// The error where the log has used up its indices.
fn last_index_error() -> (r: Error)
    ensures
        says_used_up(r),
{
    Error::Storage("the log has used up its indices".to_owned())
}

impl PendingLog {
    /// Nothing is on its way.
    pub fn new() -> (r: Self)
        ensures
            r@ == Map::<u64, Seq<u8>>::empty(),
    {
        let r = PendingLog { entries: BTreeMap::new() };
        assert(r@ =~= Map::<u64, Seq<u8>>::empty());
        r
    }

    /// Notes entries that are to be written.
    pub fn append(&mut self, entries: &Vec<(u64, Vec<u8>)>)
        ensures
            final(self)@ == old(self)@.union_prefer_right(entries_of(entries@)),
    {
        let ghost start = self@;
        let mut i: usize = 0;
        proof {
            assert(entries@.take(0) =~= Seq::empty());
            assert(self@ =~= start.union_prefer_right(entries_of(entries@.take(0))));
        }
        while i < entries.len()
            invariant
                i <= entries@.len(),
                self@ == start.union_prefer_right(entries_of(entries@.take(i as int))),
            decreases entries@.len() - i,
        {
            let ghost before = self@;
            let (index, bytes) = &entries[i];
            let copy = bytes.clone();
            assert(copy@ =~= bytes@);
            self.entries.insert(*index, copy);
            i += 1;
            proof {
                let taken = entries@.take(i as int);
                assert(taken.drop_last() =~= entries@.take(i - 1));
                assert(taken.last() == entries@[i - 1]);
                assert(self@ =~= before.insert(*index, bytes@));
                assert(self@ =~= start.union_prefer_right(entries_of(taken)));
            }
        }
        assert(entries@.take(i as int) =~= entries@);
    }

    /// Notes that entries were written.
    pub fn complete(&mut self, batch: &FlushBatch)
        ensures
            final(self)@ == old(self)@.remove_keys(indices_of(batch@)),
    {
        let ghost start = self@;
        let entries = &batch.entries;
        let mut i: usize = 0;
        proof {
            assert(entries@.take(0) =~= Seq::empty());
            assert(self@ =~= start.remove_keys(indices_of(entries@.take(0))));
        }
        while i < entries.len()
            invariant
                i <= entries@.len(),
                self@ == start.remove_keys(indices_of(entries@.take(i as int))),
            decreases entries@.len() - i,
        {
            let ghost before = self@;
            let index: u64 = entries[i].0;
            self.entries.remove(&index);
            i += 1;
            proof {
                let taken = entries@.take(i as int);
                assert(taken.drop_last() =~= entries@.take(i - 1));
                assert(taken.last() == entries@[i - 1]);
                assert(self@ =~= before.remove(index));
                assert(self@ =~= start.remove_keys(indices_of(taken)));
            }
        }
        assert(entries@.take(i as int) =~= entries@);
    }

    /// Forgets the entries on one side of an index.
    fn keep(&mut self, low: u64, keep_low: bool)
        ensures
            final(self)@ == old(self)@.restrict(
                Set::new(|k: u64| if keep_low { k < low } else { k > low }),
            ),
    {
        let ghost start = self@;
        let keys = sorted_keys(&self.entries);
        let ghost wanted = |k: u64| if keep_low { k < low } else { k > low };
        let mut i: usize = 0;
        proof {
            assert(self.entries@.dom() =~= start.dom());
        }
        while i < keys.len()
            invariant
                i <= keys@.len(),
                keys@.no_duplicates(),
                keys@.to_set() == start.dom(),
                wanted == (|k: u64| if keep_low { k < low } else { k > low }),
                forall|k: u64| #[trigger]
                    self@.contains_key(k) <==> start.contains_key(k) && (wanted(k)
                        || !keys@.take(i as int).contains(k)),
                forall|k: u64| #[trigger] self@.contains_key(k) ==> self@[k] == start[k],
            decreases keys@.len() - i,
        {
            let k: u64 = keys[i];
            let ghost before = self@;
            proof {
                lemma_take_push(keys@, i as int);
                assert(keys@.to_set().contains(k));
            }
            let kept: bool = if keep_low {
                k < low
            } else {
                k > low
            };
            if !kept {
                self.entries.remove(&k);
                assert(self@ =~= before.remove(k));
            }
            i += 1;
        }
        proof {
            assert(keys@.take(i as int) =~= keys@);
            assert forall|k: u64| start.contains_key(k) implies keys@.contains(k) by {
                assert(keys@.to_set().contains(k));
            }
            assert(self@ =~= start.restrict(Set::new(wanted)));
            assert(Set::new(wanted) =~= Set::new(
                |k: u64| if keep_low { k < low } else { k > low },
            ));
        }
    }

    /// The last index that is on its way.
    pub fn last(&self) -> (r: Option<u64>)
        ensures
            is_last(r, self@),
    {
        let keys = sorted_keys(&self.entries);
        proof {
            assert(self.entries@.dom() =~= self@.dom());
        }
        if keys.len() == 0 {
            assert forall|k: u64| !#[trigger] self@.contains_key(k) by {
                if self@.contains_key(k) {
                    assert(keys@.to_set().contains(k));
                }
            }
            return None;
        }
        let last: u64 = keys[keys.len() - 1];
        proof {
            assert(keys@.to_set().contains(last));
            assert forall|k: u64| #[trigger] self@.contains_key(k) implies k <= last by {
                assert(keys@.to_set().contains(k));
                let i = choose|i: int| 0 <= i < keys@.len() && keys@[i] == k;
                if i < keys@.len() - 1 {
                    assert(keys@[i] < keys@[keys@.len() - 1]);
                }
            }
        }
        Some(last)
    }

    /// The entry at an index, if it is on its way.
    fn get(&self, index: u64) -> (r: Option<Vec<u8>>)
        ensures
            match r {
                Some(b) => self@.contains_key(index) && self@[index] == b@,
                None => !self@.contains_key(index),
            },
    {
        match self.entries.get(&index) {
            Some(b) => {
                let copy = b.clone();
                assert(copy@ =~= b@);
                Some(copy)
            },
            None => None,
        }
    }

    /// The entries of a range, by ascending index: what is on its way counts before what
    /// is stored.
    pub fn try_get_log_entries<S: Storage>(
        &self,
        db: &S,
        start: RangeStart,
        end: RangeEnd,
    ) -> (r: Result<Vec<(u64, Vec<u8>)>>)
        requires
            start matches RangeStart::Excluded(x) ==> x < u64::MAX,
            end matches RangeEnd::Included(x) ==> x < u64::MAX,
        ensures
            match r {
                Ok(list) => lists(
                    list@,
                    whole_log(db.held(), self@).restrict(
                        Set::new(|k: u64| in_range(k, start, end)),
                    ),
                ) && !(end is Unbounded && whole_log(db.held(), self@).contains_key(u64::MAX)),
                Err(e) => S::fails_with(e) || (says_used_up(e) && end is Unbounded && whole_log(
                    db.held(),
                    self@,
                ).contains_key(u64::MAX)),
            },
    {
        let ghost whole = whole_log(db.held(), self@);
        let from: u64 = match start {
            RangeStart::Included(x) => x,
            RangeStart::Excluded(x) => x + 1,
            RangeStart::Unbounded => 0,
        };
        let until: u64 = match end {
            RangeEnd::Included(x) => x + 1,
            RangeEnd::Excluded(x) => x,
            RangeEnd::Unbounded => {
                let stored = match db.last_log_index() {
                    Ok(index) => index,
                    Err(e) => {
                        return Err(e);
                    },
                };
                match later_of(stored, self.last()) {
                    Some(i) => {
                        if i == u64::MAX {
                            return Err(last_index_error());
                        }
                        i + 1
                    },
                    None => 0,
                }
            },
        };
        assert forall|k: u64| whole.contains_key(k) implies (in_range(k, start, end) <==> from <= k
            < until) by {
            if end is Unbounded {
                if db.held().log.contains_key(k) {
                    assert(k < until);
                } else {
                    assert(self@.contains_key(k));
                    assert(k < until);
                }
            }
        }
        let stored = match db.read_log(from, until) {
            Ok(list) => list,
            Err(e) => {
                return Err(e);
            },
        };
        let list = self.merge(stored, from, until);
        proof {
            let want = whole.restrict(Set::new(|k: u64| in_range(k, start, end)));
            let have = log_range(db.held().log, from as int, until as int).union_prefer_right(
                log_range(self@, from as int, until as int),
            );
            assert(want =~= have);
        }
        Ok(list)
    }

    /// Merges stored entries of a range with those that are on their way.
    fn merge(&self, stored: Vec<(u64, Vec<u8>)>, from: u64, until: u64) -> (r: Vec<(u64, Vec<u8>)>)
        requires
            exists|log: Map<u64, Seq<u8>>| lists(stored@, log),
        ensures
            forall|log: Map<u64, Seq<u8>>| #[trigger]
                lists(stored@, log) ==> lists(
                    r@,
                    log.union_prefer_right(log_range(self@, from as int, until as int)),
                ),
    {
        let ghost log = choose|log: Map<u64, Seq<u8>>| lists(stored@, log);
        let ghost all = stored@;
        let mut merged: BTreeMap<u64, Vec<u8>> = BTreeMap::new();
        for e in it: stored
            invariant
                it.seq() == all,
                lists(all, log),
                forall|k: u64| #[trigger]
                    merged@.contains_key(k) <==> exists|i: int|
                        0 <= i < it.index() && (#[trigger] all[i]).0 == k,
                forall|k: u64| #[trigger] merged@.contains_key(k) ==> merged@[k]@ == log[k],
        {
            let ghost n = it.index();
            let ghost before = merged@;
            assert(all[n] == e);
            let (index, bytes) = e;
            merged.insert(index, bytes);
            proof {
                assert forall|k: u64| #[trigger] merged@.contains_key(k) <==> exists|i: int|
                    0 <= i < n + 1 && (#[trigger] all[i]).0 == k by {
                    if k == index {
                        assert(all[n].0 == k);
                    }
                    if before.contains_key(k) {
                        let i = choose|i: int| 0 <= i < n && (#[trigger] all[i]).0 == k;
                        assert(all[i].0 == k);
                    }
                }
            }
        }
        proof {
            assert forall|k: u64| #[trigger] merged@.contains_key(k) <==> log.contains_key(k) by {
                if log.contains_key(k) {
                    let i = choose|i: int| 0 <= i < all.len() && (#[trigger] all[i]).0 == k;
                    assert(all[i].0 == k);
                }
                if merged@.contains_key(k) {
                    let i = choose|i: int| 0 <= i < all.len() && (#[trigger] all[i]).0 == k;
                    assert(log.contains_key(all[i].0));
                }
            }
        }
        let ghost stored_map = merged@;
        let keys = sorted_keys(&self.entries);
        let mut i: usize = 0;
        proof {
            assert(self.entries@.dom() =~= self@.dom());
        }
        while i < keys.len()
            invariant
                i <= keys@.len(),
                keys@.no_duplicates(),
                keys@.to_set() == self@.dom(),
                forall|k: u64| #[trigger]
                    stored_map.contains_key(k) <==> log.contains_key(k),
                forall|k: u64| #[trigger] stored_map.contains_key(k) ==> stored_map[k]@ == log[k],
                forall|k: u64| #[trigger]
                    merged@.contains_key(k) <==> stored_map.contains_key(k) || (keys@.take(
                        i as int,
                    ).contains(k) && from <= k < until),
                forall|k: u64| #[trigger]
                    merged@.contains_key(k) ==> merged@[k]@ == if keys@.take(i as int).contains(k)
                        && from <= k < until {
                        self@[k]
                    } else {
                        log[k]
                    },
            decreases keys@.len() - i,
        {
            let k: u64 = keys[i];
            proof {
                lemma_take_push(keys@, i as int);
                assert(keys@.to_set().contains(k));
            }
            if from <= k && k < until {
                match self.get(k) {
                    Some(b) => {
                        merged.insert(k, b);
                    },
                    None => {},
                }
            }
            i += 1;
        }
        let ghost goal = log.union_prefer_right(log_range(self@, from as int, until as int));
        proof {
            assert(keys@.take(i as int) =~= keys@);
            assert forall|k: u64| keys@.contains(k) <==> self@.contains_key(k) by {
                assert(keys@.to_set().contains(k) <==> keys@.contains(k));
            }
            assert forall|k: u64| #[trigger] merged@.contains_key(k) <==> goal.contains_key(k) by {}
            assert forall|k: u64| #[trigger] merged@.contains_key(k) implies merged@[k]@
                == goal[k] by {}
        }
        let order = sorted_keys(&merged);
        let mut out: Vec<(u64, Vec<u8>)> = Vec::new();
        let mut j: usize = 0;
        while j < order.len()
            invariant
                j <= order@.len(),
                ascending(order@),
                order@.to_set() == merged@.dom(),
                forall|k: u64| #[trigger] merged@.contains_key(k) ==> merged@[k]@ == goal[k],
                out@.len() == j,
                forall|n: int|
                    0 <= n < j ==> (#[trigger] out@[n]).0 == order@[n] && out@[n].1@
                        == goal[order@[n]],
            decreases order@.len() - j,
        {
            let k: u64 = order[j];
            assert(order@.to_set().contains(k));
            match merged.get(&k) {
                Some(b) => {
                    let copy = b.clone();
                    assert(copy@ =~= b@);
                    out.push((k, copy));
                },
                None => {},
            }
            j += 1;
        }
        proof {
            assert forall|k: u64| #[trigger] goal.contains_key(k) implies exists|n: int|
                0 <= n < out@.len() && (#[trigger] out@[n]).0 == k by {
                assert(merged@.contains_key(k));
                assert(order@.to_set().contains(k));
                let n = choose|n: int| 0 <= n < order@.len() && order@[n] == k;
                assert(out@[n].0 == k);
            }
            assert forall|n: int| 0 <= n < out@.len() implies goal.contains_key(
                (#[trigger] out@[n]).0,
            ) && goal[out@[n].0] == out@[n].1@ by {
                assert(order@.to_set().contains(order@[n]));
                assert(merged@.contains_key(order@[n]));
            }
            assert(lists(out@, goal));
            assert forall|other: Map<u64, Seq<u8>>| #[trigger] lists(all, other) implies lists(
                out@,
                other.union_prefer_right(log_range(self@, from as int, until as int)),
            ) by {
                lemma_lists_one(all, log, other);
            }
        }
        out
    }

    /// Drops the entries from a position on, on their way and stored.
    pub fn truncate<S: Storage>(&mut self, db: &mut S, from: &LogPos) -> (r: Result<()>)
        ensures
            final(self)@ == old(self)@.restrict(Set::new(|k: u64| k < from.index)),
            match r {
                Ok(_) => final(db).held() == old(db).held().truncate(from.index),
                Err(e) => S::fails_with(e),
            },
    {
        self.keep(from.index, true);
        proof {
            assert(Set::new(|k: u64| if true { k < from.index } else { k > from.index })
                =~= Set::new(|k: u64| k < from.index));
        }
        db.truncate_log_from(from.index)
    }

    /// Drops the entries up to a position, on their way and stored.
    pub fn purge<S: Storage>(&mut self, db: &mut S, upto: &LogPos) -> (r: Result<()>)
        ensures
            final(self)@ == old(self)@.restrict(Set::new(|k: u64| k > upto.index)),
            match r {
                Ok(_) => {
                    &&& purged_readable(old(db).held())
                    &&& final(db).held() == marked(old(db).held(), *upto)
                },
                Err(e) => {
                    ||| S::fails_with(e)
                    ||| purged_error(old(db).held(), e) && final(db).held() == old(db).held()
                },
            },
    {
        self.keep(upto.index, false);
        proof {
            assert(Set::new(|k: u64| if false { k < upto.index } else { k > upto.index })
                =~= Set::new(|k: u64| k > upto.index));
        }
        mark_purged(db, upto)
    }

    /// Where the log stands: up to where it was purged, and the last entry, if there is
    /// one.
    pub fn get_log_state<S: Storage>(&self, db: &S) -> (r: Result<
        (Option<LogPos>, Option<Vec<u8>>),
    >)
        ensures
            match r {
                Ok((purged, last)) => {
                    &&& purged_readable(db.held())
                    &&& purged == purged_upto(db.held())
                    &&& match last {
                        Some(bytes) => exists|k: u64| #[trigger]
                            is_last(Some(k), whole_log(db.held(), self@)) && bytes@ == whole_log(
                                db.held(),
                                self@,
                            )[k],
                        None => is_last(None, whole_log(db.held(), self@)),
                    }
                    &&& !last_out_of_range(db.held(), self@)
                },
                Err(e) => {
                    ||| S::fails_with(e)
                    ||| purged_error(db.held(), e)
                    ||| says_used_up(e) && purged_readable(db.held()) && last_out_of_range(
                        db.held(),
                        self@,
                    )
                },
            },
    {
        let ghost whole = whole_log(db.held(), self@);
        let purged = match last_purged(db) {
            Ok(p) => p,
            Err(e) => {
                return Err(e);
            },
        };
        let stored = match db.last_log_index() {
            Ok(index) => index,
            Err(e) => {
                return Err(e);
            },
        };
        let mine = self.last();
        let index: u64 = match later_of(stored, mine) {
            Some(i) => i,
            None => {
                assert forall|k: u64| !#[trigger] whole.contains_key(k) by {
                    assert(!db.held().log.contains_key(k) && !self@.contains_key(k));
                }
                return Ok((purged, None));
            },
        };
        proof {
            assert forall|k: u64| #[trigger] whole.contains_key(k) implies k <= index by {
                if db.held().log.contains_key(k) {
                    assert(k <= index);
                } else {
                    assert(self@.contains_key(k));
                }
            }
            assert(whole.contains_key(index));
            assert(is_last(Some(index), whole));
        }
        match self.get(index) {
            Some(b) => Ok((purged, Some(b))),
            None => {
                if index == u64::MAX {
                    return Err(last_index_error());
                }
                let found = match db.read_log(index, index + 1) {
                    Ok(list) => list,
                    Err(e) => {
                        return Err(e);
                    },
                };
                let ghost range = log_range(db.held().log, index as int, index + 1);
                assert(range.contains_key(index));
                let mut found = found;
                let (k, bytes) = found.remove(0);
                assert(range.contains_key(k));
                Ok((purged, Some(bytes)))
            },
        }
    }
}

/// The position of the last entry of the log: that of the entry, or where there is none
/// the one up to which the log was purged.
pub fn log_end(last_entry: Option<LogPos>, purged: Option<LogPos>) -> (r: Option<LogPos>)
    ensures
        r == match last_entry {
            Some(p) => Some(p),
            None => purged,
        },
{
    match last_entry {
        Some(p) => Some(p),
        None => purged,
    }
}

/// A list is the list of one log only.
pub proof fn lemma_lists_one(list: Seq<(u64, Vec<u8>)>, a: Map<u64, Seq<u8>>, b: Map<u64, Seq<u8>>)
    requires
        lists(list, a),
        lists(list, b),
    ensures
        a == b,
{
    assert forall|k: u64| a.contains_key(k) <==> b.contains_key(k) by {
        if a.contains_key(k) {
            let i = choose|i: int| 0 <= i < list.len() && (#[trigger] list[i]).0 == k;
            assert(b.contains_key(list[i].0));
        }
        if b.contains_key(k) {
            let i = choose|i: int| 0 <= i < list.len() && (#[trigger] list[i]).0 == k;
            assert(a.contains_key(list[i].0));
        }
    }
    assert forall|k: u64| a.contains_key(k) implies a[k] == b[k] by {
        let i = choose|i: int| 0 <= i < list.len() && (#[trigger] list[i]).0 == k;
        assert(a[list[i].0] == b[list[i].0]);
    }
    assert(a =~= b);
}

/// What was appended is read back at once, before it is stored; entries of other
/// indices are as they were.
pub proof fn appended_is_read_back(
    s: StoreView,
    pending: Map<u64, Seq<u8>>,
    entries: Seq<(u64, Vec<u8>)>,
)
    ensures
        whole_log(s, pending.union_prefer_right(entries_of(entries))) == whole_log(
            s,
            pending,
        ).union_prefer_right(entries_of(entries)),
{
    assert(whole_log(s, pending.union_prefer_right(entries_of(entries))) =~= whole_log(
        s,
        pending,
    ).union_prefer_right(entries_of(entries)));
}

/// Writing entries to the store and noting that they are written does not change what
/// is read, where the entries are the ones that were on their way.
pub proof fn flushing_changes_nothing_that_is_read(
    s: StoreView,
    pending: Map<u64, Seq<u8>>,
    batch: Seq<(u64, Vec<u8>)>,
)
    requires
        forall|k: u64| #[trigger]
            entries_of(batch).contains_key(k) ==> pending.contains_key(k) && pending[k]
                == entries_of(batch)[k],
    ensures
        whole_log(s.append(batch), pending.remove_keys(indices_of(batch))) == whole_log(s, pending),
{
    assert(whole_log(s.append(batch), pending.remove_keys(indices_of(batch))) =~= whole_log(
        s,
        pending,
    ));
}

/// Truncating drops the entries from the index on from what is read, and no other.
pub proof fn truncated_is_gone(s: StoreView, pending: Map<u64, Seq<u8>>, index: u64)
    ensures
        whole_log(
            s.truncate(index),
            pending.restrict(Set::new(|k: u64| k < index)),
        ) == whole_log(s, pending).restrict(Set::new(|k: u64| k < index)),
{
    assert(whole_log(s.truncate(index), pending.restrict(Set::new(|k: u64| k < index)))
        =~= whole_log(s, pending).restrict(Set::new(|k: u64| k < index)));
}

/// Purging leaves every entry after the position as it was.
pub proof fn purging_keeps_later_entries(
    s: StoreView,
    pending: Map<u64, Seq<u8>>,
    upto: LogPos,
    index: u64,
)
    requires
        index > upto.index,
    ensures
        ({
            let after = whole_log(
                marked(s, upto),
                pending.restrict(Set::new(|k: u64| k > upto.index)),
            );
            let before = whole_log(s, pending);
            &&& after.contains_key(index) == before.contains_key(index)
            &&& after.contains_key(index) ==> after[index] == before[index]
        }),
{
}

} // verus!
