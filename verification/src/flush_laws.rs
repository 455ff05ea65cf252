//! What the log promises of the jobs of the flusher and of the entries on their way to the
//! store.
use crate::error::{error_text, Result};
use crate::log_store::{
    entry_bytes, flushing_changes_nothing_that_is_read, in_range, indices_of, job_entries,
    job_kind, settles, whole_log, FlushAnswer, FlushJob, JobKind, RangeEnd, RangeStart,
};
use crate::recovery_laws::the_last_entry_of_an_index_counts;
use crate::storage::{entries_of, StoreView};
use vstd::prelude::*;

verus! {

/// The parts, one after the other.
pub open spec fn joined<T>(parts: Seq<Seq<T>>) -> Seq<T>
    decreases parts.len(),
{
    if parts.len() == 0 {
        Seq::empty()
    } else {
        joined(parts.drop_last()) + parts.last()
    }
}

/// The entries of the jobs: what a batch holds that has taken them.
pub open spec fn entries_in(jobs: Seq<FlushJob>) -> Seq<(u64, Vec<u8>)>
    decreases jobs.len(),
{
    if jobs.len() == 0 {
        Seq::empty()
    } else {
        entries_in(jobs.drop_last()) + job_entries(jobs.last())
    }
}

/// The kinds of the jobs.
pub open spec fn kinds_of(jobs: Seq<FlushJob>) -> Seq<JobKind> {
    Seq::new(jobs.len(), |i: int| job_kind(jobs[i]))
}

/// A batch that takes one job after the other holds the entries and the kinds of all of
/// them.
pub proof fn a_batch_holds_the_jobs_it_took(jobs: Seq<FlushJob>, job: FlushJob)
    ensures
        entries_in(Seq::empty()) == Seq::<(u64, Vec<u8>)>::empty(),
        kinds_of(Seq::empty()) == Seq::<JobKind>::empty(),
        entries_in(jobs.push(job)) == entries_in(jobs) + job_entries(job),
        kinds_of(jobs.push(job)) == kinds_of(jobs).push(job_kind(job)),
{
    assert(jobs.push(job).drop_last() =~= jobs);
    assert(kinds_of(Seq::empty()) =~= Seq::empty());
    assert(kinds_of(jobs.push(job)) =~= kinds_of(jobs).push(job_kind(job)));
}

/// The store after the batches were written, each of them with the entries of its jobs.
pub open spec fn flushed(s: StoreView, batches: Seq<Seq<FlushJob>>) -> StoreView
    decreases batches.len(),
{
    if batches.len() == 0 {
        s
    } else {
        flushed(s, batches.drop_last()).append(entries_in(batches.last()))
    }
}

/// What the store was handed to append, over all batches.
pub open spec fn written(batches: Seq<Seq<FlushJob>>) -> Seq<(u64, Vec<u8>)>
    decreases batches.len(),
{
    if batches.len() == 0 {
        Seq::empty()
    } else {
        written(batches.drop_last()) + entries_in(batches.last())
    }
}

/// What is on its way after the batches were settled, each with the outcome of its write.
pub open spec fn left_to_write(
    pending: Map<u64, Seq<u8>>,
    batches: Seq<Seq<FlushJob>>,
    outcomes: Seq<Result<()>>,
) -> Map<u64, Seq<u8>>
    decreases batches.len(),
{
    if batches.len() == 0 {
        pending
    } else {
        let before = left_to_write(pending, batches.drop_last(), outcomes);
        match outcomes[batches.len() - 1] {
            Ok(_) => before.remove_keys(indices_of(entries_in(batches.last()))),
            Err(_) => before,
        }
    }
}

/// The answers are those of the jobs of the batch: one for each job, in their order.
pub open spec fn settled_with(
    answers: Seq<FlushAnswer>,
    jobs: Seq<FlushJob>,
    outcome: Result<()>,
) -> bool {
    &&& answers.len() == jobs.len()
    &&& forall|i: int|
        0 <= i < answers.len() ==> settles(#[trigger] answers[i], kinds_of(jobs)[i], outcome)
}

proof fn lemma_entries_in_add(a: Seq<FlushJob>, b: Seq<FlushJob>)
    ensures
        entries_in(a + b) == entries_in(a) + entries_in(b),
    decreases b.len(),
{
    if b.len() == 0 {
        assert(a + b =~= a);
        assert(entries_in(a) + entries_in(b) =~= entries_in(a));
    } else {
        lemma_entries_in_add(a, b.drop_last());
        assert((a + b).drop_last() =~= a + b.drop_last());
        assert((a + b).last() == b.last());
        assert(entries_in(a) + entries_in(b.drop_last()) + job_entries(b.last()) =~= entries_in(a)
            + (entries_in(b.drop_last()) + job_entries(b.last())));
    }
}

proof fn lemma_entries_add(a: Seq<(u64, Vec<u8>)>, b: Seq<(u64, Vec<u8>)>)
    ensures
        entries_of(a + b) == entries_of(a).union_prefer_right(entries_of(b)),
    decreases b.len(),
{
    if b.len() == 0 {
        assert(a + b =~= a);
        assert(entries_of(a + b) =~= entries_of(a).union_prefer_right(entries_of(b)));
    } else {
        lemma_entries_add(a, b.drop_last());
        assert((a + b).drop_last() =~= a + b.drop_last());
        assert((a + b).last() == b.last());
        assert(entries_of(a + b) =~= entries_of(a).union_prefer_right(entries_of(b)));
    }
}

/// However a sequence of jobs is cut into batches, every entry of every job is written to
/// the store once, in the order of the jobs, where the writes succeed: the store holds in
/// the end what it would hold if all entries had been written at once.
pub proof fn every_entry_is_written_once_and_in_order(
    s: StoreView,
    jobs: Seq<FlushJob>,
    batches: Seq<Seq<FlushJob>>,
)
    requires
        joined(batches) == jobs,
    ensures
        written(batches) == entries_in(jobs),
        flushed(s, batches) == s.append(entries_in(jobs)),
    decreases batches.len(),
{
    if batches.len() == 0 {
        assert(s.append(entries_in(jobs)).log =~= s.log);
    } else {
        let front = batches.drop_last();
        let (a, b) = (entries_in(joined(front)), entries_in(batches.last()));
        every_entry_is_written_once_and_in_order(s, joined(front), front);
        lemma_entries_in_add(joined(front), batches.last());
        assert(entries_in(jobs) == a + b);
        lemma_entries_add(a, b);
        assert(s.append(a).append(b).log =~= s.append(a + b).log);
    }
}

/// Some batch that was written holds an entry at the index.
pub open spec fn index_written(
    batches: Seq<Seq<FlushJob>>,
    outcomes: Seq<Result<()>>,
    index: u64,
) -> bool {
    exists|b: int|
        0 <= b < batches.len() && outcomes[b] is Ok && indices_of(
            entries_in(#[trigger] batches[b]),
        ).contains(index)
}

/// Of what is on its way exactly the entries go whose index was written; those of a batch
/// whose write failed stay as they were.
pub proof fn only_what_was_written_leaves(
    pending: Map<u64, Seq<u8>>,
    batches: Seq<Seq<FlushJob>>,
    outcomes: Seq<Result<()>>,
    index: u64,
)
    requires
        batches.len() <= outcomes.len(),
    ensures
        ({
            let left = left_to_write(pending, batches, outcomes);
            &&& left.contains_key(index) <==> pending.contains_key(index) && !index_written(
                batches,
                outcomes,
                index,
            )
            &&& left.contains_key(index) ==> left[index] == pending[index]
        }),
    decreases batches.len(),
{
    if batches.len() > 0 {
        let front = batches.drop_last();
        let n = batches.len() - 1;
        only_what_was_written_leaves(pending, front, outcomes, index);
        if index_written(front, outcomes, index) {
            let b = choose|b: int|
                0 <= b < front.len() && outcomes[b] is Ok && indices_of(
                    entries_in(#[trigger] front[b]),
                ).contains(index);
            assert(batches[b] == front[b]);
            assert(index_written(batches, outcomes, index));
        }
        if index_written(batches, outcomes, index) && !index_written(front, outcomes, index) {
            let b = choose|b: int|
                0 <= b < batches.len() && outcomes[b] is Ok && indices_of(
                    entries_in(#[trigger] batches[b]),
                ).contains(index);
            if b < n {
                assert(front[b] == batches[b]);
            }
        }
        if outcomes[n] is Ok && indices_of(entries_in(batches.last())).contains(index) {
            assert(batches[n] == batches.last());
            assert(index_written(batches, outcomes, index));
        }
    }
}

/// The number of the job that stands at place `i` of batch `b`.
pub open spec fn job_number(batches: Seq<Seq<FlushJob>>, b: int, i: int) -> int {
    joined(batches.take(b)).len() + i
}

/// Every job is answered exactly once, and the answers come in the order of the jobs. An
/// append is told what came of the write that held its entries, in the words of the error
/// where it failed. A barrier is told after every job that was handed in before it.
pub proof fn every_job_is_answered_once_and_in_order(
    jobs: Seq<FlushJob>,
    batches: Seq<Seq<FlushJob>>,
    outcomes: Seq<Result<()>>,
    answers: Seq<Seq<FlushAnswer>>,
)
    requires
        joined(batches) == jobs,
        outcomes.len() == batches.len(),
        answers.len() == batches.len(),
        forall|b: int|
            0 <= b < batches.len() ==> settled_with(
                #[trigger] answers[b],
                batches[b],
                outcomes[b],
            ),
    ensures
        joined(answers).len() == jobs.len(),
        forall|b: int, i: int|
            0 <= b < batches.len() && 0 <= i < batches[b].len() ==> {
                let k = #[trigger] job_number(batches, b, i);
                &&& 0 <= k < jobs.len()
                &&& jobs[k] == batches[b][i]
                &&& settles(joined(answers)[k], job_kind(jobs[k]), outcomes[b])
            },
    decreases batches.len(),
{
    if batches.len() > 0 {
        let n = batches.len() - 1;
        let (front, told) = (batches.drop_last(), answers.drop_last());
        let rest = outcomes.drop_last();
        assert forall|b: int| 0 <= b < front.len() implies settled_with(
            #[trigger] told[b],
            front[b],
            rest[b],
        ) by {
            assert(answers[b] == told[b]);
        }
        every_job_is_answered_once_and_in_order(joined(front), front, rest, told);
        assert(settled_with(answers[n], batches[n], outcomes[n]));
        assert forall|b: int, i: int|
            0 <= b < batches.len() && 0 <= i < batches[b].len() implies ({
            let k = #[trigger] job_number(batches, b, i);
            &&& 0 <= k < jobs.len()
            &&& jobs[k] == batches[b][i]
            &&& settles(joined(answers)[k], job_kind(jobs[k]), outcomes[b])
        }) by {
            if b < n {
                assert(front.take(b) =~= batches.take(b));
                assert(job_number(front, b, i) == job_number(batches, b, i));
                assert(front[b] == batches[b]);
            } else {
                assert(batches.take(n) =~= front);
                assert(kinds_of(batches[n])[i] == job_kind(batches[n][i]));
                assert(joined(answers)[joined(told).len() + i] == answers[n][i]);
            }
        }
    }
}

/// Where the entries of the jobs are what is on its way, writing them out, in whatever
/// batches, changes nothing that is read.
pub proof fn flushing_in_batches_changes_nothing_that_is_read(
    s: StoreView,
    pending: Map<u64, Seq<u8>>,
    jobs: Seq<FlushJob>,
    batches: Seq<Seq<FlushJob>>,
    outcomes: Seq<Result<()>>,
)
    requires
        joined(batches) == jobs,
        outcomes.len() == batches.len(),
        forall|b: int| 0 <= b < outcomes.len() ==> #[trigger] outcomes[b] is Ok,
        forall|k: u64| #[trigger]
            entries_of(entries_in(jobs)).contains_key(k) ==> pending.contains_key(k) && pending[k]
                == entries_of(entries_in(jobs))[k],
    ensures
        whole_log(flushed(s, batches), left_to_write(pending, batches, outcomes)) == whole_log(
            s,
            pending,
        ),
{
    every_entry_is_written_once_and_in_order(s, jobs, batches);
    flushing_changes_nothing_that_is_read(s, pending, entries_in(jobs));
    lemma_all_leave(pending, batches, outcomes);
    assert(left_to_write(pending, batches, outcomes) == pending.remove_keys(
        indices_of(entries_in(jobs)),
    ));
}

proof fn lemma_all_leave(
    pending: Map<u64, Seq<u8>>,
    batches: Seq<Seq<FlushJob>>,
    outcomes: Seq<Result<()>>,
)
    requires
        batches.len() <= outcomes.len(),
        forall|b: int| 0 <= b < outcomes.len() ==> #[trigger] outcomes[b] is Ok,
    ensures
        left_to_write(pending, batches, outcomes) == pending.remove_keys(
            indices_of(entries_in(joined(batches))),
        ),
    decreases batches.len(),
{
    if batches.len() == 0 {
        assert(pending.remove_keys(indices_of(entries_in(joined(batches)))) =~= pending);
    } else {
        let front = batches.drop_last();
        let (a, b) = (entries_in(joined(front)), entries_in(batches.last()));
        lemma_all_leave(pending, front, outcomes);
        lemma_entries_in_add(joined(front), batches.last());
        lemma_entries_add(a, b);
        assert(outcomes[batches.len() - 1] is Ok);
        assert(pending.remove_keys(indices_of(a)).remove_keys(indices_of(b))
            =~= pending.remove_keys(indices_of(a + b)));
    }
}

/// An append is told the truth of its write: that it was written if and only if it was, and
/// else why it was not. A barrier is told only that it was passed.
pub proof fn an_append_is_told_the_truth(answer: FlushAnswer, kind: JobKind, outcome: Result<()>)
    requires
        settles(answer, kind, outcome),
    ensures
        kind == JobKind::Append ==> (answer matches FlushAnswer::Written(r) && (r is Ok
            <==> outcome is Ok) && (r matches Err(words) ==> outcome matches Err(e) && words@
            == error_text(e))),
        kind == JobKind::Barrier ==> answer is Passed,
{
}

/// The bytes of a batch are those of all its entries.
pub proof fn the_bytes_of_entries_add_up(a: Seq<(u64, Vec<u8>)>, b: Seq<(u64, Vec<u8>)>)
    ensures
        entry_bytes(a + b) == entry_bytes(a) + entry_bytes(b),
        a.len() == 1 ==> entry_bytes(a) == a[0].1@.len(),
    decreases b.len(),
{
    if a.len() == 1 {
        assert(entry_bytes(a.drop_last()) == 0);
    }
    if b.len() == 0 {
        assert(a + b =~= a);
    } else {
        the_bytes_of_entries_add_up(a, b.drop_last());
        assert((a + b).drop_last() =~= a + b.drop_last());
    }
}

/// A range holds the indices between its ends, and an end itself where it is included.
pub proof fn a_range_lies_between_its_ends(k: u64, x: u64, y: u64)
    ensures
        in_range(k, RangeStart::Included(x), RangeEnd::Included(y)) <==> x <= k <= y,
        in_range(k, RangeStart::Included(x), RangeEnd::Excluded(y)) <==> x <= k < y,
        in_range(k, RangeStart::Excluded(x), RangeEnd::Included(y)) <==> x < k <= y,
        in_range(k, RangeStart::Excluded(x), RangeEnd::Excluded(y)) <==> x < k < y,
        in_range(k, RangeStart::Unbounded, RangeEnd::Excluded(y)) <==> k < y,
        in_range(k, RangeStart::Included(x), RangeEnd::Unbounded) <==> x <= k,
        in_range(k, RangeStart::Unbounded, RangeEnd::Unbounded),
{
}

/// What is on its way to the store is read before what is stored, and what is only in one of
/// the two is read from there.
pub proof fn what_is_on_its_way_is_read_first(
    s: StoreView,
    pending: Map<u64, Seq<u8>>,
    index: u64,
)
    ensures
        whole_log(s, pending).contains_key(index) <==> s.log.contains_key(index)
            || pending.contains_key(index),
        pending.contains_key(index) ==> whole_log(s, pending)[index] == pending[index],
        s.log.contains_key(index) && !pending.contains_key(index) ==> whole_log(s, pending)[index]
            == s.log[index],
{
}

proof fn lemma_entry_in(jobs: Seq<FlushJob>, j: int, i: int) -> (k: int)
    requires
        0 <= j < jobs.len(),
        jobs[j] matches FlushJob::Append(entries) && 0 <= i < entries@.len(),
    ensures
        0 <= k < entries_in(jobs).len(),
        entries_in(jobs)[k] == (jobs[j]->Append_0)@[i],
    decreases jobs.len(),
{
    let front = jobs.drop_last();
    if j < front.len() {
        assert(front[j] == jobs[j]);
        lemma_entry_in(front, j, i)
    } else {
        entries_in(front).len() as int + i
    }
}

/// Every entry of every append is in what is written, and a barrier writes nothing. So once
/// all batches are written, the store holds an entry at every index that an append named,
/// and where no other entry names the index, it is that very entry.
pub proof fn every_appended_entry_is_stored(
    s: StoreView,
    jobs: Seq<FlushJob>,
    batches: Seq<Seq<FlushJob>>,
    j: int,
    i: int,
)
    requires
        joined(batches) == jobs,
        0 <= j < jobs.len(),
        jobs[j] matches FlushJob::Append(entries) && 0 <= i < entries@.len(),
    ensures
        ({
            let (index, bytes) = (jobs[j]->Append_0)@[i];
            let r = flushed(s, batches);
            &&& r.log.contains_key(index)
            &&& (forall|k: int, l: int|
                0 <= k < entries_in(jobs).len() && 0 <= l < entries_in(jobs).len() && k != l ==> (
                #[trigger] entries_in(jobs)[k]).0 != (#[trigger] entries_in(jobs)[l]).0)
                ==> r.log[index] == bytes@
        }),
        forall|k: int|
            0 <= k < jobs.len() && (#[trigger] jobs[k]) is Barrier ==> job_entries(jobs[k]).len()
                == 0,
{
    let all = entries_in(jobs);
    let (index, bytes) = (jobs[j]->Append_0)@[i];
    let k = lemma_entry_in(jobs, j, i);
    every_entry_is_written_once_and_in_order(s, jobs, batches);
    the_last_entry_of_an_index_counts(all, index, k);
    assert(all[k].0 == index);
}

} // verus!
