//! What is promised of batches to the clients whose requests are in them.
use crate::batching::{
    batch_reply, batched, item_of, jobs_for, key_of, topics_of, AckBatch, AckJob, BatchOutcome,
};
use crate::command::{item_views, AppRequest, AppResponseView, ProduceItemView};
use crate::history_laws::{
    every_history_keeps_wf, in_window, keeps_topic, lemma_window_produce, lemma_window_run,
    new_among, new_by, new_item, new_messages, room_for, run,
};
use crate::model::{QueueView, TopicView};
use crate::names::name_before_irreflexive;
use crate::produce_laws::{new_message_gets_the_next_offset, produced_is_remembered};
use crate::protocol::{Produce, ResponseView};
use crate::queue_lemmas::{lemma_queue_produce_all, lemma_topic_of, step_keeps_wf};
use vstd::prelude::*;

verus! {

/// The item that a request becomes carries what the client sent: its topic, its payload,
/// its producer and its sequence number as they are, at the time of the batch. A priority
/// above the highest one counts as the highest, and a content type that is not known as raw.
pub proof fn what_is_sealed_is_what_was_sent(p: Produce, ts_ms: u64)
    ensures
        item_of(p, ts_ms).topic == p.topic@,
        item_of(p, ts_ms).payload == p.payload@,
        item_of(p, ts_ms).producer_id == p.producer_id@,
        item_of(p, ts_ms).seq == p.seq,
        item_of(p, ts_ms).ts_ms == ts_ms,
        p.priority <= 7 ==> item_of(p, ts_ms).priority.0 == p.priority,
        p.priority > 7 ==> item_of(p, ts_ms).priority.0 == 7,
        item_of(p, ts_ms).content_type is Text <==> p.content_type == 1,
        item_of(p, ts_ms).content_type is Json <==> p.content_type == 2,
        item_of(p, ts_ms).content_type is MsgPack <==> p.content_type == 3,
        item_of(p, ts_ms).content_type is Raw <==> p.content_type == 0 || p.content_type > 3,
{
}

/// The topics that a batch goes to are those of its requests, each of them once.
pub proof fn every_topic_of_a_batch_is_named_once(jobs: Seq<Produce>)
    ensures
        topics_of(jobs).no_duplicates(),
        forall|i: int|
            0 <= i < jobs.len() ==> topics_of(jobs).contains((#[trigger] jobs[i]).topic@),
        forall|k: int|
            0 <= k < topics_of(jobs).len() ==> exists|i: int|
                0 <= i < jobs.len() && (#[trigger] jobs[i]).topic@ == #[trigger] topics_of(jobs)[k],
    decreases jobs.len(),
{
    if jobs.len() > 0 {
        let front = jobs.drop_last();
        let last = jobs.last().topic@;
        every_topic_of_a_batch_is_named_once(front);
        let (before, all) = (topics_of(front), topics_of(jobs));
        assert forall|i: int| 0 <= i < jobs.len() implies all.contains(
            (#[trigger] jobs[i]).topic@,
        ) by {
            if i < front.len() {
                assert(front[i] == jobs[i]);
                assert(before.contains(front[i].topic@));
                let k = choose|k: int| 0 <= k < before.len() && before[k] == jobs[i].topic@;
                assert(all[k] == jobs[i].topic@);
            } else if !before.contains(last) {
                assert(all[before.len() as int] == last);
            }
        }
        assert forall|k: int| 0 <= k < all.len() implies exists|i: int|
            0 <= i < jobs.len() && (#[trigger] jobs[i]).topic@ == #[trigger] all[k] by {
            if k < before.len() {
                assert(all[k] == before[k]);
                let i = choose|i: int|
                    0 <= i < front.len() && (#[trigger] front[i]).topic@ == before[k];
                assert(jobs[i].topic@ == all[k]);
            } else {
                assert(jobs[jobs.len() - 1].topic@ == all[k]);
            }
        }
    }
}

/// Every client of a batch is answered with the offset of its own message; where the write
/// failed, all of them are answered alike.
pub proof fn every_client_gets_its_own_offset(outcome: BatchOutcome, i: int, j: int)
    requires
        0 <= i,
        0 <= j,
    ensures
        outcome matches BatchOutcome::Offsets(offsets) ==> i < offsets@.len() ==> batch_reply(
            outcome,
            i,
        ) == Some(ResponseView::Produced { offset: offsets@[i] }),
        outcome matches BatchOutcome::Offsets(offsets) ==> i >= offsets@.len() ==> batch_reply(
            outcome,
            i,
        ) is None,
        !(outcome is Offsets) ==> {
            &&& batch_reply(outcome, i) == batch_reply(outcome, j)
            &&& batch_reply(outcome, i) matches Some(answer) && answer is Error
        },
{
}

/// The item is to be remembered in the topic under that key.
pub open spec fn keyed(item: ProduceItemView, topic: Seq<char>, key: (Seq<char>, u64)) -> bool {
    item.topic == topic && item.producer_id.len() > 0 && (item.producer_id, item.seq) == key
}

/// One more item: a remembered key stays remembered with its offset, and an item under it
/// is answered with that offset.
proof fn lemma_remembered_by_one(
    q: QueueView,
    item: ProduceItemView,
    topic: Seq<char>,
    key: (Seq<char>, u64),
    newer: int,
)
    requires
        q.wf(),
        q.room_to_produce(item),
        in_window(q.topic(topic), key, newer),
        newer + 1 < 100_000,
    ensures
        in_window(q.produce(item).0.topic(topic), key, newer + new_item(q, item, topic, true)),
        q.produce(item).0.topic(topic).dedup[key] == q.topic(topic).dedup[key],
        keyed(item, topic, key) ==> q.produce(item).1 == q.topic(topic).dedup[key],
{
    lemma_window_produce(q, item, topic, key, newer);
}

/// A remembered key stays remembered with its offset while items are produced, and every
/// item under it is answered with that offset.
proof fn lemma_remembered_by_all(
    q: QueueView,
    items: Seq<ProduceItemView>,
    topic: Seq<char>,
    key: (Seq<char>, u64),
    newer: int,
)
    requires
        q.wf(),
        q.room_to_produce_all(items),
        in_window(q.topic(topic), key, newer),
        newer + items.len() < 100_000,
    ensures
        q.produce_all(items).1.len() == items.len(),
        in_window(
            q.produce_all(items).0.topic(topic),
            key,
            newer + new_among(q, items, topic, true),
        ),
        new_among(q, items, topic, true) <= items.len(),
        q.produce_all(items).0.topic(topic).dedup[key] == q.topic(topic).dedup[key],
        forall|j: int|
            0 <= j < items.len() && keyed(#[trigger] items[j], topic, key) ==> q.produce_all(
                items,
            ).1[j] == q.topic(topic).dedup[key],
    decreases items.len(),
{
    if items.len() > 0 {
        let front = items.drop_last();
        lemma_remembered_by_all(q, front, topic, key, newer);
        lemma_queue_produce_all(q, front);
        let mid = q.produce_all(front).0;
        let k = newer + new_among(q, front, topic, true);
        lemma_remembered_by_one(mid, items.last(), topic, key, k);
        assert forall|j: int| 0 <= j < items.len() && keyed(
            #[trigger] items[j],
            topic,
            key,
        ) implies q.produce_all(items).1[j] == q.topic(topic).dedup[key] by {
            if j < front.len() {
                assert(front[j] == items[j]);
            }
        }
    }
}

/// A key that is not remembered and under which no item is produced is not remembered
/// afterwards either; once an item is produced under it, it is remembered with the offset of
/// that item, and so is every other item under it answered.
proof fn lemma_remembered_from_here(
    q: QueueView,
    items: Seq<ProduceItemView>,
    topic: Seq<char>,
    key: (Seq<char>, u64),
)
    requires
        q.wf(),
        q.room_to_produce_all(items),
        !q.topic(topic).dedup.contains_key(key),
        items.len() < 100_000,
    ensures
        q.produce_all(items).1.len() == items.len(),
        (forall|j: int| 0 <= j < items.len() ==> !keyed(#[trigger] items[j], topic, key))
            ==> !q.produce_all(items).0.topic(topic).dedup.contains_key(key),
        forall|j: int|
            0 <= j < items.len() && keyed(#[trigger] items[j], topic, key) ==> {
                let r = q.produce_all(items).0.topic(topic);
                &&& r.dedup.contains_key(key)
                &&& q.produce_all(items).1[j] == r.dedup[key]
                &&& exists|newer: int| newer < items.len() && #[trigger] in_window(r, key, newer)
            },
    decreases items.len(),
{
    if items.len() > 0 {
        let front = items.drop_last();
        let item = items.last();
        lemma_remembered_from_here(q, front, topic, key);
        lemma_queue_produce_all(q, front);
        let mid = q.produce_all(front).0;
        let t = mid.topic(topic);
        let r = q.produce_all(items).0.topic(topic);
        let offsets = q.produce_all(items).1;
        lemma_topic_of(mid, topic);
        if exists|j: int| 0 <= j < front.len() && keyed(#[trigger] front[j], topic, key) {
            let newer = choose|newer: int|
                newer < front.len() && #[trigger] in_window(t, key, newer);
            lemma_remembered_by_one(mid, item, topic, key, newer);
            let now = newer + new_item(mid, item, topic, true);
            assert(in_window(r, key, now));
            assert forall|j: int| 0 <= j < items.len() && keyed(
                #[trigger] items[j],
                topic,
                key,
            ) implies offsets[j] == r.dedup[key] by {
                if j < front.len() {
                    assert(front[j] == items[j]);
                }
            }
        } else {
            assert forall|j: int| 0 <= j < front.len() implies !keyed(
                #[trigger] items[j],
                topic,
                key,
            ) by {
                assert(front[j] == items[j]);
            }
            assert(!t.dedup.contains_key(key));
            if keyed(item, topic, key) {
                produced_is_remembered(t, item);
                new_message_gets_the_next_offset(t, item);
                let order = t.dedup_order.push(key);
                assert(order.last() == key);
                assert(r == t.produce(item).0);
                assert(in_window(r, key, 0)) by {
                    if order.len() > 100_000 {
                        assert(r.dedup_order == order.skip(1));
                    }
                }
            } else if item.topic == topic {
                assert(r == t.produce(item).0);
            }
            assert forall|j: int| 0 <= j < items.len() && keyed(
                #[trigger] items[j],
                topic,
                key,
            ) implies j == items.len() - 1 && item == items[j] by {}
        }
    }
}

/// The command is the batch of the requests at `ts_ms`.
pub open spec fn seals(command: AppRequest, jobs: Seq<Produce>, ts_ms: u64) -> bool {
    command matches AppRequest::ProduceMany { items } && items@.len() == jobs.len() && forall|
        k: int,
    |
        0 <= k < jobs.len() ==> (#[trigger] items@[k])@ == item_of(jobs[k], ts_ms)
}

/// Two requests are the same to a producer: they go to the same topic, under the same
/// producer, which has a name, and with the same sequence number.
pub open spec fn same_send(a: Produce, b: Produce) -> bool {
    &&& a.topic@ == b.topic@
    &&& a.producer_id@.len() > 0
    &&& a.producer_id@ == b.producer_id@
    &&& a.seq == b.seq
}

/// How many messages the commands produce at most.
pub open spec fn sends(reqs: Seq<AppRequest>) -> nat
    decreases reqs.len(),
{
    if reqs.len() == 0 {
        0
    } else {
        sends(reqs.drop_last()) + match reqs.last() {
            AppRequest::Produce { .. } => 1,
            AppRequest::ProduceMany { items } => items@.len(),
            _ => 0,
        }
    }
}

proof fn lemma_new_at_most(q: QueueView, items: Seq<ProduceItemView>, topic: Seq<char>)
    ensures
        new_among(q, items, topic, true) <= items.len(),
    decreases items.len(),
{
    if items.len() > 0 {
        lemma_new_at_most(q, items.drop_last(), topic);
    }
}

proof fn lemma_new_at_most_sent(q: QueueView, reqs: Seq<AppRequest>, topic: Seq<char>)
    ensures
        new_messages(q, reqs, topic, true) <= sends(reqs),
    decreases reqs.len(),
{
    if reqs.len() > 0 {
        lemma_new_at_most_sent(q, reqs.drop_last(), topic);
        let before = run(q, reqs.drop_last());
        match reqs.last() {
            AppRequest::ProduceMany { items } => {
                lemma_new_at_most(before, item_views(items@), topic);
            },
            _ => {},
        }
        assert(new_by(before, reqs.last(), topic, true) <= match reqs.last() {
            AppRequest::Produce { .. } => 1,
            AppRequest::ProduceMany { items } => items@.len(),
            _ => 0,
        });
    }
}

/// The key of a request is that of its item.
proof fn lemma_keyed(command: AppRequest, jobs: Seq<Produce>, ts_ms: u64, i: int, first: Produce)
    requires
        seals(command, jobs, ts_ms),
        0 <= i < jobs.len(),
        same_send(first, jobs[i]),
    ensures
        keyed(
            item_views(command->ProduceMany_items@)[i],
            first.topic@,
            (first.producer_id@, first.seq),
        ),
        item_views(command->ProduceMany_items@).len() == jobs.len(),
{
    let items = command->ProduceMany_items@;
    assert(item_views(items)[i] == items[i]@);
    what_is_sealed_is_what_was_sent(jobs[i], ts_ms);
}

/// Two requests of one batch that are the same to their producer get the same offset, unless
/// the producer's sequence number was known before: no message is appended twice.
pub proof fn a_resend_in_one_batch_gets_the_same_offset(
    q: QueueView,
    command: AppRequest,
    jobs: Seq<Produce>,
    ts_ms: u64,
    i: int,
    j: int,
)
    requires
        q.wf(),
        q.has_room(command),
        seals(command, jobs, ts_ms),
        jobs.len() < 100_000,
        0 <= i < jobs.len(),
        0 <= j < jobs.len(),
        same_send(jobs[i], jobs[j]),
        !q.topic(jobs[i].topic@).dedup.contains_key((jobs[i].producer_id@, jobs[i].seq)),
    ensures
        q.step(command).1 matches AppResponseView::ProducedMany { offsets } && offsets.len()
            == jobs.len() && offsets[i] == offsets[j],
{
    let topic = jobs[i].topic@;
    let key = (jobs[i].producer_id@, jobs[i].seq);
    let items = item_views(command->ProduceMany_items@);
    lemma_keyed(command, jobs, ts_ms, i, jobs[i]);
    lemma_keyed(command, jobs, ts_ms, j, jobs[i]);
    lemma_remembered_from_here(q, items, topic, key);
    assert(keyed(items[i], topic, key) && keyed(items[j], topic, key));
}

/// A request that is sent again, in a later batch, gets the offset that it got the first
/// time, whatever it now says and whatever has become of the message, as long as the topic
/// was not deleted and fewer messages than it remembers were sent since.
pub proof fn a_resend_in_a_later_batch_gets_the_same_offset(
    q: QueueView,
    first: AppRequest,
    jobs: Seq<Produce>,
    ts_ms: u64,
    i: int,
    reqs: Seq<AppRequest>,
    again: AppRequest,
    later_jobs: Seq<Produce>,
    later_ms: u64,
    j: int,
)
    requires
        q.wf(),
        q.has_room(first),
        seals(first, jobs, ts_ms),
        0 <= i < jobs.len(),
        !q.topic(jobs[i].topic@).dedup.contains_key((jobs[i].producer_id@, jobs[i].seq)),
        room_for(q.step(first).0, reqs),
        keeps_topic(reqs, jobs[i].topic@),
        run(q.step(first).0, reqs).has_room(again),
        seals(again, later_jobs, later_ms),
        0 <= j < later_jobs.len(),
        same_send(jobs[i], later_jobs[j]),
        jobs.len() + sends(reqs) + later_jobs.len() < 100_000,
    ensures
        q.step(first).1 matches AppResponseView::ProducedMany { offsets } && run(
            q.step(first).0,
            reqs,
        ).step(again).1 matches AppResponseView::ProducedMany { offsets: later } && offsets.len()
            == jobs.len() && later.len() == later_jobs.len() && later[j] == offsets[i],
{
    let topic = jobs[i].topic@;
    let key = (jobs[i].producer_id@, jobs[i].seq);
    let items = item_views(first->ProduceMany_items@);
    let more = item_views(again->ProduceMany_items@);
    lemma_keyed(first, jobs, ts_ms, i, jobs[i]);
    lemma_keyed(again, later_jobs, later_ms, j, jobs[i]);
    lemma_remembered_from_here(q, items, topic, key);
    assert(keyed(items[i], topic, key));
    let q1 = q.step(first).0;
    step_keeps_wf(q, first);
    let newer = choose|newer: int|
        newer < items.len() && #[trigger] in_window(q1.topic(topic), key, newer);
    lemma_new_at_most_sent(q1, reqs, topic);
    lemma_window_run(q1, reqs, topic, key, newer);
    every_history_keeps_wf(q1, reqs);
    let q2 = run(q1, reqs);
    lemma_remembered_by_all(
        q2,
        more,
        topic,
        key,
        newer + new_messages(q1, reqs, topic, true),
    );
    assert(keyed(more[j], topic, key));
}

/// A topic remembers no more than a hundred thousand sequence numbers.
pub proof fn the_window_is_bounded(t: TopicView)
    requires
        t.wf(),
    ensures
        t.dedup.dom().finite(),
        t.dedup.dom().len() <= 100_000,
{
    t.dedup_order.unique_seq_to_set();
}

proof fn lemma_jobs_for(jobs: Seq<AckJob>, b: AckBatch, n: int)
    requires
        0 <= n <= jobs.len(),
    ensures
        ({
            let mine = jobs_for(jobs, b.key(), n);
            &&& forall|k: int|
                0 <= k < mine.len() ==> 0 <= #[trigger] mine[k] < n && key_of(jobs[mine[k]])
                    == b.key()
            &&& forall|k: int, l: int|
                0 <= k < l < mine.len() ==> #[trigger] mine[k] < #[trigger] mine[l]
            &&& forall|i: int|
                0 <= i < n && key_of(#[trigger] jobs[i]) == b.key() ==> mine.contains(i)
        }),
    decreases n,
{
    if n > 0 {
        lemma_jobs_for(jobs, b, n - 1);
        let (before, mine) = (jobs_for(jobs, b.key(), n - 1), jobs_for(jobs, b.key(), n));
        assert forall|i: int|
            0 <= i < n && key_of(#[trigger] jobs[i]) == b.key() implies mine.contains(i) by {
            if i < n - 1 {
                assert(before.contains(i));
                let k = choose|k: int| 0 <= k < before.len() && before[k] == i;
                assert(mine[k] == i);
            } else {
                assert(mine[before.len() as int] == i);
            }
        }
    }
}

/// The job is at place `k` of the batch: the batch goes to its topic and its group, acks or
/// nacks as it does, and holds its lease there.
pub open spec fn placed(batch: AckBatch, k: int, job: AckJob, i: int) -> bool {
    &&& 0 <= k < batch.jobs@.len()
    &&& batch.jobs@.len() == batch.lease_ids@.len()
    &&& batch.jobs@[k] == i
    &&& batch.lease_ids@[k] == job.lease_id
    &&& batch.topic@ == job.topic@
    &&& batch.group@ == job.group@
    &&& batch.nack == job.nack
}

/// The job is in one of the batches.
pub open spec fn placed_somewhere(batches: Seq<AckBatch>, job: AckJob, i: int) -> bool {
    exists|b: int, k: int| 0 <= b < batches.len() && #[trigger] placed(batches[b], k, job, i)
}

/// Every ack and every nack goes into exactly one batch, in one place, and in no batch is
/// anything else: each place holds one of the jobs. Within a batch they keep their order.
pub proof fn every_job_is_in_one_batch(batches: Seq<AckBatch>, jobs: Seq<AckJob>)
    requires
        batched(batches, jobs, jobs.len() as int),
    ensures
        forall|i: int|
            0 <= i < jobs.len() ==> placed_somewhere(batches, #[trigger] jobs[i], i),
        forall|b: int, k: int|
            0 <= b < batches.len() && 0 <= k < batches[b].jobs@.len() ==> (
            #[trigger] batches[b].jobs@[k]) < jobs.len() && placed(
                batches[b],
                k,
                jobs[batches[b].jobs@[k] as int],
                batches[b].jobs@[k] as int,
            ),
        forall|b: int, k: int, l: int|
            0 <= b < batches.len() && 0 <= k < l < batches[b].jobs@.len() ==> (
            #[trigger] batches[b].jobs@[k]) < #[trigger] batches[b].jobs@[l],
        forall|i: int, a: int, k: int, b: int, l: int|
            0 <= i < jobs.len() && 0 <= a < batches.len() && 0 <= b < batches.len()
                && #[trigger] placed(batches[a], k, jobs[i], i) && #[trigger] placed(
                batches[b],
                l,
                jobs[i],
                i,
            ) ==> a == b && k == l,
{
    let n = jobs.len() as int;
    assert forall|i: int| 0 <= i < jobs.len() implies placed_somewhere(
        batches,
        #[trigger] jobs[i],
        i,
    ) by {
        let b = choose|b: int|
            0 <= b < batches.len() && (#[trigger] batches[b]).key() == key_of(jobs[i]);
        assert(batches[b].holds(jobs, n));
        lemma_jobs_for(jobs, batches[b], n);
        let mine = jobs_for(jobs, batches[b].key(), n);
        assert(mine.contains(i));
        let k = choose|k: int| 0 <= k < mine.len() && mine[k] == i;
        assert(batches[b].jobs@[k] == mine[k]);
        assert(placed(batches[b], k, jobs[i], i));
    }
    assert forall|b: int, k: int|
        0 <= b < batches.len() && 0 <= k < batches[b].jobs@.len() implies (
    #[trigger] batches[b].jobs@[k]) < jobs.len() && placed(
        batches[b],
        k,
        jobs[batches[b].jobs@[k] as int],
        batches[b].jobs@[k] as int,
    ) by {
        assert(batches[b].holds(jobs, n));
        lemma_jobs_for(jobs, batches[b], n);
        let mine = jobs_for(jobs, batches[b].key(), n);
        assert(batches[b].jobs@[k] == mine[k]);
    }
    assert forall|b: int, k: int, l: int|
        0 <= b < batches.len() && 0 <= k < l < batches[b].jobs@.len() implies (
    #[trigger] batches[b].jobs@[k]) < #[trigger] batches[b].jobs@[l] by {
        assert(batches[b].holds(jobs, n));
        lemma_jobs_for(jobs, batches[b], n);
        let mine = jobs_for(jobs, batches[b].key(), n);
        assert(batches[b].jobs@[k] == mine[k] && batches[b].jobs@[l] == mine[l]);
    }
    assert forall|i: int, a: int, k: int, b: int, l: int|
        0 <= i < jobs.len() && 0 <= a < batches.len() && 0 <= b < batches.len()
            && #[trigger] placed(batches[a], k, jobs[i], i) && #[trigger] placed(
            batches[b],
            l,
            jobs[i],
            i,
        ) implies a == b && k == l by {
        let (x, y) = (batches[a].key(), batches[b].key());
        assert(x == y);
        name_before_irreflexive(x.topic);
        name_before_irreflexive(x.group);
        assert(a < b ==> batches[a].key().before(batches[b].key()));
        assert(b < a ==> batches[b].key().before(batches[a].key()));
        assert(k < l ==> batches[a].jobs@[k] < batches[a].jobs@[l]);
        assert(l < k ==> batches[a].jobs@[l] < batches[a].jobs@[k]);
    }
}

} // verus!
