//! What the queue promises of leases: how long they run, what they hand out, and what an
//! ack, a nack and a commit do to them.
use crate::command::{item_views, AppRequest, AppResponseView, ProduceItemView};
use crate::group::{lemma_commit_tidy, lemma_mark_acked_tidy, lemma_prune_tidy};
use crate::lifecycle_laws::acks_drop_only_consumed;
use crate::model::{GroupView, QueueView, TopicView};
use crate::priority_laws::waits;
use crate::queue_lemmas::{lemma_ample_for_all, lemma_queue_poll, lemma_topic_of};
use crate::topic_lemmas::{
    lemma_ack, lemma_commit, lemma_drop_front, lemma_group_ack, lemma_group_nack, lemma_group_of,
    lemma_polled, lemma_reclaim,
};
use crate::types::LeaseId;
use vstd::prelude::*;

verus! {

/// The group is over with the offset: it has acked it, or everything up to it is done.
pub open spec fn over(g: GroupView, offset: u64) -> bool {
    offset < g.ack_watermark || g.acked_above.contains(offset)
}

/// What a poll hands out is what the log holds: each delivery carries the message at its
/// offset, unchanged, under a lease of its own number.
pub proof fn a_delivery_carries_its_message(
    q: QueueView,
    topic: Seq<char>,
    group: Seq<char>,
    max: u32,
    visibility_timeout_ms: u64,
    ts_ms: u64,
    i: int,
)
    requires
        q.wf(),
        q.room_to_poll(topic, group, max, visibility_timeout_ms, ts_ms),
        0 <= i < q.poll(topic, group, max, visibility_timeout_ms, ts_ms).1.len(),
    ensures
        ({
            let t = q.topic(topic);
            let d = q.poll(topic, group, max, visibility_timeout_ms, ts_ms).1[i];
            let m = t.log[d.offset - (t.next_offset - t.log.len())];
            &&& t.next_offset - t.log.len() <= d.offset < t.next_offset
            &&& m.offset == d.offset
            &&& d.payload == m.payload
            &&& d.priority == m.priority
            &&& d.content_type == m.content_type
            &&& d.ts_ms == m.ts_ms
            &&& d.lease_id == q.next_lease_id + i
        }),
{
    lemma_topic_of(q, topic);
    lemma_polled(q.topic(topic), group, max, ts_ms);
}

/// A lease runs for the time that was asked for and no longer: a message that a poll hands
/// out waits for the group again from the moment on when its time is over, and not before.
/// The lease is the one that the delivery names, and it holds the message delivered.
pub proof fn a_lease_runs_for_its_time(
    q: QueueView,
    topic: Seq<char>,
    group: Seq<char>,
    max: u32,
    visibility_timeout_ms: u64,
    ts_ms: u64,
    i: int,
    now_ms: u64,
)
    requires
        q.wf(),
        q.room_to_poll(topic, group, max, visibility_timeout_ms, ts_ms),
        0 <= i < q.poll(topic, group, max, visibility_timeout_ms, ts_ms).1.len(),
    ensures
        ({
            let (r, items) = q.poll(topic, group, max, visibility_timeout_ms, ts_ms);
            let t = r.topic(topic);
            let leases = t.group(group).in_flight;
            &&& leases.contains_key(items[i].lease_id)
            &&& leases[items[i].lease_id].offset == items[i].offset
            &&& leases[items[i].lease_id].deadline_ms == ts_ms + visibility_timeout_ms
            &&& waits(t, group, items[i].offset, now_ms) <==> now_ms >= ts_ms
                + visibility_timeout_ms
        }),
{
    let t = q.topic(topic);
    let (r, items) = q.poll(topic, group, max, visibility_timeout_ms, ts_ms);
    let u = r.topic(topic);
    let chosen = t.polled(group, max, ts_ms);
    let (g, h) = (t.group(group).expire(ts_ms), u.group(group));
    let offset = items[i].offset;
    lemma_topic_of(q, topic);
    lemma_polled(t, group, max, ts_ms);
    lemma_queue_poll(q, topic, group, max, visibility_timeout_ms, ts_ms);
    lemma_group_of(t, group);
    let id = items[i].lease_id;
    assert(h.in_flight.contains_key(id));
    assert(chosen[i].offset == offset);
    assert(!g.done(offset));
    assert forall|other: LeaseId| #[trigger] h.in_flight.contains_key(other) && h.in_flight[other].offset
        == offset implies other == id by {
        if q.next_lease_id <= other < q.next_lease_id + chosen.len() {
            assert(chosen[other - q.next_lease_id].offset == offset);
        } else {
            assert(g.in_flight.contains_key(other));
            assert(g.leased(offset));
        }
    }
}

/// A poll gives up the leases of its group whose time is over, and no other, and it finishes
/// nothing.
pub proof fn a_poll_gives_up_only_what_is_due(
    t: TopicView,
    group: Seq<char>,
    max: u32,
    visibility_timeout_ms: u64,
    ts_ms: u64,
    next_lease: u64,
    id: LeaseId,
)
    requires
        id < next_lease,
    ensures
        ({
            let r = t.poll(group, max, visibility_timeout_ms, ts_ms, next_lease);
            let (g, h) = (t.group(group), r.group(group));
            &&& h.in_flight.contains_key(id) <==> g.in_flight.contains_key(id)
                && g.in_flight[id].deadline_ms > ts_ms
            &&& h.in_flight.contains_key(id) ==> h.in_flight[id] == g.in_flight[id]
            &&& h.ack_watermark == g.ack_watermark
            &&& h.acked_above == g.acked_above
            &&& r.log == t.log
            &&& r.next_offset == t.next_offset
        }),
{
}

/// Reclaiming after a change to one group keeps what the group is over with and its leases.
proof fn lemma_reclaimed(t: TopicView, group: Seq<char>, h: GroupView)
    requires
        t.wf(),
        h.wf(t.first_offset(), t.next_offset as int),
        t.with_group(group, h).sound(),
    ensures
        ({
            let u = t.with_group(group, h);
            let r = u.reclaim();
            &&& r.next_offset == t.next_offset
            &&& t.first_offset() <= r.first_offset()
            &&& r.log == t.log.skip(r.first_offset() - t.first_offset())
            &&& r.group(group).in_flight == h.in_flight
            &&& forall|o: u64| r.first_offset() <= o ==> over(r.group(group), o) == #[trigger] over(h, o)
            &&& forall|o: u64|
                t.first_offset() <= o < r.first_offset() ==> #[trigger] over(h, o)
        }),
{
    let u = t.with_group(group, h);
    acks_drop_only_consumed(t, group, h);
    lemma_reclaim(u);
    lemma_drop_front(u, u.consumed());
    let r = u.reclaim();
    assert(u.groups.contains_key(group) && u.groups[group] == h);
    lemma_prune_tidy(h, r.first_offset());
    assert(r.group(group) == h.prune(r.first_offset()));
    assert forall|o: u64| t.first_offset() <= o < r.first_offset() implies #[trigger] over(h, o) by {
        assert(u.done_by_all(o));
        assert(h.done(o));
    }
    assert forall|o: u64| r.first_offset() <= o implies over(r.group(group), o) == #[trigger] over(
        h,
        o,
    ) by {}
    assert forall|id: LeaseId| #[trigger] h.in_flight.contains_key(id) implies r.first_offset()
        <= h.in_flight[id].offset by {
        let o = h.in_flight[id].offset;
        if o < r.first_offset() {
            assert(over(h, o));
            assert(h.done(o));
        }
    }
    assert(r.group(group).in_flight =~= h.in_flight);
}

/// An ack finishes the message that its lease holds, for its group, and no other message;
/// it ends that lease and no other. A message that goes out of the log with it was finished.
pub proof fn an_ack_finishes_its_message_and_no_other(
    t: TopicView,
    group: Seq<char>,
    lease_id: LeaseId,
    offset: u64,
    id: LeaseId,
)
    requires
        t.wf(),
        t.group(group).in_flight.contains_key(lease_id),
        t.next_offset - t.log.len() <= offset < t.next_offset,
    ensures
        ({
            let r = t.ack(group, lease_id);
            let (g, h) = (t.group(group), r.group(group));
            let finished = over(g, offset) || offset == g.in_flight[lease_id].offset;
            &&& r.next_offset == t.next_offset
            &&& offset < r.next_offset - r.log.len() ==> finished
            &&& offset >= r.next_offset - r.log.len() ==> (over(h, offset) <==> finished)
            &&& offset >= r.next_offset - r.log.len() ==> r.log[offset - (r.next_offset
                - r.log.len())] == t.log[offset - (t.next_offset - t.log.len())]
            &&& h.in_flight.contains_key(id) <==> g.in_flight.contains_key(id) && id != lease_id
            &&& h.in_flight.contains_key(id) ==> h.in_flight[id] == g.in_flight[id]
        }),
{
    let g = t.groups[group];
    let h = g.ack(lease_id);
    let (first, next) = (t.first_offset(), t.next_offset as int);
    let rel = g.nack(lease_id);
    let own = g.in_flight[lease_id].offset;
    lemma_group_ack(g, lease_id, first, next);
    lemma_group_nack(g, lease_id, first, next);
    lemma_ack(t, group, lease_id);
    assert(!rel.leased(own)) by {
        if rel.leased(own) {
            let other = choose|other: LeaseId| #[trigger]
                rel.in_flight.contains_key(other) && rel.in_flight[other].offset == own;
            assert(g.in_flight.contains_key(other));
        }
    }
    lemma_mark_acked_tidy(rel, own);
    assert(over(h, offset) <==> over(g, offset) || offset == own) by {
        assert(rel.done(offset) == g.done(offset));
        assert(h.done(offset) == over(h, offset));
        assert(g.done(offset) == over(g, offset));
    }
    lemma_reclaimed(t, group, h);
}

/// A nack ends its lease and does nothing else: its message waits for the group again, at
/// once.
pub proof fn a_nack_gives_its_lease_back_and_no_other(
    t: TopicView,
    group: Seq<char>,
    lease_id: LeaseId,
    now_ms: u64,
)
    requires
        t.wf(),
        t.group(group).in_flight.contains_key(lease_id),
    ensures
        ({
            let r = t.nack(group, lease_id);
            let (g, h) = (t.group(group), r.group(group));
            &&& r.log == t.log
            &&& r.next_offset == t.next_offset
            &&& h.ack_watermark == g.ack_watermark
            &&& h.acked_above == g.acked_above
            &&& forall|id: LeaseId| #[trigger]
                h.in_flight.contains_key(id) <==> g.in_flight.contains_key(id) && id != lease_id
            &&& forall|id: LeaseId| #[trigger]
                h.in_flight.contains_key(id) ==> h.in_flight[id] == g.in_flight[id]
            &&& waits(r, group, g.in_flight[lease_id].offset, now_ms)
        }),
{
    let g = t.groups[group];
    let h = t.nack(group, lease_id).group(group);
    assert forall|id: LeaseId| #[trigger] h.in_flight.contains_key(id) implies h.in_flight[id].offset
        != g.in_flight[lease_id].offset by {
        assert(g.in_flight.contains_key(id));
    }
    assert(!g.done(g.in_flight[lease_id].offset));
}

/// A commit finishes the messages below its offset for its group, and no other message; it
/// ends the leases on these messages, and no other. A message that goes out of the log with
/// it was finished.
pub proof fn a_commit_finishes_what_is_below_and_no_other(
    t: TopicView,
    group: Seq<char>,
    committed: u64,
    offset: u64,
    id: LeaseId,
)
    requires
        t.wf(),
        t.next_offset - t.log.len() <= offset < t.next_offset,
    ensures
        ({
            let r = t.commit(group, committed);
            let (g, h) = (t.group(group), r.group(group));
            let finished = over(g, offset) || offset < committed;
            &&& r.next_offset == t.next_offset
            &&& offset < r.next_offset - r.log.len() ==> finished
            &&& offset >= r.next_offset - r.log.len() ==> (over(h, offset) <==> finished)
            &&& offset >= r.next_offset - r.log.len() ==> r.log[offset - (r.next_offset
                - r.log.len())] == t.log[offset - (t.next_offset - t.log.len())]
            &&& h.in_flight.contains_key(id) <==> g.in_flight.contains_key(id) && committed
                <= g.in_flight[id].offset
            &&& h.in_flight.contains_key(id) ==> h.in_flight[id] == g.in_flight[id]
        }),
{
    let g = t.group(group);
    let h = g.commit(committed);
    lemma_group_of(t, group);
    lemma_commit_tidy(g, committed);
    lemma_commit(t, group, committed);
    assert(over(h, offset) <==> over(g, offset) || offset < committed) by {
        assert(h.done(offset) == over(h, offset));
        assert(g.done(offset) == over(g, offset));
    }
    assert(h.wf(t.first_offset(), t.next_offset as int)) by {
        assert(t.with_group(group, h).groups.contains_key(group));
    }
    if g.in_flight.contains_key(id) {
        assert(!g.done(g.in_flight[id].offset));
    }
    lemma_reclaimed(t, group, h);
}

/// Every command is answered in its own way: a produced message with its offset, a batch
/// with as many offsets as it has messages, a poll with deliveries, and each of the others
/// with its own word.
pub proof fn every_command_has_its_own_answer(q: QueueView, req: AppRequest)
    ensures
        req is CreateTopic <==> q.step(req).1 is TopicCreated,
        req is DeleteTopic <==> q.step(req).1 is TopicDeleted,
        req is Produce <==> q.step(req).1 is Produced,
        req is ProduceMany <==> q.step(req).1 is ProducedMany,
        req is Poll <==> q.step(req).1 is Polled,
        req is Ack || req is AckMany <==> q.step(req).1 is Acked,
        req is Nack || req is NackMany <==> q.step(req).1 is Nacked,
        req is CommitOffset <==> q.step(req).1 is Committed,
        req is SetRateLimit <==> q.step(req).1 is RateLimitSet,
        req is SetRetention <==> q.step(req).1 is RetentionSet,
        req matches AppRequest::ProduceMany { items } ==> q.step(
            req,
        ).1->ProducedMany_offsets.len() == items@.len(),
{
    match req {
        AppRequest::ProduceMany { items } => {
            lemma_one_offset_each(q, item_views(items@));
        },
        _ => {},
    }
}

proof fn lemma_one_offset_each(q: QueueView, items: Seq<ProduceItemView>)
    ensures
        q.produce_all(items).1.len() == items.len(),
    decreases items.len(),
{
    if items.len() > 0 {
        lemma_one_offset_each(q, items.drop_last());
    }
}

/// To create a topic that is there, or to set its rate or its retention, changes nothing of
/// what it holds: its messages, its groups and what it remembers of its producers. A
/// topic that was not there is empty.
pub proof fn settings_touch_no_message(q: QueueView, req: AppRequest, topic: Seq<char>)
    requires
        req is CreateTopic || req is SetRateLimit || req is SetRetention,
    ensures
        ({
            let (t, r) = (q.topic(topic), q.step(req).0.topic(topic));
            &&& r.log == t.log
            &&& r.next_offset == t.next_offset
            &&& r.groups == t.groups
            &&& r.dedup == t.dedup
            &&& r.dedup_order == t.dedup_order
            &&& !q.topics.contains_key(topic) ==> r.log.len() == 0 && r.next_offset == 0
                && r.groups == Map::<Seq<char>, GroupView>::empty()
            &&& !(req is SetRateLimit) ==> r.rate_milli_per_sec == t.rate_milli_per_sec && r.burst
                == t.burst
            &&& !(req is SetRetention) ==> r.retain_max_messages == t.retain_max_messages
                && r.retain_max_age_ms == t.retain_max_age_ms
            &&& !(req is CreateTopic) ==> r.created == t.created
        }),
        req matches AppRequest::CreateTopic { topic: name } ==> q.step(req).0.topics.contains_key(
            name@,
        ) && q.step(req).0.topic(name@).created,
{
}

/// A deleted topic is gone with all it held: what is produced to it next is its first
/// message.
pub proof fn a_deleted_topic_starts_anew(q: QueueView, req: AppRequest)
    requires
        req is DeleteTopic,
    ensures
        req matches AppRequest::DeleteTopic { topic } ==> {
            let r = q.step(req).0;
            let t = r.topic(topic@);
            &&& !r.topics.contains_key(topic@)
            &&& t.log.len() == 0
            &&& t.next_offset == 0
            &&& t.groups == Map::<Seq<char>, GroupView>::empty()
            &&& t.dedup == Map::<(Seq<char>, u64), u64>::empty()
            &&& t.rate_milli_per_sec == 0
            &&& t.retain_max_messages == 0
            &&& t.retain_max_age_ms == 0
            &&& r.next_lease_id == q.next_lease_id
        },
{
}

/// A command is refused only where a counter would run over: with as many offsets, polls and
/// leases left as it can use, and a deadline that the clock can show, it has room.
pub proof fn a_command_has_room_while_the_counters_do(q: QueueView, req: AppRequest)
    requires
        q.wf(),
        match req {
            AppRequest::Produce { topic, .. } => q.topic(topic@).next_offset < u64::MAX,
            AppRequest::ProduceMany { items } => forall|name: Seq<char>|
                (#[trigger] q.topic(name)).next_offset + items@.len() <= u64::MAX,
            AppRequest::Poll { topic, group, max, visibility_timeout_ms, ts_ms } => {
                &&& q.topic(topic@).group(group@).poll_count < u64::MAX
                &&& q.next_lease_id + max <= u64::MAX
                &&& ts_ms + visibility_timeout_ms <= u64::MAX
            },
            _ => true,
        },
    ensures
        q.has_room(req),
{
    match req {
        AppRequest::ProduceMany { items } => {
            lemma_ample_for_all(q, item_views(items@), items@.len());
        },
        AppRequest::Poll { topic, group, max, visibility_timeout_ms, ts_ms } => {
            lemma_topic_of(q, topic@);
            lemma_polled(q.topic(topic@), group@, max, ts_ms);
        },
        _ => {},
    }
}

/// A topic that is not there is not made by a poll, an ack, a nack or a commit: they change
/// nothing, and the poll comes back empty-handed. A message that is produced makes it.
pub proof fn only_producing_and_settings_make_a_topic(
    q: QueueView,
    req: AppRequest,
    topic: Seq<char>,
)
    requires
        match req {
            AppRequest::Poll { topic: t, .. } => t@ == topic,
            AppRequest::Ack { topic: t, .. } => t@ == topic,
            AppRequest::AckMany { topic: t, .. } => t@ == topic,
            AppRequest::Nack { topic: t, .. } => t@ == topic,
            AppRequest::NackMany { topic: t, .. } => t@ == topic,
            AppRequest::CommitOffset { topic: t, .. } => t@ == topic,
            AppRequest::Produce { topic: t, .. } => t@ == topic,
            _ => false,
        },
        !q.topics.contains_key(topic),
    ensures
        !(req is Produce) ==> q.step(req).0 == q,
        q.step(req).1 matches AppResponseView::Polled { items } ==> items.len() == 0,
        req is Produce ==> q.step(req).0.topics.contains_key(topic) && q.step(req).0.topic(
            topic,
        ).created,
{
    match req {
        AppRequest::AckMany { topic: t, group, lease_ids } => {
            lemma_nothing_to_ack(q, t@, group@, lease_ids@);
        },
        AppRequest::NackMany { topic: t, group, lease_ids } => {
            lemma_nothing_to_ack(q, t@, group@, lease_ids@);
        },
        _ => {},
    }
}

proof fn lemma_nothing_to_ack(
    q: QueueView,
    topic: Seq<char>,
    group: Seq<char>,
    lease_ids: Seq<LeaseId>,
)
    requires
        !q.topics.contains_key(topic),
    ensures
        q.ack_all(topic, group, lease_ids) == q,
        q.nack_all(topic, group, lease_ids) == q,
    decreases lease_ids.len(),
{
    if lease_ids.len() > 0 {
        lemma_nothing_to_ack(q, topic, group, lease_ids.drop_last());
    }
}

} // verus!
