//! What the queue promises of a message from its production to its end.
use crate::command::{item_views, AppRequest, AppResponseView, ProduceItemView};
use crate::delivery_laws::{deliverable, delivers, poll_delivers_only_deliverable};
use crate::group::{lemma_commit_tidy, lemma_prune_tidy};
use crate::model::{lemma_prefix_len, GroupView, QueueView, TopicView};
use crate::queue_lemmas::{lemma_queue_ack_all, lemma_queue_produce_all, lemma_topic_of};
use crate::topic_lemmas::{
    lemma_ack, lemma_append, lemma_commit, lemma_drop_front, lemma_drop_nothing, lemma_group_ack,
    lemma_group_of, lemma_reclaim, lemma_remember, lemma_settings, lemma_unconsumed, lemma_unretained,
    lemma_with_group,
};
use crate::types::{LeaseId, MessageView};
use vstd::prelude::*;

verus! {

/// The message will not be given to the group any more: the group is done with it,
/// or it is no longer retained.
pub open spec fn settled(t: TopicView, group: Seq<char>, offset: u64) -> bool {
    offset < t.first_offset() || t.group(group).done(offset)
}

/// Nothing that was settled in `t` is unsettled in `r`.
pub open spec fn keeps_settled(t: TopicView, r: TopicView) -> bool {
    &&& t.first_offset() <= r.first_offset()
    &&& t.next_offset <= r.next_offset
    &&& forall|group: Seq<char>, o: u64| #[trigger]
        t.group(group).done(o) && r.first_offset() <= o ==> r.group(group).done(o)
}

/// No group is done with more in `r` than it was in `t`.
pub open spec fn settles_nothing(t: TopicView, r: TopicView) -> bool {
    forall|group: Seq<char>, o: u64| #[trigger]
        r.group(group).done(o) ==> t.group(group).done(o)
}

/// Dropping the oldest messages unsettles nothing and lets no group be done with more.
proof fn lemma_drop_settled(t: TopicView, n: nat)
    requires
        t.sound(),
        n <= t.log.len(),
    ensures
        keeps_settled(t, t.drop_front(n)),
        settles_nothing(t, t.drop_front(n)),
{
    let r = t.drop_front(n);
    lemma_drop_front(t, n);
    assert forall|group: Seq<char>, o: u64| #[trigger]
        t.group(group).done(o) && r.first_offset() <= o implies r.group(group).done(o) by {
        lemma_group_of(t, group);
        lemma_prune_tidy(t.group(group), r.first_offset());
        if !t.groups.contains_key(group) {
            assert(!r.groups.contains_key(group));
        }
    }
}

/// What is settled before a message is produced is settled afterwards, and no group
/// is done with more.
proof fn lemma_produce_settled(t: TopicView, item: ProduceItemView)
    requires
        t.wf(),
        t.has_room(item),
    ensures
        keeps_settled(t, t.produce(item).0),
        settles_nothing(t, t.produce(item).0),
{
    let c = TopicView { created: true, ..t };
    lemma_settings(t, c);
    if !c.is_resend(item) {
        let appended = c.append(item);
        lemma_append(c, item);
        let noted = if item.producer_id.len() > 0 {
            lemma_remember(appended, (item.producer_id, item.seq), c.next_offset);
            appended.remember((item.producer_id, item.seq), c.next_offset)
        } else {
            appended
        };
        lemma_unretained(noted, item.ts_ms);
        let purged = noted.purge_retained(item.ts_ms);
        lemma_drop_front(noted, noted.unretained(item.ts_ms));
        lemma_drop_settled(noted, noted.unretained(item.ts_ms));
        lemma_reclaim(purged);
        lemma_drop_settled(purged, purged.consumed());
        let r = purged.reclaim();
        assert(r == t.produce(item).0);
        assert forall|group: Seq<char>, o: u64| #[trigger]
            t.group(group).done(o) && r.first_offset() <= o implies r.group(group).done(o) by {
            assert(noted.group(group).done(o));
            assert(purged.group(group).done(o));
        }
        assert forall|group: Seq<char>, o: u64| #[trigger]
            r.group(group).done(o) implies t.group(group).done(o) by {
            assert(purged.group(group).done(o));
            assert(noted.group(group).done(o));
        }
    }
}

/// Changing one group so that it keeps what it is done with unsettles nothing.
proof fn lemma_group_settled(t: TopicView, name: Seq<char>, g: GroupView)
    requires
        forall|o: u64| #[trigger] t.group(name).done(o) ==> g.done(o),
    ensures
        keeps_settled(t, t.with_group(name, g)),
{
    let r = t.with_group(name, g);
    assert forall|group: Seq<char>, o: u64| #[trigger]
        t.group(group).done(o) && r.first_offset() <= o implies r.group(group).done(o) by {
        if group != name {
            assert(r.group(group) == t.group(group));
        }
    }
}

proof fn lemma_ack_settled(t: TopicView, group: Seq<char>, lease_id: LeaseId)
    requires
        t.wf(),
    ensures
        keeps_settled(t, t.ack(group, lease_id)),
{
    if t.groups.contains_key(group) {
        let g = t.groups[group];
        lemma_group_ack(g, lease_id, t.first_offset(), t.next_offset as int);
        let u = t.with_group(group, g.ack(lease_id));
        lemma_group_settled(t, group, g.ack(lease_id));
        lemma_ack(t, group, lease_id);
        lemma_reclaim(u);
        lemma_drop_settled(u, u.consumed());
        lemma_then(t, u, u.reclaim());
    }
}

proof fn lemma_commit_settled(t: TopicView, group: Seq<char>, offset: u64)
    requires
        t.wf(),
    ensures
        keeps_settled(t, t.commit(group, offset)),
{
    lemma_group_of(t, group);
    let g = t.group(group);
    lemma_commit_tidy(g, offset);
    let u = t.with_group(group, g.commit(offset));
    lemma_group_settled(t, group, g.commit(offset));
    lemma_commit(t, group, offset);
    lemma_reclaim(u);
    lemma_drop_settled(u, u.consumed());
    lemma_then(t, u, u.reclaim());
}

proof fn lemma_nack_settled(t: TopicView, group: Seq<char>, lease_id: LeaseId)
    ensures
        keeps_settled(t, t.nack(group, lease_id)),
        settles_nothing(t, t.nack(group, lease_id)),
{
    let r = t.nack(group, lease_id);
    assert forall|n: Seq<char>, o: u64| #[trigger] r.group(n).done(o) == t.group(n).done(o) by {
        if n == group {
            assert(r.group(n).done(o) == t.group(n).done(o));
        }
    }
    assert forall|n: Seq<char>, o: u64| #[trigger]
        t.group(n).done(o) && r.first_offset() <= o implies r.group(n).done(o) by {
        assert(r.group(n).done(o) == t.group(n).done(o));
    }
}

proof fn lemma_poll_settled(
    t: TopicView,
    group: Seq<char>,
    max: u32,
    visibility_timeout_ms: u64,
    ts_ms: u64,
    next_lease: u64,
)
    ensures
        keeps_settled(t, t.poll(group, max, visibility_timeout_ms, ts_ms, next_lease)),
        settles_nothing(t, t.poll(group, max, visibility_timeout_ms, ts_ms, next_lease)),
{
    let r = t.poll(group, max, visibility_timeout_ms, ts_ms, next_lease);
    assert forall|n: Seq<char>, o: u64| #[trigger] r.group(n).done(o) == t.group(n).done(o) by {
        if n == group {
            assert(r.group(n).done(o) == t.group(n).done(o));
        }
    }
    assert forall|n: Seq<char>, o: u64| #[trigger]
        t.group(n).done(o) && r.first_offset() <= o implies r.group(n).done(o) by {
        assert(r.group(n).done(o) == t.group(n).done(o));
    }
}

proof fn lemma_then(a: TopicView, b: TopicView, c: TopicView)
    requires
        keeps_settled(a, b),
        keeps_settled(b, c),
    ensures
        keeps_settled(a, c),
{
    assert forall|group: Seq<char>, o: u64| #[trigger]
        a.group(group).done(o) && c.first_offset() <= o implies c.group(group).done(o) by {
        assert(b.group(group).done(o));
    }
}

proof fn lemma_then_nothing(a: TopicView, b: TopicView, c: TopicView)
    requires
        settles_nothing(a, b),
        settles_nothing(b, c),
    ensures
        settles_nothing(a, c),
{
    assert forall|group: Seq<char>, o: u64| #[trigger] c.group(group).done(o) implies a.group(
        group,
    ).done(o) by {
        assert(b.group(group).done(o));
    }
}

proof fn lemma_produce_all_settled(q: QueueView, items: Seq<ProduceItemView>, topic: Seq<char>)
    requires
        q.wf(),
        q.room_to_produce_all(items),
    ensures
        keeps_settled(q.topic(topic), q.produce_all(items).0.topic(topic)),
        settles_nothing(q.topic(topic), q.produce_all(items).0.topic(topic)),
    decreases items.len(),
{
    if items.len() > 0 {
        let front = items.drop_last();
        lemma_produce_all_settled(q, front, topic);
        lemma_queue_produce_all(q, front);
        let before = q.produce_all(front).0;
        lemma_topic_of(before, items.last().topic);
        lemma_produce_settled(before.topic(items.last().topic), items.last());
        let after = before.produce(items.last()).0;
        lemma_then(q.topic(topic), before.topic(topic), after.topic(topic));
        lemma_then_nothing(q.topic(topic), before.topic(topic), after.topic(topic));
    }
}

proof fn lemma_ack_all_settled(
    q: QueueView,
    topic: Seq<char>,
    group: Seq<char>,
    lease_ids: Seq<LeaseId>,
    name: Seq<char>,
)
    requires
        q.wf(),
    ensures
        keeps_settled(q.topic(name), q.ack_all(topic, group, lease_ids).topic(name)),
    decreases lease_ids.len(),
{
    if lease_ids.len() > 0 {
        let front = lease_ids.drop_last();
        lemma_ack_all_settled(q, topic, group, front, name);
        lemma_queue_ack_all(q, topic, group, front);
        let before = q.ack_all(topic, group, front);
        let after = before.ack(topic, group, lease_ids.last());
        if before.topics.contains_key(topic) {
            lemma_ack_settled(before.topics[topic], group, lease_ids.last());
        }
        lemma_then(q.topic(name), before.topic(name), after.topic(name));
    }
}

proof fn lemma_nack_all_settled(
    q: QueueView,
    topic: Seq<char>,
    group: Seq<char>,
    lease_ids: Seq<LeaseId>,
    name: Seq<char>,
)
    ensures
        keeps_settled(q.topic(name), q.nack_all(topic, group, lease_ids).topic(name)),
        settles_nothing(q.topic(name), q.nack_all(topic, group, lease_ids).topic(name)),
    decreases lease_ids.len(),
{
    if lease_ids.len() > 0 {
        let front = lease_ids.drop_last();
        lemma_nack_all_settled(q, topic, group, front, name);
        let before = q.nack_all(topic, group, front);
        let after = before.nack(topic, group, lease_ids.last());
        if before.topics.contains_key(topic) {
            lemma_nack_settled(before.topics[topic], group, lease_ids.last());
        }
        lemma_then(q.topic(name), before.topic(name), after.topic(name));
        lemma_then_nothing(q.topic(name), before.topic(name), after.topic(name));
    }
}

/// The command deletes the topic.
pub open spec fn deletes(req: AppRequest, topic: Seq<char>) -> bool {
    req matches AppRequest::DeleteTopic { topic: name } && name@ == topic
}

/// The command acks or commits.
pub open spec fn acknowledges(req: AppRequest) -> bool {
    req is Ack || req is AckMany || req is CommitOffset
}

/// Whatever a command does short of deleting the topic, what was settled for a group
/// stays settled: a message that a group has finished with never comes back to it.
pub proof fn settled_stays_settled(
    q: QueueView,
    req: AppRequest,
    topic: Seq<char>,
    group: Seq<char>,
    offset: u64,
)
    requires
        q.wf(),
        q.has_room(req),
        !deletes(req, topic),
        settled(q.topic(topic), group, offset),
    ensures
        settled(q.step(req).0.topic(topic), group, offset),
{
    lemma_step_settled(q, req, topic);
    let (t, r) = (q.topic(topic), q.step(req).0.topic(topic));
    if r.first_offset() <= offset {
        assert(t.group(group).done(offset));
    }
}

/// Whatever a command does short of deleting the topic, the offsets of the topic only
/// move up: neither a dropped message nor its offset comes back.
pub proof fn offsets_are_never_reused(q: QueueView, req: AppRequest, topic: Seq<char>)
    requires
        q.wf(),
        q.has_room(req),
        !deletes(req, topic),
    ensures
        q.topic(topic).next_offset <= q.step(req).0.topic(topic).next_offset,
        q.topic(topic).first_offset() <= q.step(req).0.topic(topic).first_offset(),
{
    lemma_step_settled(q, req, topic);
}

/// Whatever a command does, the lease numbers only move up: the leases that a poll
/// hands out are new ones, each with a number of its own.
pub proof fn lease_numbers_are_never_reused(q: QueueView, req: AppRequest)
    requires
        q.wf(),
        q.has_room(req),
    ensures
        ({
            let (r, answer) = q.step(req);
            let count = match answer {
                AppResponseView::Polled { items } => items.len(),
                _ => 0,
            };
            &&& r.next_lease_id == q.next_lease_id + count
            &&& answer matches AppResponseView::Polled { items } ==> forall|i: int|
                0 <= i < items.len() ==> (#[trigger] items[i]).lease_id == q.next_lease_id + i
        }),
{
    match req {
        AppRequest::ProduceMany { items } => {
            lemma_queue_produce_all(q, item_views(items@));
        },
        AppRequest::AckMany { topic, group, lease_ids } => {
            lemma_ack_all_leases(q, topic@, group@, lease_ids@);
        },
        AppRequest::NackMany { topic, group, lease_ids } => {
            lemma_nack_all_leases(q, topic@, group@, lease_ids@);
        },
        _ => {},
    }
}

proof fn lemma_ack_all_leases(
    q: QueueView,
    topic: Seq<char>,
    group: Seq<char>,
    lease_ids: Seq<LeaseId>,
)
    ensures
        q.ack_all(topic, group, lease_ids).next_lease_id == q.next_lease_id,
    decreases lease_ids.len(),
{
    if lease_ids.len() > 0 {
        lemma_ack_all_leases(q, topic, group, lease_ids.drop_last());
    }
}

proof fn lemma_nack_all_leases(
    q: QueueView,
    topic: Seq<char>,
    group: Seq<char>,
    lease_ids: Seq<LeaseId>,
)
    ensures
        q.nack_all(topic, group, lease_ids).next_lease_id == q.next_lease_id,
    decreases lease_ids.len(),
{
    if lease_ids.len() > 0 {
        lemma_nack_all_leases(q, topic, group, lease_ids.drop_last());
    }
}

proof fn lemma_step_settled(q: QueueView, req: AppRequest, name: Seq<char>)
    requires
        q.wf(),
        q.has_room(req),
        !deletes(req, name),
    ensures
        keeps_settled(q.topic(name), q.step(req).0.topic(name)),
        !acknowledges(req) ==> settles_nothing(q.topic(name), q.step(req).0.topic(name)),
{
    match req {
        AppRequest::Produce {
            topic,
            priority,
            content_type,
            payload,
            producer_id,
            seq,
            ts_ms,
        } => {
            let item = ProduceItemView {
                topic: topic@,
                priority,
                content_type,
                payload: payload@,
                producer_id: producer_id@,
                seq,
                ts_ms,
            };
            lemma_topic_of(q, topic@);
            lemma_produce_settled(q.topic(topic@), item);
        },
        AppRequest::ProduceMany { items } => {
            lemma_produce_all_settled(q, item_views(items@), name);
        },
        AppRequest::Poll { topic, group, max, visibility_timeout_ms, ts_ms } => {
            if q.topics.contains_key(topic@) {
                lemma_poll_settled(
                    q.topics[topic@],
                    group@,
                    max,
                    visibility_timeout_ms,
                    ts_ms,
                    q.next_lease_id,
                );
            }
        },
        AppRequest::Ack { topic, group, lease_id } => {
            if q.topics.contains_key(topic@) {
                lemma_ack_settled(q.topics[topic@], group@, lease_id);
            }
        },
        AppRequest::AckMany { topic, group, lease_ids } => {
            lemma_ack_all_settled(q, topic@, group@, lease_ids@, name);
        },
        AppRequest::Nack { topic, group, lease_id } => {
            if q.topics.contains_key(topic@) {
                lemma_nack_settled(q.topics[topic@], group@, lease_id);
            }
        },
        AppRequest::NackMany { topic, group, lease_ids } => {
            lemma_nack_all_settled(q, topic@, group@, lease_ids@, name);
        },
        AppRequest::CommitOffset { topic, group, offset } => {
            if q.topics.contains_key(topic@) {
                lemma_commit_settled(q.topics[topic@], group@, offset);
            }
        },
        _ => {},
    }
}

/// A settled message is never delivered to the group.
pub proof fn settled_is_never_delivered(
    t: TopicView,
    group: Seq<char>,
    max: u32,
    ts_ms: u64,
    offset: u64,
)
    requires
        t.wf(),
        settled(t, group, offset),
    ensures
        !delivers(t, group, max, ts_ms, offset),
{
    poll_delivers_only_deliverable(t, group, max, ts_ms);
}

/// Only an ack or a commit lets a group be done with a message: until then the
/// message comes back, as often as it takes.
pub proof fn only_acknowledgements_finish(
    q: QueueView,
    req: AppRequest,
    topic: Seq<char>,
    group: Seq<char>,
    offset: u64,
)
    requires
        q.wf(),
        q.has_room(req),
        !deletes(req, topic),
        !acknowledges(req),
        !q.topic(topic).group(group).done(offset),
    ensures
        !q.step(req).0.topic(topic).group(group).done(offset),
{
    lemma_step_settled(q, req, topic);
}

/// An acked message is settled.
pub proof fn acked_is_settled(t: TopicView, group: Seq<char>, lease_id: LeaseId)
    requires
        t.wf(),
        t.groups.contains_key(group),
        t.groups[group].in_flight.contains_key(lease_id),
    ensures
        settled(t.ack(group, lease_id), group, t.groups[group].in_flight[lease_id].offset),
{
    let g = t.groups[group];
    let u = t.with_group(group, g.ack(lease_id));
    lemma_group_ack(g, lease_id, t.first_offset(), t.next_offset as int);
    lemma_ack(t, group, lease_id);
    lemma_reclaim(u);
    lemma_drop_settled(u, u.consumed());
    assert(u.group(group).done(g.in_flight[lease_id].offset));
}

/// Everything below a committed offset is settled.
pub proof fn committed_is_settled(t: TopicView, group: Seq<char>, offset: u64, below: u64)
    requires
        t.wf(),
        below < offset,
    ensures
        settled(t.commit(group, offset), group, below),
{
    lemma_group_of(t, group);
    let g = t.group(group);
    let u = t.with_group(group, g.commit(offset));
    lemma_commit_tidy(g, offset);
    lemma_commit(t, group, offset);
    lemma_reclaim(u);
    lemma_drop_settled(u, u.consumed());
    assert(u.group(group).done(below));
}

/// A lease that is acked when it is no longer out changes nothing.
pub proof fn stale_ack_changes_nothing(t: TopicView, group: Seq<char>, lease_id: LeaseId)
    requires
        t.wf(),
        !t.group(group).in_flight.contains_key(lease_id),
    ensures
        t.ack(group, lease_id) == t,
{
    if t.groups.contains_key(group) {
        let u = t.with_group(group, t.groups[group].ack(lease_id));
        assert(u.groups =~= t.groups);
        assert(u =~= t);
        lemma_drop_nothing(t);
    }
}

/// A message that some group still wants is kept by every ack and every commit: only
/// what every group has finished with is dropped, oldest first.
pub proof fn acks_drop_only_consumed(t: TopicView, group: Seq<char>, g: GroupView)
    requires
        t.sound(),
        g.wf(t.first_offset(), t.next_offset as int),
    ensures
        ({
            let u = t.with_group(group, g);
            let r = u.reclaim();
            &&& r.next_offset == t.next_offset
            &&& r.log == t.log.skip(r.first_offset() - t.first_offset())
            &&& forall|o: u64|
                t.first_offset() <= o < r.first_offset() ==> #[trigger] u.done_by_all(o)
        }),
{
    let u = t.with_group(group, g);
    lemma_with_group(t, group, g);
    lemma_reclaim(u);
    let p = |m: MessageView| u.done_by_all(m.offset);
    lemma_prefix_len(u.log, p);
    lemma_drop_front(u, u.consumed());
    let r = u.reclaim();
    assert forall|o: u64| t.first_offset() <= o < r.first_offset() implies #[trigger] u.done_by_all(
        o,
    ) by {
        assert(u.groups.contains_key(group));
        assert(u.groups.dom().contains(group));
        assert(p(u.log[o - t.first_offset()]));
    }
}

/// A topic that all its groups have drained holds nothing.
pub proof fn drained_topic_holds_nothing(t: TopicView)
    requires
        t.wf(),
        t.groups.dom().len() > 0,
        forall|i: int| 0 <= i < t.log.len() ==> #[trigger] t.done_by_all(t.log[i].offset),
    ensures
        t.log.len() == 0,
{
    lemma_unconsumed(t);
    if t.log.len() > 0 {
        assert(t.done_by_all(t.log[0].offset));
    }
}

/// What one group does leaves every other group as it was: the same messages are
/// deliverable to it as before.
pub proof fn groups_do_not_disturb_each_other(
    t: TopicView,
    group: Seq<char>,
    g: GroupView,
    other: Seq<char>,
    offset: u64,
    now_ms: u64,
)
    requires
        t.wf(),
        g.wf(t.first_offset(), t.next_offset as int),
        other != group,
        t.groups.contains_key(other),
    ensures
        deliverable(t.with_group(group, g), other, offset, now_ms) <==> deliverable(
            t,
            other,
            offset,
            now_ms,
        ),
        deliverable(t.with_group(group, g).reclaim(), other, offset, now_ms) <==> deliverable(
            t,
            other,
            offset,
            now_ms,
        ),
{
    let u = t.with_group(group, g);
    let r = u.reclaim();
    acks_drop_only_consumed(t, group, g);
    lemma_with_group(t, group, g);
    lemma_reclaim(u);
    lemma_drop_front(u, u.consumed());
    assert(u.group(other) == t.group(other));
    let (a, b) = (u.group(other), r.group(other));
    assert(b == a.prune(r.first_offset()));
    if deliverable(t, other, offset, now_ms) && offset < r.first_offset() {
        assert(u.done_by_all(offset));
        assert(u.groups.contains_key(other));
    }
    if r.first_offset() <= offset {
        lemma_prune_tidy(a, r.first_offset());
        assert(b.done(offset) == a.done(offset));
        if a.expire(now_ms).leased(offset) {
            let id = choose|id: LeaseId| #[trigger]
                a.expire(now_ms).in_flight.contains_key(id) && a.expire(now_ms).in_flight[id].offset
                    == offset;
            assert(b.expire(now_ms).in_flight.contains_key(id));
        }
        if b.expire(now_ms).leased(offset) {
            let id = choose|id: LeaseId| #[trigger]
                b.expire(now_ms).in_flight.contains_key(id) && b.expire(now_ms).in_flight[id].offset
                    == offset;
            assert(a.expire(now_ms).in_flight.contains_key(id));
        }
    }
}

/// The group has not finished with the message, and the message is there.
pub open spec fn wanted(t: TopicView, group: Seq<char>, offset: u64) -> bool {
    &&& t.groups.contains_key(group)
    &&& t.first_offset() <= offset < t.next_offset
    &&& !t.groups[group].done(offset)
}

/// The command acks or commits for the group of the topic.
pub open spec fn finishes(req: AppRequest, topic: Seq<char>, group: Seq<char>) -> bool {
    match req {
        AppRequest::Ack { topic: t, group: g, .. } => t@ == topic && g@ == group,
        AppRequest::AckMany { topic: t, group: g, .. } => t@ == topic && g@ == group,
        AppRequest::CommitOffset { topic: t, group: g, .. } => t@ == topic && g@ == group,
        _ => false,
    }
}

/// A message that a group has not finished with is there until the group itself acks or
/// commits it: no other command takes it away, but for the deletion of the topic and
/// for retention, which works when something is produced.
pub proof fn a_wanted_message_is_kept(
    q: QueueView,
    req: AppRequest,
    topic: Seq<char>,
    group: Seq<char>,
    offset: u64,
)
    requires
        q.wf(),
        q.has_room(req),
        !deletes(req, topic),
        !finishes(req, topic, group),
        wanted(q.topic(topic), group, offset),
    ensures
        !(req is Produce || req is ProduceMany) ==> wanted(
            q.step(req).0.topic(topic),
            group,
            offset,
        ),
        q.step(req).0.topic(topic).first_offset() <= offset ==> wanted(
            q.step(req).0.topic(topic),
            group,
            offset,
        ),
{
    lemma_step_settled(q, req, topic);
    let (t, r) = (q.topic(topic), q.step(req).0.topic(topic));
    assert(!t.group(group).done(offset));
    if !acknowledges(req) {
        assert(!r.group(group).done(offset));
    }
    match req {
        AppRequest::Produce {
            topic: name,
            priority,
            content_type,
            payload,
            producer_id,
            seq,
            ts_ms,
        } => {
            let item = ProduceItemView {
                topic: name@,
                priority,
                content_type,
                payload: payload@,
                producer_id: producer_id@,
                seq,
                ts_ms,
            };
            lemma_produce_groups(q.topic(name@), item);
        },
        AppRequest::ProduceMany { items } => {
            lemma_produce_all_groups(q, item_views(items@), topic);
        },
        AppRequest::Ack { topic: name, group: other, lease_id } => {
            if name@ == topic {
                lemma_kept_by_ack(t, other@, lease_id, group, offset);
            }
        },
        AppRequest::AckMany { topic: name, group: other, lease_ids } => {
            if name@ == topic {
                lemma_kept_by_acks(q, topic, other@, lease_ids@, group, offset);
            } else {
                lemma_ack_all_apart(q, name@, other@, lease_ids@, topic);
            }
        },
        AppRequest::NackMany { topic: name, group: other, lease_ids } => {
            lemma_nack_all_groups(q, name@, other@, lease_ids@, topic);
        },
        AppRequest::CommitOffset { topic: name, group: other, offset: upto } => {
            if name@ == topic {
                lemma_commit(t, other@, upto);
                lemma_group_of(t, other@);
                let g = t.group(other@);
                lemma_commit_tidy(g, upto);
                let h = g.commit(upto);
                assert forall|id: LeaseId| #[trigger]
                    h.in_flight.contains_key(id) implies t.first_offset()
                    <= h.in_flight[id].offset < t.next_offset by {
                    assert(g.in_flight.contains_key(id));
                }
                lemma_kept(t, other@, h, group, offset);
            }
        },
        _ => {},
    }
}

/// What another group does leaves a wanted message in its place.
proof fn lemma_kept(t: TopicView, other: Seq<char>, g: GroupView, group: Seq<char>, offset: u64)
    requires
        t.wf(),
        g.wf(t.first_offset(), t.next_offset as int),
        other != group,
        wanted(t, group, offset),
    ensures
        wanted(t.with_group(other, g).reclaim(), group, offset),
{
    let u = t.with_group(other, g);
    let r = u.reclaim();
    acks_drop_only_consumed(t, other, g);
    lemma_with_group(t, other, g);
    lemma_reclaim(u);
    lemma_drop_front(u, u.consumed());
    assert(u.groups[group] == t.groups[group]);
    if offset < r.first_offset() {
        assert(u.done_by_all(offset));
        assert(u.groups.contains_key(group));
    }
    assert(r.groups[group] == u.groups[group].prune(r.first_offset()));
}

proof fn lemma_kept_by_ack(
    t: TopicView,
    other: Seq<char>,
    lease_id: LeaseId,
    group: Seq<char>,
    offset: u64,
)
    requires
        t.wf(),
        other != group,
        wanted(t, group, offset),
    ensures
        wanted(t.ack(other, lease_id), group, offset),
{
    if t.groups.contains_key(other) {
        lemma_group_ack(t.groups[other], lease_id, t.first_offset(), t.next_offset as int);
        lemma_kept(t, other, t.groups[other].ack(lease_id), group, offset);
    }
}

proof fn lemma_kept_by_acks(
    q: QueueView,
    topic: Seq<char>,
    other: Seq<char>,
    lease_ids: Seq<LeaseId>,
    group: Seq<char>,
    offset: u64,
)
    requires
        q.wf(),
        other != group,
        wanted(q.topic(topic), group, offset),
    ensures
        wanted(q.ack_all(topic, other, lease_ids).topic(topic), group, offset),
    decreases lease_ids.len(),
{
    if lease_ids.len() > 0 {
        let front = lease_ids.drop_last();
        lemma_kept_by_acks(q, topic, other, front, group, offset);
        lemma_queue_ack_all(q, topic, other, front);
        let before = q.ack_all(topic, other, front);
        if before.topics.contains_key(topic) {
            lemma_kept_by_ack(before.topic(topic), other, lease_ids.last(), group, offset);
        }
    }
}

proof fn lemma_nack_all_groups(
    q: QueueView,
    topic: Seq<char>,
    group: Seq<char>,
    lease_ids: Seq<LeaseId>,
    name: Seq<char>,
)
    ensures
        ({
            let (t, r) = (q.topic(name), q.nack_all(topic, group, lease_ids).topic(name));
            &&& r.groups.dom() == t.groups.dom()
            &&& r.log == t.log
            &&& r.next_offset == t.next_offset
        }),
    decreases lease_ids.len(),
{
    if lease_ids.len() > 0 {
        lemma_nack_all_groups(q, topic, group, lease_ids.drop_last(), name);
        let before = q.nack_all(topic, group, lease_ids.drop_last());
        let after = before.nack(topic, group, lease_ids.last());
        assert(after.topic(name).groups.dom() =~= before.topic(name).groups.dom());
    }
}

proof fn lemma_produce_groups(t: TopicView, item: ProduceItemView)
    ensures
        t.produce(item).0.groups.dom() == t.groups.dom(),
{
    assert(t.produce(item).0.groups.dom() =~= t.groups.dom());
}

proof fn lemma_produce_all_groups(q: QueueView, items: Seq<ProduceItemView>, name: Seq<char>)
    ensures
        q.produce_all(items).0.topic(name).groups.dom() == q.topic(name).groups.dom(),
    decreases items.len(),
{
    if items.len() > 0 {
        lemma_produce_all_groups(q, items.drop_last(), name);
        let before = q.produce_all(items.drop_last()).0;
        lemma_produce_groups(before.topic(items.last().topic), items.last());
    }
}

/// The command is about the topic.
pub open spec fn concerns(req: AppRequest, name: Seq<char>) -> bool {
    match req {
        AppRequest::Produce { topic, .. } => topic@ == name,
        AppRequest::Poll { topic, .. } => topic@ == name,
        AppRequest::Ack { topic, .. } => topic@ == name,
        AppRequest::Nack { topic, .. } => topic@ == name,
        AppRequest::CommitOffset { topic, .. } => topic@ == name,
        AppRequest::CreateTopic { topic } => topic@ == name,
        AppRequest::DeleteTopic { topic } => topic@ == name,
        AppRequest::SetRateLimit { topic, .. } => topic@ == name,
        AppRequest::SetRetention { topic, .. } => topic@ == name,
        AppRequest::AckMany { topic, .. } => topic@ == name,
        AppRequest::NackMany { topic, .. } => topic@ == name,
        AppRequest::ProduceMany { items } => exists|i: int|
            0 <= i < items@.len() && (#[trigger] items@[i]).topic@ == name,
    }
}

/// A command leaves the topics that it is not about as they are.
pub proof fn topics_do_not_disturb_each_other(q: QueueView, req: AppRequest, other: Seq<char>)
    requires
        !concerns(req, other),
    ensures
        q.step(req).0.topics.contains_key(other) == q.topics.contains_key(other),
        q.step(req).0.topic(other) == q.topic(other),
{
    match req {
        AppRequest::AckMany { topic, group, lease_ids } => {
            lemma_ack_all_apart(q, topic@, group@, lease_ids@, other);
        },
        AppRequest::NackMany { topic, group, lease_ids } => {
            lemma_nack_all_apart(q, topic@, group@, lease_ids@, other);
        },
        AppRequest::ProduceMany { items } => {
            let views = item_views(items@);
            assert forall|i: int| 0 <= i < views.len() implies (#[trigger] views[i]).topic
                != other by {
                assert(views[i] == items@[i]@);
            }
            lemma_produce_all_apart(q, views, other);
        },
        _ => {},
    }
}

proof fn lemma_produce_all_apart(q: QueueView, items: Seq<ProduceItemView>, other: Seq<char>)
    requires
        forall|i: int| 0 <= i < items.len() ==> (#[trigger] items[i]).topic != other,
    ensures
        q.produce_all(items).0.topics.contains_key(other) == q.topics.contains_key(other),
        q.produce_all(items).0.topic(other) == q.topic(other),
    decreases items.len(),
{
    if items.len() > 0 {
        lemma_produce_all_apart(q, items.drop_last(), other);
    }
}

proof fn lemma_ack_all_apart(
    q: QueueView,
    topic: Seq<char>,
    group: Seq<char>,
    lease_ids: Seq<LeaseId>,
    other: Seq<char>,
)
    requires
        topic != other,
    ensures
        q.ack_all(topic, group, lease_ids).topics.contains_key(other) == q.topics.contains_key(
            other,
        ),
        q.ack_all(topic, group, lease_ids).topic(other) == q.topic(other),
    decreases lease_ids.len(),
{
    if lease_ids.len() > 0 {
        lemma_ack_all_apart(q, topic, group, lease_ids.drop_last(), other);
    }
}

proof fn lemma_nack_all_apart(
    q: QueueView,
    topic: Seq<char>,
    group: Seq<char>,
    lease_ids: Seq<LeaseId>,
    other: Seq<char>,
)
    requires
        topic != other,
    ensures
        q.nack_all(topic, group, lease_ids).topics.contains_key(other) == q.topics.contains_key(
            other,
        ),
        q.nack_all(topic, group, lease_ids).topic(other) == q.topic(other),
    decreases lease_ids.len(),
{
    if lease_ids.len() > 0 {
        lemma_nack_all_apart(q, topic, group, lease_ids.drop_last(), other);
    }
}

} // verus!
