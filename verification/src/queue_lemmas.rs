//! What every command keeps of the queue.
use crate::command::{item_views, AppRequest, ProduceItemView};
use crate::model::{QueueView, TopicView};
use crate::topic_lemmas::{
    lemma_ack, lemma_commit, lemma_drop_keeps_leases, lemma_drop_nothing, lemma_nack, lemma_poll,
    lemma_produce, lemma_reclaim, lemma_settings,
};
use crate::types::LeaseId;
use vstd::prelude::*;

verus! {

/// A fresh topic is well-formed.
pub proof fn lemma_fresh_topic(next_lease: u64)
    ensures
        TopicView::fresh().wf(),
        TopicView::fresh().leases_below(next_lease),
{
    let t = TopicView::fresh();
    assert(t.dedup_order.to_set() =~= t.dedup.dom());
}

/// The topic of a name, whether it exists yet or not, is well-formed.
pub proof fn lemma_topic_of(q: QueueView, name: Seq<char>)
    requires
        q.wf(),
    ensures
        q.topic(name).wf(),
        q.topic(name).leases_below(q.next_lease_id),
{
    lemma_fresh_topic(q.next_lease_id);
}

/// Replacing a topic by a well-formed one keeps the queue well-formed.
pub proof fn lemma_with_topic(q: QueueView, name: Seq<char>, t: TopicView)
    requires
        q.wf(),
        t.wf(),
        t.leases_below(q.next_lease_id),
    ensures
        q.with_topic(name, t).wf(),
{
    let r = q.with_topic(name, t);
    assert forall|n: Seq<char>| #[trigger] r.topics.contains_key(n) implies r.topics[n].wf()
        && r.topics[n].leases_below(r.next_lease_id) by {
        if n != name {
            assert(q.topics.contains_key(n));
        }
    }
}

/// Reclaiming what was consumed makes a sound queue well-formed, and leaves a
/// well-formed one as it is.
pub proof fn lemma_queue_reclaim(q: QueueView)
    requires
        q.sound(),
    ensures
        q.reclaim().wf(),
        q.wf() ==> q.reclaim() == q,
{
    let r = q.reclaim();
    assert(r.topics.dom() =~= q.topics.dom());
    assert forall|n: Seq<char>| #[trigger] r.topics.contains_key(n) implies r.topics[n].wf()
        && r.topics[n].leases_below(r.next_lease_id) by {
        assert(q.topics.contains_key(n));
        lemma_reclaim(q.topics[n]);
        lemma_drop_keeps_leases(q.topics[n], q.topics[n].consumed(), q.next_lease_id);
    }
    if q.wf() {
        assert forall|n: Seq<char>| #[trigger] q.topics.contains_key(n) implies r.topics[n]
            == q.topics[n] by {
            lemma_drop_nothing(q.topics[n]);
        }
        assert(r.topics =~= q.topics);
    }
}

/// Producing one item.
pub proof fn lemma_queue_produce(q: QueueView, item: ProduceItemView)
    requires
        q.wf(),
        q.room_to_produce(item),
    ensures
        q.produce(item).0.wf(),
        q.produce(item).0.next_lease_id == q.next_lease_id,
{
    lemma_topic_of(q, item.topic);
    lemma_produce(q.topic(item.topic), item);
    lemma_with_topic(q, item.topic, q.topic(item.topic).produce(item).0);
}

/// Producing items one after the other.
pub proof fn lemma_queue_produce_all(q: QueueView, items: Seq<ProduceItemView>)
    requires
        q.wf(),
        q.room_to_produce_all(items),
    ensures
        q.produce_all(items).0.wf(),
        q.produce_all(items).0.next_lease_id == q.next_lease_id,
        q.produce_all(items).1.len() == items.len(),
    decreases items.len(),
{
    if items.len() > 0 {
        lemma_queue_produce_all(q, items.drop_last());
        lemma_queue_produce(q.produce_all(items.drop_last()).0, items.last());
    }
}

/// Room for all items is room for the first ones, and then for the next.
pub proof fn lemma_room_for_prefix(q: QueueView, items: Seq<ProduceItemView>, n: int)
    requires
        q.room_to_produce_all(items),
        0 <= n < items.len(),
    ensures
        q.room_to_produce_all(items.take(n)),
        q.produce_all(items.take(n)).0.room_to_produce(items[n]),
    decreases items.len(),
{
    let front = items.drop_last();
    if n == items.len() - 1 {
        assert(items.take(n) =~= front);
    } else {
        lemma_room_for_prefix(q, front, n);
        assert(front.take(n) =~= items.take(n));
    }
}

/// Producing `n` items moves an offset counter by no more than `n`.
proof fn lemma_offsets_bounded(q: QueueView, items: Seq<ProduceItemView>, topic: Seq<char>)
    requires
        q.wf(),
        q.room_to_produce_all(items),
    ensures
        q.produce_all(items).0.topic(topic).next_offset <= q.topic(topic).next_offset
            + items.len(),
    decreases items.len(),
{
    if items.len() > 0 {
        let front = items.drop_last();
        lemma_offsets_bounded(q, front, topic);
        lemma_queue_produce_all(q, front);
        let before = q.produce_all(front).0;
        lemma_topic_of(before, items.last().topic);
        lemma_produce(before.topic(items.last().topic), items.last());
    }
}

/// Room for as many items as there are in every topic is room for the items.
pub proof fn lemma_ample_for_all(q: QueueView, items: Seq<ProduceItemView>, n: nat)
    requires
        q.wf(),
        items.len() <= n,
        forall|i: int|
            0 <= i < items.len() ==> q.topic((#[trigger] items[i]).topic).next_offset + n
                <= u64::MAX,
    ensures
        q.room_to_produce_all(items),
    decreases items.len(),
{
    if items.len() > 0 {
        let front = items.drop_last();
        assert forall|i: int| 0 <= i < front.len() implies q.topic(
            (#[trigger] front[i]).topic,
        ).next_offset + n <= u64::MAX by {
            assert(front[i] == items[i]);
        }
        lemma_ample_for_all(q, front, n);
        lemma_offsets_bounded(q, front, items.last().topic);
        assert(items.last() == items[items.len() - 1]);
    }
}

/// The two topics give out the same offset next, and remember the same of the producers.
pub open spec fn same_outline(a: TopicView, b: TopicView) -> bool {
    &&& a.next_offset == b.next_offset
    &&& a.dedup == b.dedup
    &&& a.dedup_order == b.dedup_order
}

/// Whether there is room for an item, and what is remembered of it, depends on the
/// outline of the topic and on the producer and the sequence number alone.
pub proof fn lemma_same_outline(
    a: TopicView,
    b: TopicView,
    x: ProduceItemView,
    y: ProduceItemView,
)
    requires
        same_outline(a, b),
        x.producer_id == y.producer_id,
        x.seq == y.seq,
    ensures
        a.has_room(x) == b.has_room(y),
        same_outline(a.produce(x).0, b.produce(y).0),
{
}

/// Polling.
pub proof fn lemma_queue_poll(
    q: QueueView,
    topic: Seq<char>,
    group: Seq<char>,
    max: u32,
    visibility_timeout_ms: u64,
    ts_ms: u64,
)
    requires
        q.wf(),
        q.room_to_poll(topic, group, max, visibility_timeout_ms, ts_ms),
    ensures
        q.poll(topic, group, max, visibility_timeout_ms, ts_ms).0.wf(),
{
    if q.topics.contains_key(topic) {
        let t = q.topics[topic];
        lemma_poll(t, group, max, visibility_timeout_ms, ts_ms, q.next_lease_id);
        let r = q.poll(topic, group, max, visibility_timeout_ms, ts_ms).0;
        assert forall|n: Seq<char>| #[trigger] r.topics.contains_key(n) implies r.topics[n].wf()
            && r.topics[n].leases_below(r.next_lease_id) by {
            if n != topic {
                assert(q.topics.contains_key(n));
                lemma_later_lease(q.topics[n], q.next_lease_id, r.next_lease_id);
            }
        }
    }
}

/// Leases below a number are below every larger one.
pub proof fn lemma_later_lease(t: TopicView, a: u64, b: u64)
    requires
        t.leases_below(a),
        a <= b,
    ensures
        t.leases_below(b),
{
    assert forall|g: Seq<char>| #[trigger] t.groups.contains_key(g) implies t.groups[g].leases_below(
        b,
    ) by {
        assert(t.groups[g].leases_below(a));
    }
}

/// Acking one lease.
pub proof fn lemma_queue_ack(
    q: QueueView,
    topic: Seq<char>,
    group: Seq<char>,
    lease_id: LeaseId,
)
    requires
        q.wf(),
    ensures
        q.ack(topic, group, lease_id).wf(),
{
    if q.topics.contains_key(topic) {
        lemma_ack(q.topics[topic], group, lease_id);
        lemma_with_topic(q, topic, q.topics[topic].ack(group, lease_id));
    }
}

/// Nacking one lease.
pub proof fn lemma_queue_nack(
    q: QueueView,
    topic: Seq<char>,
    group: Seq<char>,
    lease_id: LeaseId,
)
    requires
        q.wf(),
    ensures
        q.nack(topic, group, lease_id).wf(),
{
    if q.topics.contains_key(topic) {
        lemma_nack(q.topics[topic], group, lease_id);
        lemma_with_topic(q, topic, q.topics[topic].nack(group, lease_id));
    }
}

/// Acking leases one after the other.
pub proof fn lemma_queue_ack_all(
    q: QueueView,
    topic: Seq<char>,
    group: Seq<char>,
    lease_ids: Seq<LeaseId>,
)
    requires
        q.wf(),
    ensures
        q.ack_all(topic, group, lease_ids).wf(),
    decreases lease_ids.len(),
{
    if lease_ids.len() > 0 {
        lemma_queue_ack_all(q, topic, group, lease_ids.drop_last());
        lemma_queue_ack(
            q.ack_all(topic, group, lease_ids.drop_last()),
            topic,
            group,
            lease_ids.last(),
        );
    }
}

/// Nacking leases one after the other.
pub proof fn lemma_queue_nack_all(
    q: QueueView,
    topic: Seq<char>,
    group: Seq<char>,
    lease_ids: Seq<LeaseId>,
)
    requires
        q.wf(),
    ensures
        q.nack_all(topic, group, lease_ids).wf(),
    decreases lease_ids.len(),
{
    if lease_ids.len() > 0 {
        lemma_queue_nack_all(q, topic, group, lease_ids.drop_last());
        lemma_queue_nack(
            q.nack_all(topic, group, lease_ids.drop_last()),
            topic,
            group,
            lease_ids.last(),
        );
    }
}

/// Every command for which there is room keeps the queue well-formed: the log of
/// each topic is a run of offsets, no lease holds a message that is done or that is
/// gone, no two leases of a group hold the same message, and nothing is kept that
/// every group has acked past.
pub proof fn step_keeps_wf(q: QueueView, req: AppRequest)
    requires
        q.wf(),
        q.has_room(req),
    ensures
        q.step(req).0.wf(),
{
    match req {
        AppRequest::CreateTopic { topic } => {
            lemma_topic_of(q, topic@);
            let t = q.topic(topic@);
            let r = TopicView { created: true, ..t };
            lemma_settings(t, r);
            lemma_with_topic(q, topic@, r);
        },
        AppRequest::DeleteTopic { topic } => {
            let r = q.step(req).0;
            assert forall|n: Seq<char>| #[trigger] r.topics.contains_key(n) implies r.topics[n].wf()
                && r.topics[n].leases_below(r.next_lease_id) by {
                assert(q.topics.contains_key(n));
            }
        },
        AppRequest::Produce {
            topic,
            priority,
            content_type,
            payload,
            producer_id,
            seq,
            ts_ms,
        } => {
            lemma_queue_produce(
                q,
                ProduceItemView {
                    topic: topic@,
                    priority,
                    content_type,
                    payload: payload@,
                    producer_id: producer_id@,
                    seq,
                    ts_ms,
                },
            );
        },
        AppRequest::ProduceMany { items } => {
            lemma_queue_produce_all(q, item_views(items@));
        },
        AppRequest::Poll { topic, group, max, visibility_timeout_ms, ts_ms } => {
            lemma_queue_poll(q, topic@, group@, max, visibility_timeout_ms, ts_ms);
        },
        AppRequest::Ack { topic, group, lease_id } => {
            lemma_queue_ack(q, topic@, group@, lease_id);
        },
        AppRequest::AckMany { topic, group, lease_ids } => {
            lemma_queue_ack_all(q, topic@, group@, lease_ids@);
        },
        AppRequest::Nack { topic, group, lease_id } => {
            lemma_queue_nack(q, topic@, group@, lease_id);
        },
        AppRequest::NackMany { topic, group, lease_ids } => {
            lemma_queue_nack_all(q, topic@, group@, lease_ids@);
        },
        AppRequest::CommitOffset { topic, group, offset } => {
            if q.topics.contains_key(topic@) {
                lemma_commit(q.topics[topic@], group@, offset);
                lemma_with_topic(q, topic@, q.topics[topic@].commit(group@, offset));
            }
        },
        AppRequest::SetRateLimit { topic, rate_milli_per_sec, burst } => {
            lemma_topic_of(q, topic@);
            let t = q.topic(topic@);
            let r = TopicView { rate_milli_per_sec, burst, ..t };
            lemma_settings(t, r);
            lemma_with_topic(q, topic@, r);
        },
        AppRequest::SetRetention { topic, max_messages, max_age_ms } => {
            lemma_topic_of(q, topic@);
            let t = q.topic(topic@);
            let r = TopicView {
                retain_max_messages: max_messages,
                retain_max_age_ms: max_age_ms,
                ..t
            };
            lemma_settings(t, r);
            lemma_with_topic(q, topic@, r);
        },
    }
}

} // verus!
