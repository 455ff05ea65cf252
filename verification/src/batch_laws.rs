//! A batch does what its commands would do one by one.
use crate::command::{item_views, AppRequest, AppResponseView, ProduceItem};
use crate::model::QueueView;
use crate::types::{GroupId, LeaseId, TopicId};
use vstd::prelude::*;

verus! {

/// The command that produces one item.
pub open spec fn producing(item: ProduceItem) -> AppRequest {
    AppRequest::Produce {
        topic: item.topic,
        priority: item.priority,
        content_type: item.content_type,
        payload: item.payload,
        producer_id: item.producer_id,
        seq: item.seq,
        ts_ms: item.ts_ms,
    }
}

/// The queue after the items were produced by a command each, and the offsets in the
/// answers.
pub open spec fn produced_singly(q: QueueView, items: Seq<ProduceItem>) -> (QueueView, Seq<u64>)
    decreases items.len(),
{
    if items.len() == 0 {
        (q, Seq::empty())
    } else {
        let (before, offsets) = produced_singly(q, items.drop_last());
        let (after, answer) = before.step(producing(items.last()));
        (after, offsets.push(answer->Produced_offset))
    }
}

/// The queue after the leases were acked by a command each.
pub open spec fn acked_singly(
    q: QueueView,
    topic: TopicId,
    group: GroupId,
    lease_ids: Seq<LeaseId>,
) -> QueueView
    decreases lease_ids.len(),
{
    if lease_ids.len() == 0 {
        q
    } else {
        acked_singly(q, topic, group, lease_ids.drop_last()).step(
            AppRequest::Ack { topic, group, lease_id: lease_ids.last() },
        ).0
    }
}

/// The queue after the leases were nacked by a command each.
pub open spec fn nacked_singly(
    q: QueueView,
    topic: TopicId,
    group: GroupId,
    lease_ids: Seq<LeaseId>,
) -> QueueView
    decreases lease_ids.len(),
{
    if lease_ids.len() == 0 {
        q
    } else {
        nacked_singly(q, topic, group, lease_ids.drop_last()).step(
            AppRequest::Nack { topic, group, lease_id: lease_ids.last() },
        ).0
    }
}

/// To produce a batch is to produce its items one by one, and its answer holds the
/// offsets of all of them, in their order.
pub proof fn a_batch_is_produced_item_by_item(q: QueueView, items: Vec<ProduceItem>)
    ensures
        q.step(AppRequest::ProduceMany { items }) == (
            produced_singly(q, items@).0,
            AppResponseView::ProducedMany { offsets: produced_singly(q, items@).1 },
        ),
        produced_singly(q, items@).1.len() == items@.len(),
{
    lemma_produced_singly(q, items@);
}

proof fn lemma_produced_singly(q: QueueView, items: Seq<ProduceItem>)
    ensures
        q.produce_all(item_views(items)) == produced_singly(q, items),
        produced_singly(q, items).1.len() == items.len(),
    decreases items.len(),
{
    if items.len() > 0 {
        lemma_produced_singly(q, items.drop_last());
        assert(item_views(items).drop_last() =~= item_views(items.drop_last()));
        assert(item_views(items).last() == items.last()@);
    }
}

/// To ack a batch of leases is to ack them one by one.
pub proof fn a_batch_is_acked_lease_by_lease(
    q: QueueView,
    topic: TopicId,
    group: GroupId,
    lease_ids: Vec<LeaseId>,
)
    ensures
        q.step(AppRequest::AckMany { topic, group, lease_ids }).0 == acked_singly(
            q,
            topic,
            group,
            lease_ids@,
        ),
{
    lemma_acked_singly(q, topic, group, lease_ids@);
}

proof fn lemma_acked_singly(q: QueueView, topic: TopicId, group: GroupId, lease_ids: Seq<LeaseId>)
    ensures
        q.ack_all(topic@, group@, lease_ids) == acked_singly(q, topic, group, lease_ids),
    decreases lease_ids.len(),
{
    if lease_ids.len() > 0 {
        lemma_acked_singly(q, topic, group, lease_ids.drop_last());
    }
}

/// To nack a batch of leases is to nack them one by one.
pub proof fn a_batch_is_nacked_lease_by_lease(
    q: QueueView,
    topic: TopicId,
    group: GroupId,
    lease_ids: Vec<LeaseId>,
)
    ensures
        q.step(AppRequest::NackMany { topic, group, lease_ids }).0 == nacked_singly(
            q,
            topic,
            group,
            lease_ids@,
        ),
{
    lemma_nacked_singly(q, topic, group, lease_ids@);
}

proof fn lemma_nacked_singly(
    q: QueueView,
    topic: TopicId,
    group: GroupId,
    lease_ids: Seq<LeaseId>,
)
    ensures
        q.nack_all(topic@, group@, lease_ids) == nacked_singly(q, topic, group, lease_ids),
    decreases lease_ids.len(),
{
    if lease_ids.len() > 0 {
        lemma_nacked_singly(q, topic, group, lease_ids.drop_last());
    }
}

} // verus!
