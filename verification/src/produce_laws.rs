//! What the queue promises of produced messages: their offsets, their
//! deduplication and how long they are kept.
use crate::command::{AppRequest, ProduceItemView};
use crate::lifecycle_laws::deletes;
use crate::model::{lemma_prefix_len, prefix_len, QueueView, TopicView};
use crate::topic_lemmas::{
    lemma_append, lemma_drop_front, lemma_reclaim, lemma_remember, lemma_settings,
    lemma_unretained,
};
use crate::types::{LeaseId, MessageView};
use vstd::prelude::*;

verus! {

/// The message that an item becomes at `offset`.
pub open spec fn message_of(item: ProduceItemView, offset: u64) -> MessageView {
    MessageView {
        offset,
        priority: item.priority,
        content_type: item.content_type,
        payload: item.payload,
        ts_ms: item.ts_ms,
    }
}

/// A new message gets the next offset and moves it up by one, so the offsets of a
/// topic ascend. What is kept of the log is its newest part, the new message at its
/// end, unless not even that is kept.
pub proof fn new_message_gets_the_next_offset(t: TopicView, item: ProduceItemView)
    requires
        t.wf(),
        t.has_room(item),
        !t.is_resend(item),
    ensures
        t.produce(item).1 == t.next_offset,
        t.produce(item).0.next_offset == t.next_offset + 1,
        t.produce(item).0.log == t.log.push(message_of(item, t.next_offset)).skip(
            t.produce(item).0.first_offset() - t.first_offset(),
        ),
{
    let c = TopicView { created: true, ..t };
    lemma_settings(t, c);
    let appended = c.append(item);
    lemma_append(c, item);
    let noted = if item.producer_id.len() > 0 {
        lemma_remember(appended, (item.producer_id, item.seq), c.next_offset);
        appended.remember((item.producer_id, item.seq), c.next_offset)
    } else {
        appended
    };
    lemma_unretained(noted, item.ts_ms);
    let n = noted.unretained(item.ts_ms);
    let purged = noted.purge_retained(item.ts_ms);
    lemma_drop_front(noted, n);
    lemma_reclaim(purged);
    let r = purged.reclaim();
    lemma_drop_front(purged, purged.consumed());
    assert(r == t.produce(item).0);
    assert(r.log =~= noted.log.skip((n + purged.consumed()) as int));
}

/// Without a producer name there is no deduplication: every message is new.
pub proof fn nameless_producer_is_never_a_resend(t: TopicView, item: ProduceItemView)
    requires
        item.producer_id.len() == 0,
    ensures
        !t.is_resend(item),
{
}

/// A produced message is remembered by its producer and its sequence number.
pub proof fn produced_is_remembered(t: TopicView, item: ProduceItemView)
    requires
        t.wf(),
        t.has_room(item),
        item.producer_id.len() > 0,
    ensures
        t.produce(item).0.dedup.contains_key((item.producer_id, item.seq)),
        t.produce(item).0.dedup[(item.producer_id, item.seq)] == t.produce(item).1,
{
    let c = TopicView { created: true, ..t };
    lemma_settings(t, c);
    if !c.is_resend(item) {
        lemma_append(c, item);
        lemma_remember(c.append(item), (item.producer_id, item.seq), c.next_offset);
    }
}

/// To send a remembered sequence number again, whatever the message now says, is
/// answered with the first offset and appends nothing.
pub proof fn resend_appends_nothing(t: TopicView, item: ProduceItemView)
    requires
        t.is_resend(item),
    ensures
        t.produce(item).1 == t.dedup[(item.producer_id, item.seq)],
        t.produce(item).0 == (TopicView { created: true, ..t }),
{
    let c = TopicView { created: true, ..t };
    assert(c.is_resend(item));
}

/// To produce a message twice, one right after the other, is to produce it once.
pub proof fn producing_twice_is_producing_once(t: TopicView, item: ProduceItemView)
    requires
        t.wf(),
        t.has_room(item),
        item.producer_id.len() > 0,
    ensures
        t.produce(item).0.produce(item) == t.produce(item),
{
    let r = t.produce(item).0;
    produced_is_remembered(t, item);
    resend_appends_nothing(r, item);
    assert(r.created);
    assert(r == (TopicView { created: true, ..r }));
}

/// What is remembered stays remembered while other messages are produced, until it
/// is the oldest of a full window and a new sequence number takes its place.
pub proof fn remembered_until_the_window_moves_on(
    t: TopicView,
    item: ProduceItemView,
    key: (Seq<char>, u64),
)
    requires
        t.wf(),
        t.dedup.contains_key(key),
        t.dedup_order.len() < 100_000 || t.dedup_order[0] != key || t.is_resend(item)
            || item.producer_id.len() == 0,
    ensures
        t.produce(item).0.dedup.contains_key(key),
        t.produce(item).0.dedup[key] == t.dedup[key],
{
}

/// The command produces to the topic.
pub open spec fn produces(req: AppRequest) -> bool {
    req is Produce || req is ProduceMany
}

/// No command but producing, and deleting the topic, touches what is remembered of
/// the producers.
pub proof fn only_producing_forgets(q: QueueView, req: AppRequest, topic: Seq<char>)
    requires
        !produces(req),
        !deletes(req, topic),
    ensures
        q.step(req).0.topic(topic).dedup == q.topic(topic).dedup,
        q.step(req).0.topic(topic).dedup_order == q.topic(topic).dedup_order,
{
    match req {
        AppRequest::AckMany { topic: t, group, lease_ids } => {
            lemma_ack_all_remembers(q, t@, group@, lease_ids@, topic);
        },
        AppRequest::NackMany { topic: t, group, lease_ids } => {
            lemma_nack_all_remembers(q, t@, group@, lease_ids@, topic);
        },
        _ => {},
    }
}

proof fn lemma_ack_all_remembers(
    q: QueueView,
    topic: Seq<char>,
    group: Seq<char>,
    lease_ids: Seq<LeaseId>,
    name: Seq<char>,
)
    ensures
        q.ack_all(topic, group, lease_ids).topic(name).dedup == q.topic(name).dedup,
        q.ack_all(topic, group, lease_ids).topic(name).dedup_order == q.topic(name).dedup_order,
    decreases lease_ids.len(),
{
    if lease_ids.len() > 0 {
        lemma_ack_all_remembers(q, topic, group, lease_ids.drop_last(), name);
    }
}

proof fn lemma_nack_all_remembers(
    q: QueueView,
    topic: Seq<char>,
    group: Seq<char>,
    lease_ids: Seq<LeaseId>,
    name: Seq<char>,
)
    ensures
        q.nack_all(topic, group, lease_ids).topic(name).dedup == q.topic(name).dedup,
        q.nack_all(topic, group, lease_ids).topic(name).dedup_order == q.topic(name).dedup_order,
    decreases lease_ids.len(),
{
    if lease_ids.len() > 0 {
        lemma_nack_all_remembers(q, topic, group, lease_ids.drop_last(), name);
    }
}

/// The messages stand in the order of their times, and `item` is none of the older ones.
pub open spec fn times_ascend(t: TopicView, item: ProduceItemView) -> bool {
    &&& forall|i: int, j: int|
        0 <= i < j < t.log.len() ==> (#[trigger] t.log[i]).ts_ms <= (#[trigger] t.log[j]).ts_ms
    &&& forall|i: int| 0 <= i < t.log.len() ==> (#[trigger] t.log[i]).ts_ms <= item.ts_ms
}

/// After a new message there are no more messages than the topic may keep, and where
/// messages are produced in the order of their times, none that is kept is too old.
pub proof fn retention_bounds_the_log(t: TopicView, item: ProduceItemView)
    requires
        t.wf(),
        t.has_room(item),
        !t.is_resend(item),
    ensures
        t.message_cap() matches Some(cap) ==> t.produce(item).0.log.len() <= cap,
        times_ascend(t, item) ==> forall|i: int|
            0 <= i < t.produce(item).0.log.len() ==> !t.too_old(
                #[trigger] t.produce(item).0.log[i],
                item.ts_ms,
            ),
{
    let c = TopicView { created: true, ..t };
    lemma_settings(t, c);
    let appended = c.append(item);
    lemma_append(c, item);
    let noted = if item.producer_id.len() > 0 {
        lemma_remember(appended, (item.producer_id, item.seq), c.next_offset);
        appended.remember((item.producer_id, item.seq), c.next_offset)
    } else {
        appended
    };
    lemma_unretained(noted, item.ts_ms);
    let n = noted.unretained(item.ts_ms);
    let purged = noted.purge_retained(item.ts_ms);
    lemma_drop_front(noted, n);
    lemma_reclaim(purged);
    let r = purged.reclaim();
    assert(r == t.produce(item).0);
    if times_ascend(t, item) {
        let k = (n + purged.consumed()) as int;
        let p = |m: MessageView| noted.too_old(m, item.ts_ms);
        lemma_prefix_len(noted.log, p);
        assert forall|i: int| 0 <= i < r.log.len() implies !t.too_old(
            #[trigger] r.log[i],
            item.ts_ms,
        ) by {
            assert(r.log[i] == noted.log[k + i]);
            let aged = prefix_len(noted.log, p) as int;
            assert(aged <= k + i);
            assert(!p(noted.log[aged]));
            assert(noted.log[aged].ts_ms <= noted.log[k + i].ts_ms);
        }
    }
}

} // verus!
