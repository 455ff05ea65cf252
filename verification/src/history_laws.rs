//! What the queue promises over any history of commands.
use crate::command::{item_views, AppRequest, AppResponseView, ProduceItemView};
use crate::lifecycle_laws::deletes;
use crate::model::{lemma_prefix_len, prefix_len, QueueView, TopicView, DEDUP_CAPACITY};
use crate::produce_laws::{message_of, new_message_gets_the_next_offset, produced_is_remembered};
use crate::queue_lemmas::{lemma_queue_produce_all, lemma_topic_of, step_keeps_wf};
use crate::topic_lemmas::{
    lemma_append, lemma_drop_front, lemma_reclaim, lemma_remember, lemma_settings,
    lemma_unretained,
};
use crate::types::{LeaseId, MessageView};
use vstd::prelude::*;

verus! {

/// The queue after the commands, one after the other.
pub open spec fn run(q: QueueView, reqs: Seq<AppRequest>) -> QueueView
    decreases reqs.len(),
{
    if reqs.len() == 0 {
        q
    } else {
        run(q, reqs.drop_last()).step(reqs.last()).0
    }
}

/// No counter runs over on the way.
pub open spec fn room_for(q: QueueView, reqs: Seq<AppRequest>) -> bool
    decreases reqs.len(),
{
    reqs.len() == 0 || {
        &&& room_for(q, reqs.drop_last())
        &&& run(q, reqs.drop_last()).has_room(reqs.last())
    }
}

/// None of the commands deletes the topic.
pub open spec fn keeps_topic(reqs: Seq<AppRequest>, topic: Seq<char>) -> bool {
    forall|i: int| 0 <= i < reqs.len() ==> !deletes(#[trigger] reqs[i], topic)
}

/// Whatever the history, the queue is well-formed.
pub proof fn every_history_keeps_wf(q: QueueView, reqs: Seq<AppRequest>)
    requires
        q.wf(),
        room_for(q, reqs),
    ensures
        run(q, reqs).wf(),
    decreases reqs.len(),
{
    if reqs.len() > 0 {
        every_history_keeps_wf(q, reqs.drop_last());
        step_keeps_wf(run(q, reqs.drop_last()), reqs.last());
    }
}

/// An empty queue is well-formed.
pub proof fn the_empty_queue_is_wf()
    ensures
        QueueView::fresh().wf(),
{
}

/// Replicas that start from equal queues and apply the same commands hold equal queues,
/// and give equal answers to every further command.
pub proof fn replicas_stay_equal(
    a: QueueView,
    b: QueueView,
    reqs: Seq<AppRequest>,
    next: AppRequest,
)
    requires
        a == b,
    ensures
        run(a, reqs) == run(b, reqs),
        run(a, reqs).step(next) == run(b, reqs).step(next),
{
}

/// The item that a command produces, where it produces one.
pub open spec fn item_of(req: AppRequest) -> ProduceItemView {
    match req {
        AppRequest::Produce {
            topic,
            priority,
            content_type,
            payload,
            producer_id,
            seq,
            ts_ms,
        } => ProduceItemView {
            topic: topic@,
            priority,
            content_type,
            payload: payload@,
            producer_id: producer_id@,
            seq,
            ts_ms,
        },
        _ => arbitrary(),
    }
}

/// How many of the items, produced one after the other, are new messages of the topic.
/// Where `keyed`, only those count that name their producer.
pub open spec fn new_among(
    q: QueueView,
    items: Seq<ProduceItemView>,
    topic: Seq<char>,
    keyed: bool,
) -> nat
    decreases items.len(),
{
    if items.len() == 0 {
        0
    } else {
        let before = q.produce_all(items.drop_last()).0;
        new_among(q, items.drop_last(), topic, keyed) + new_item(
            before,
            items.last(),
            topic,
            keyed,
        )
    }
}

/// One where the item is a new message of the topic. Where `keyed`, only an item counts
/// that names its producer.
pub open spec fn new_item(
    q: QueueView,
    item: ProduceItemView,
    topic: Seq<char>,
    keyed: bool,
) -> nat {
    if item.topic == topic && !q.topic(topic).is_resend(item) && (keyed ==> item.producer_id.len()
        > 0) {
        1
    } else {
        0
    }
}

/// How many new messages the command adds to the topic.
pub open spec fn new_by(q: QueueView, req: AppRequest, topic: Seq<char>, keyed: bool) -> nat {
    match req {
        AppRequest::Produce { .. } => new_item(q, item_of(req), topic, keyed),
        AppRequest::ProduceMany { items } => new_among(q, item_views(items@), topic, keyed),
        _ => 0,
    }
}

/// How many new messages the commands add to the topic since it was last deleted.
pub open spec fn new_messages(
    q: QueueView,
    reqs: Seq<AppRequest>,
    topic: Seq<char>,
    keyed: bool,
) -> nat
    decreases reqs.len(),
{
    if reqs.len() == 0 {
        0
    } else if deletes(reqs.last(), topic) {
        0
    } else {
        new_messages(q, reqs.drop_last(), topic, keyed) + new_by(
            run(q, reqs.drop_last()),
            reqs.last(),
            topic,
            keyed,
        )
    }
}

/// What only producing and settings change in a topic is the same in both.
pub open spec fn same_frame(a: TopicView, b: TopicView) -> bool {
    &&& a.created == b.created
    &&& a.next_offset == b.next_offset
    &&& a.dedup == b.dedup
    &&& a.dedup_order == b.dedup_order
    &&& same_settings(a, b)
}

/// The topics have the same rate and retention.
pub open spec fn same_settings(a: TopicView, b: TopicView) -> bool {
    &&& a.rate_milli_per_sec == b.rate_milli_per_sec
    &&& a.burst == b.burst
    &&& a.retain_max_messages == b.retain_max_messages
    &&& a.retain_max_age_ms == b.retain_max_age_ms
}

/// The command is one of a consumer.
pub open spec fn consumes(req: AppRequest) -> bool {
    req is Poll || req is Ack || req is AckMany || req is Nack || req is NackMany
        || req is CommitOffset
}

proof fn lemma_ack_all_frame(
    q: QueueView,
    topic: Seq<char>,
    group: Seq<char>,
    lease_ids: Seq<LeaseId>,
    name: Seq<char>,
)
    ensures
        same_frame(q.topic(name), q.ack_all(topic, group, lease_ids).topic(name)),
        q.ack_all(topic, group, lease_ids).topics.contains_key(name) == q.topics.contains_key(name),
    decreases lease_ids.len(),
{
    if lease_ids.len() > 0 {
        lemma_ack_all_frame(q, topic, group, lease_ids.drop_last(), name);
    }
}

proof fn lemma_nack_all_frame(
    q: QueueView,
    topic: Seq<char>,
    group: Seq<char>,
    lease_ids: Seq<LeaseId>,
    name: Seq<char>,
)
    ensures
        same_frame(q.topic(name), q.nack_all(topic, group, lease_ids).topic(name)),
        q.nack_all(topic, group, lease_ids).topics.contains_key(name) == q.topics.contains_key(
            name,
        ),
    decreases lease_ids.len(),
{
    if lease_ids.len() > 0 {
        lemma_nack_all_frame(q, topic, group, lease_ids.drop_last(), name);
    }
}

/// What consumers do creates no topic, moves no offset counter, forgets no producer and
/// changes no setting.
pub proof fn consuming_keeps_the_frame(q: QueueView, req: AppRequest, topic: Seq<char>)
    requires
        consumes(req),
    ensures
        same_frame(q.topic(topic), q.step(req).0.topic(topic)),
        q.step(req).0.topics.contains_key(topic) == q.topics.contains_key(topic),
{
    match req {
        AppRequest::AckMany { topic: t, group, lease_ids } => {
            lemma_ack_all_frame(q, t@, group@, lease_ids@, topic);
        },
        AppRequest::NackMany { topic: t, group, lease_ids } => {
            lemma_nack_all_frame(q, t@, group@, lease_ids@, topic);
        },
        _ => {},
    }
}

pub proof fn lemma_produce_counts(q: QueueView, item: ProduceItemView, topic: Seq<char>)
    requires
        q.wf(),
        q.room_to_produce(item),
    ensures
        q.produce(item).0.topic(topic).next_offset == q.topic(topic).next_offset + new_item(
            q,
            item,
            topic,
            false,
        ),
        same_settings(q.topic(topic), q.produce(item).0.topic(topic)),
        q.topic(topic).created ==> q.produce(item).0.topic(topic).created,
        q.topics.contains_key(topic) ==> q.produce(item).0.topics.contains_key(topic),
{
    if item.topic == topic {
        lemma_topic_of(q, topic);
        let t = q.topic(topic);
        if !t.is_resend(item) {
            new_message_gets_the_next_offset(t, item);
        }
    }
}

pub proof fn lemma_produce_all_counts(q: QueueView, items: Seq<ProduceItemView>, topic: Seq<char>)
    requires
        q.wf(),
        q.room_to_produce_all(items),
    ensures
        q.produce_all(items).0.topic(topic).next_offset == q.topic(topic).next_offset + new_among(
            q,
            items,
            topic,
            false,
        ),
        same_settings(q.topic(topic), q.produce_all(items).0.topic(topic)),
        q.topic(topic).created ==> q.produce_all(items).0.topic(topic).created,
        q.topics.contains_key(topic) ==> q.produce_all(items).0.topics.contains_key(topic),
    decreases items.len(),
{
    if items.len() > 0 {
        lemma_produce_all_counts(q, items.drop_last(), topic);
        lemma_queue_produce_all(q, items.drop_last());
        lemma_produce_counts(q.produce_all(items.drop_last()).0, items.last(), topic);
    }
}

/// A command moves the offset counter of a topic by the number of the new messages.
proof fn lemma_step_counts(q: QueueView, req: AppRequest, topic: Seq<char>)
    requires
        q.wf(),
        q.has_room(req),
        !deletes(req, topic),
    ensures
        q.step(req).0.topic(topic).next_offset == q.topic(topic).next_offset + new_by(
            q,
            req,
            topic,
            false,
        ),
        q.topic(topic).created ==> q.step(req).0.topic(topic).created,
        q.topics.contains_key(topic) ==> q.step(req).0.topics.contains_key(topic),
{
    match req {
        AppRequest::Produce { .. } => {
            lemma_produce_counts(q, item_of(req), topic);
        },
        AppRequest::ProduceMany { items } => {
            lemma_produce_all_counts(q, item_views(items@), topic);
        },
        _ => {
            if consumes(req) {
                consuming_keeps_the_frame(q, req, topic);
            }
        },
    }
}

/// The next offset of a topic is the number of new messages it was sent since it was last
/// deleted: the offsets run up from zero with no gap and no reuse, whatever was acked,
/// committed or dropped meanwhile.
pub proof fn offsets_count_the_new_messages(reqs: Seq<AppRequest>, topic: Seq<char>)
    requires
        room_for(QueueView::fresh(), reqs),
    ensures
        run(QueueView::fresh(), reqs).topic(topic).next_offset == new_messages(
            QueueView::fresh(),
            reqs,
            topic,
            false,
        ),
    decreases reqs.len(),
{
    let q = QueueView::fresh();
    if reqs.len() > 0 {
        let front = reqs.drop_last();
        offsets_count_the_new_messages(front, topic);
        every_history_keeps_wf(q, front);
        if !deletes(reqs.last(), topic) {
            lemma_step_counts(run(q, front), reqs.last(), topic);
        }
    }
}

/// Some group still wants the message at `offset`, or nobody consumes the topic.
pub open spec fn unclaimed(t: TopicView, offset: u64) -> bool {
    t.groups.dom().len() == 0 || !t.done_by_all(offset)
}

/// A new message is answered with the number of new messages before it. Unless every group
/// has committed past it, it lies at the end of the log as it was sent; no retention takes
/// it away.
pub proof fn a_new_message_is_numbered_and_kept(reqs: Seq<AppRequest>, req: AppRequest)
    requires
        room_for(QueueView::fresh(), reqs),
        req is Produce,
        run(QueueView::fresh(), reqs).has_room(req),
        !run(QueueView::fresh(), reqs).topic(item_of(req).topic).is_resend(item_of(req)),
    ensures
        ({
            let q = run(QueueView::fresh(), reqs);
            let item = item_of(req);
            let n = new_messages(QueueView::fresh(), reqs, item.topic, false);
            let (r, answer) = q.step(req);
            let t = r.topic(item.topic);
            &&& answer == AppResponseView::Produced { offset: n as u64 }
            &&& n < u64::MAX
            &&& t.next_offset == n + 1
            &&& unclaimed(q.topic(item.topic), n as u64) ==> t.log.len() > 0 && t.log.last()
                == message_of(item, n as u64)
        }),
{
    let fresh = QueueView::fresh();
    let q = run(fresh, reqs);
    let item = item_of(req);
    offsets_count_the_new_messages(reqs, item.topic);
    every_history_keeps_wf(fresh, reqs);
    lemma_topic_of(q, item.topic);
    let t = q.topic(item.topic);
    new_message_gets_the_next_offset(t, item);
    if unclaimed(t, t.next_offset) {
        lemma_new_message_kept(t, item);
    }
}

/// Neither age nor number takes a new message away, and reclaiming does only where every
/// group is done with it.
proof fn lemma_new_message_kept(t: TopicView, item: ProduceItemView)
    requires
        t.wf(),
        t.has_room(item),
        !t.is_resend(item),
        unclaimed(t, t.next_offset),
    ensures
        t.produce(item).0.log.len() > 0,
        t.produce(item).0.log.last() == message_of(item, t.next_offset),
{
    let n = t.next_offset;
    let c = TopicView { created: true, ..t };
    lemma_settings(t, c);
    let appended = c.append(item);
    lemma_append(c, item);
    let noted = if item.producer_id.len() > 0 {
        lemma_remember(appended, (item.producer_id, item.seq), n);
        appended.remember((item.producer_id, item.seq), n)
    } else {
        appended
    };
    let p = |m: MessageView| noted.too_old(m, item.ts_ms);
    lemma_prefix_len(noted.log, p);
    lemma_unretained(noted, item.ts_ms);
    let k = noted.unretained(item.ts_ms);
    let aged = prefix_len(noted.log, p);
    let last = noted.log.len() - 1;
    assert(noted.log[last].ts_ms == item.ts_ms);
    assert(!p(noted.log[last]));
    assert(aged <= last);
    assert(k <= last);
    let purged = noted.purge_retained(item.ts_ms);
    lemma_drop_front(noted, k);
    assert(purged.log.last() == noted.log[last]);
    lemma_reclaim(purged);
    let done = |m: MessageView| purged.done_by_all(m.offset);
    lemma_prefix_len(purged.log, done);
    let r = purged.reclaim();
    if purged.groups.dom().len() > 0 && r.log.len() == 0 {
        assert(done(purged.log[purged.log.len() - 1]));
        assert(purged.done_by_all(n));
        assert(noted.done_by_all(n));
        assert(t.done_by_all(n));
    }
    assert(r == t.produce(item).0);
    assert(r.log.last() == purged.log.last());
}

/// The last rate limit set on a topic is the one in force: whatever follows short of
/// another one and of a deletion leaves it.
pub proof fn the_last_rate_limit_is_in_force(
    q: QueueView,
    limit: AppRequest,
    reqs: Seq<AppRequest>,
    topic: Seq<char>,
)
    requires
        q.wf(),
        limit matches AppRequest::SetRateLimit { topic: name, .. } && name@ == topic,
        room_for(q.step(limit).0, reqs),
        keeps_topic(reqs, topic),
        forall|i: int| 0 <= i < reqs.len() ==> !limits(#[trigger] reqs[i], topic),
    ensures
        limit matches AppRequest::SetRateLimit { rate_milli_per_sec, burst, .. } ==> run(
            q.step(limit).0,
            reqs,
        ).rate_config(topic) == if rate_milli_per_sec > 0 {
            Some((rate_milli_per_sec, burst))
        } else {
            None
        },
    decreases reqs.len(),
{
    let start = q.step(limit).0;
    if reqs.len() > 0 {
        let front = reqs.drop_last();
        let req = reqs.last();
        assert(req == reqs[reqs.len() - 1]);
        assert forall|i: int| 0 <= i < front.len() implies !limits(#[trigger] front[i], topic)
            && !deletes(front[i], topic) by {
            assert(front[i] == reqs[i]);
        }
        the_last_rate_limit_is_in_force(q, limit, front, topic);
        step_keeps_wf(q, limit);
        every_history_keeps_wf(start, front);
        let before = run(start, front);
        lemma_step_keeps_rate(before, req, topic);
    }
}

/// The command sets the rate of the topic.
pub open spec fn limits(req: AppRequest, topic: Seq<char>) -> bool {
    req matches AppRequest::SetRateLimit { topic: name, .. } && name@ == topic
}

proof fn lemma_step_keeps_rate(q: QueueView, req: AppRequest, topic: Seq<char>)
    requires
        q.wf(),
        q.has_room(req),
        !deletes(req, topic),
        !limits(req, topic),
    ensures
        q.step(req).0.rate_config(topic) == q.rate_config(topic),
{
    match req {
        AppRequest::Produce { .. } => {
            lemma_produce_counts(q, item_of(req), topic);
        },
        AppRequest::ProduceMany { items } => {
            lemma_produce_all_counts(q, item_views(items@), topic);
        },
        _ => {
            if consumes(req) {
                consuming_keeps_the_frame(q, req, topic);
            }
        },
    }
    let r = q.step(req).0;
    if !q.topics.contains_key(topic) {
        assert(q.topic(topic) == TopicView::fresh());
    }
    assert(r.topic(topic).rate_milli_per_sec == q.topic(topic).rate_milli_per_sec);
    assert(r.topic(topic).burst == q.topic(topic).burst);
}

/// The window of a topic holds the sequence number with `newer` newer ones.
pub open spec fn in_window(t: TopicView, key: (Seq<char>, u64), newer: int) -> bool {
    &&& 0 <= newer < t.dedup_order.len()
    &&& t.dedup_order[t.dedup_order.len() - 1 - newer] == key
    &&& t.dedup.contains_key(key)
}

pub proof fn lemma_window_produce(
    q: QueueView,
    item: ProduceItemView,
    topic: Seq<char>,
    key: (Seq<char>, u64),
    newer: int,
)
    requires
        q.wf(),
        in_window(q.topic(topic), key, newer),
        newer + new_item(q, item, topic, true) < DEDUP_CAPACITY,
    ensures
        in_window(q.produce(item).0.topic(topic), key, newer + new_item(q, item, topic, true)),
        q.produce(item).0.topic(topic).dedup[key] == q.topic(topic).dedup[key],
{
    if item.topic == topic {
        lemma_topic_of(q, topic);
        let t = q.topic(topic);
        let r = q.produce(item).0.topic(topic);
        assert(r == t.produce(item).0);
        if new_item(q, item, topic, true) == 1 {
            let order = t.dedup_order.push((item.producer_id, item.seq));
            let at = t.dedup_order.len() - 1 - newer;
            assert(order[at] == key);
            if order.len() > DEDUP_CAPACITY {
                assert(at >= 1);
                assert(r.dedup_order == order.skip(1));
                assert(order.skip(1)[at - 1] == key);
                assert(order[0] == t.dedup_order[0]);
                assert(t.dedup_order[0] != key) by {
                    assert(t.dedup_order.no_duplicates());
                }
            }
            assert((item.producer_id, item.seq) != key);
        }
    }
}

proof fn lemma_window_produce_all(
    q: QueueView,
    items: Seq<ProduceItemView>,
    topic: Seq<char>,
    key: (Seq<char>, u64),
    newer: int,
)
    requires
        q.wf(),
        q.room_to_produce_all(items),
        in_window(q.topic(topic), key, newer),
        newer + new_among(q, items, topic, true) < DEDUP_CAPACITY,
    ensures
        in_window(
            q.produce_all(items).0.topic(topic),
            key,
            newer + new_among(q, items, topic, true),
        ),
        q.produce_all(items).0.topic(topic).dedup[key] == q.topic(topic).dedup[key],
    decreases items.len(),
{
    if items.len() > 0 {
        let front = items.drop_last();
        lemma_window_produce_all(q, front, topic, key, newer);
        lemma_queue_produce_all(q, front);
        lemma_window_produce(
            q.produce_all(front).0,
            items.last(),
            topic,
            key,
            newer + new_among(q, front, topic, true),
        );
    }
}

/// A sequence number stays in the window of its topic, with its offset, through any history
/// that does not delete the topic, while fewer newer ones follow than the window holds.
pub proof fn lemma_window_run(
    q: QueueView,
    reqs: Seq<AppRequest>,
    topic: Seq<char>,
    key: (Seq<char>, u64),
    newer: int,
)
    requires
        q.wf(),
        room_for(q, reqs),
        keeps_topic(reqs, topic),
        in_window(q.topic(topic), key, newer),
        newer + new_messages(q, reqs, topic, true) < DEDUP_CAPACITY,
    ensures
        in_window(run(q, reqs).topic(topic), key, newer + new_messages(q, reqs, topic, true)),
        run(q, reqs).topic(topic).dedup[key] == q.topic(topic).dedup[key],
        q.topic(topic).created ==> run(q, reqs).topic(topic).created,
        q.topics.contains_key(topic) ==> run(q, reqs).topics.contains_key(topic),
    decreases reqs.len(),
{
    if reqs.len() > 0 {
        let front = reqs.drop_last();
        let req = reqs.last();
        assert(req == reqs[reqs.len() - 1]);
        assert(keeps_topic(front, topic)) by {
            assert forall|i: int| 0 <= i < front.len() implies !deletes(#[trigger] front[i], topic) by {
                assert(front[i] == reqs[i]);
            }
        }
        lemma_window_run(q, front, topic, key, newer);
        every_history_keeps_wf(q, front);
        let mid = run(q, front);
        let k = newer + new_messages(q, front, topic, true);
        lemma_step_counts(mid, req, topic);
        match req {
            AppRequest::Produce { .. } => {
                lemma_window_produce(mid, item_of(req), topic, key, k);
            },
            AppRequest::ProduceMany { items } => {
                lemma_window_produce_all(mid, item_views(items@), topic, key, k);
            },
            _ => {
                if consumes(req) {
                    consuming_keeps_the_frame(mid, req, topic);
                }
            },
        }
    }
}

/// A message that is sent again is answered with its first offset and changes nothing,
/// whatever it now says and whatever has become of the first one, as long as the topic was
/// not deleted and fewer newer sequence numbers followed than the topic remembers.
pub proof fn a_resend_is_answered_with_the_first_offset(
    q: QueueView,
    first: AppRequest,
    reqs: Seq<AppRequest>,
    again: AppRequest,
)
    requires
        q.wf(),
        first is Produce,
        again is Produce,
        q.has_room(first),
        item_of(first).producer_id.len() > 0,
        !q.topic(item_of(first).topic).is_resend(item_of(first)),
        item_of(again).topic == item_of(first).topic,
        item_of(again).producer_id == item_of(first).producer_id,
        item_of(again).seq == item_of(first).seq,
        room_for(q.step(first).0, reqs),
        keeps_topic(reqs, item_of(first).topic),
        new_messages(q.step(first).0, reqs, item_of(first).topic, true) < 100_000,
    ensures
        run(q.step(first).0, reqs).step(again) == (run(q.step(first).0, reqs), q.step(first).1),
        q.step(first).1 == (AppResponseView::Produced {
            offset: q.topic(item_of(first).topic).next_offset,
        }),
{
    let item = item_of(first);
    let topic = item.topic;
    let key = (item.producer_id, item.seq);
    let t = q.topic(topic);
    let q1 = q.step(first).0;
    let t1 = q1.topic(topic);
    lemma_topic_of(q, topic);
    produced_is_remembered(t, item);
    new_message_gets_the_next_offset(t, item);
    step_keeps_wf(q, first);
    assert(t1 == t.produce(item).0);
    assert(in_window(t1, key, 0)) by {
        let order = t.dedup_order.push(key);
        assert(order.last() == key);
        if order.len() > 100_000 {
            assert(t1.dedup_order == order.skip(1));
        }
    }
    lemma_window_run(q1, reqs, topic, key, 0);
    let r = run(q1, reqs);
    let u = r.topic(topic);
    assert(t1.created);
    assert(u == (TopicView { created: true, ..u }));
    assert(u.is_resend(item_of(again)));
    assert(r.step(again).0.topics =~= r.topics);
    assert(r.step(again).0 == r);
}

} // verus!
