//! What the queue promises of how long it keeps messages, by the settings of their topic.
use crate::command::{item_views, AppRequest, ProduceItemView};
use crate::history_laws::{
    consumes, consuming_keeps_the_frame, every_history_keeps_wf, item_of, keeps_topic,
    lemma_produce_all_counts, lemma_produce_counts, room_for, run,
};
use crate::lifecycle_laws::deletes;
use crate::model::{lemma_prefix_len, prefix_len, QueueView, TopicView};
use crate::produce_laws::{new_message_gets_the_next_offset, times_ascend};
use crate::queue_lemmas::{lemma_topic_of, step_keeps_wf};
use crate::topic_lemmas::{
    lemma_append, lemma_drop_front, lemma_reclaim, lemma_remember, lemma_settings,
    lemma_unretained,
};
use crate::types::MessageView;
use vstd::prelude::*;

verus! {

/// The topic has groups, and every one of them has acked the message or committed past it.
pub open spec fn finished_by_all(t: TopicView, offset: u64) -> bool {
    &&& exists|g: Seq<char>| #[trigger] t.groups.contains_key(g)
    &&& forall|g: Seq<char>| #[trigger]
        t.groups.contains_key(g) ==> offset < t.groups[g].ack_watermark
            || t.groups[g].acked_above.contains(offset)
}

/// The message of that time has been kept longer than the topic keeps messages, if it
/// limits their age.
pub open spec fn outlived(t: TopicView, ts_ms: u64, now_ms: u64) -> bool {
    t.retain_max_age_ms > 0 && now_ms - ts_ms > t.retain_max_age_ms
}

/// So many messages, the one at `offset` among them, are more than the topic keeps. A topic
/// for which nothing is set keeps a million; one that limits only the age keeps any number.
pub open spec fn crowded_out(t: TopicView, messages: int) -> bool {
    ||| t.retain_max_messages > 0 && messages > t.retain_max_messages
    ||| t.retain_max_messages == 0 && t.retain_max_age_ms == 0 && messages > 1_000_000
}

/// What is in the log once a new message is produced: the steps on the way.
proof fn lemma_purged(t: TopicView, item: ProduceItemView) -> (r: (TopicView, nat, nat))
    requires
        t.wf(),
        t.has_room(item),
        !t.is_resend(item),
    ensures
        ({
            let (noted, n, m) = r;
            let purged = noted.purge_retained(item.ts_ms);
            &&& noted.sound()
            &&& noted.log.len() == t.log.len() + 1
            &&& noted.next_offset == t.next_offset + 1
            &&& forall|i: int| 0 <= i < t.log.len() ==> #[trigger] noted.log[i] == t.log[i]
            &&& noted.log.last().ts_ms == item.ts_ms
            &&& noted.groups == t.groups
            &&& noted.retain_max_messages == t.retain_max_messages
            &&& noted.retain_max_age_ms == t.retain_max_age_ms
            &&& n == noted.unretained(item.ts_ms)
            &&& n <= noted.log.len()
            &&& purged.sound()
            &&& purged.log == noted.log.skip(n as int)
            &&& m == purged.consumed()
            &&& m <= purged.log.len()
            &&& t.produce(item).0 == purged.reclaim()
            &&& t.produce(item).0.log == noted.log.skip((n + m) as int)
            &&& t.produce(item).0.next_offset == noted.next_offset
        }),
{
    let c = TopicView { created: true, ..t };
    lemma_settings(t, c);
    let appended = c.append(item);
    lemma_append(c, item);
    let noted = if item.producer_id.len() > 0 {
        lemma_remember(appended, (item.producer_id, item.seq), c.next_offset);
        appended.remember((item.producer_id, item.seq), c.next_offset)
    } else {
        appended
    };
    lemma_unretained(noted, item.ts_ms);
    let n = noted.unretained(item.ts_ms);
    let purged = noted.purge_retained(item.ts_ms);
    lemma_drop_front(noted, n);
    lemma_reclaim(purged);
    let m = purged.consumed();
    lemma_prefix_len(purged.log, |x: MessageView| purged.done_by_all(x.offset));
    lemma_drop_front(purged, m);
    assert(t.produce(item).0.log =~= noted.log.skip((n + m) as int));
    (noted, n, m)
}

/// After a new message the log holds no more messages than are set, whatever age is set; a
/// million where neither is. Where messages are produced in the order of their times, none
/// that is kept is older than is set.
pub proof fn the_settings_bound_the_log(t: TopicView, item: ProduceItemView)
    requires
        t.wf(),
        t.has_room(item),
        !t.is_resend(item),
    ensures
        t.retain_max_messages > 0 ==> t.produce(item).0.log.len() <= t.retain_max_messages,
        t.retain_max_messages == 0 && t.retain_max_age_ms == 0 ==> t.produce(item).0.log.len()
            <= 1_000_000,
        t.retain_max_age_ms > 0 && times_ascend(t, item) ==> forall|i: int|
            0 <= i < t.produce(item).0.log.len() ==> item.ts_ms - (
            #[trigger] t.produce(item).0.log[i]).ts_ms <= t.retain_max_age_ms,
{
    let (noted, n, m) = lemma_purged(t, item);
    let r = t.produce(item).0;
    let p = |x: MessageView| noted.too_old(x, item.ts_ms);
    lemma_prefix_len(noted.log, p);
    if t.retain_max_age_ms > 0 && times_ascend(t, item) {
        assert forall|i: int| 0 <= i < r.log.len() implies item.ts_ms - (#[trigger] r.log[i]).ts_ms
            <= t.retain_max_age_ms by {
            let k = n + m + i;
            assert(r.log[i] == noted.log[k]);
            let aged = prefix_len(noted.log, p) as int;
            assert(!p(noted.log[aged]));
            if k < t.log.len() {
                assert(noted.log[aged] == t.log[aged] && noted.log[k] == t.log[k]);
            }
        }
    }
}

/// A new message takes no other out of the log without need: one that goes was finished by
/// every group, or is older than is set, or is one of more messages than are set, itself
/// and the newer ones counted. The log keeps its order, and what is kept is as it was.
pub proof fn a_message_goes_only_for_a_reason(t: TopicView, item: ProduceItemView, offset: u64)
    requires
        t.wf(),
        t.has_room(item),
        !t.is_resend(item),
        t.next_offset - t.log.len() <= offset < t.next_offset,
        !finished_by_all(t, offset),
        !crowded_out(t, t.next_offset + 1 - offset),
        !outlived(t, t.log[offset - (t.next_offset - t.log.len())].ts_ms, item.ts_ms),
    ensures
        ({
            let r = t.produce(item).0;
            let at = offset - (r.next_offset - r.log.len());
            &&& 0 <= at < r.log.len()
            &&& r.log[at] == t.log[offset - (t.next_offset - t.log.len())]
        }),
{
    let (noted, n, m) = lemma_purged(t, item);
    let r = t.produce(item).0;
    let j = offset - t.first_offset();
    let p = |x: MessageView| noted.too_old(x, item.ts_ms);
    lemma_prefix_len(noted.log, p);
    assert(noted.log[j] == t.log[j]);
    if j < prefix_len(noted.log, p) {
        assert(p(noted.log[j]));
    }
    assert(n <= j);
    let purged = noted.purge_retained(item.ts_ms);
    if j < n + m {
        let done = |x: MessageView| purged.done_by_all(x.offset);
        lemma_prefix_len(purged.log, done);
        assert(done(purged.log[j - n]));
        assert(purged.log[j - n] == t.log[j]);
        assert(t.log[j].offset == offset);
        assert(purged.groups.dom().len() > 0);
        let some = purged.groups.dom().choose();
        assert(purged.groups.dom().contains(some));
        assert(t.groups.contains_key(some));
        assert forall|g: Seq<char>| #[trigger] t.groups.contains_key(g) implies offset
            < t.groups[g].ack_watermark || t.groups[g].acked_above.contains(offset) by {
            assert(purged.groups.contains_key(g));
            assert(purged.groups[g].done(offset));
        }
    }
    assert(r.log[j - n - m] == noted.log[j]);
}

/// The command sets the retention of the topic.
pub open spec fn retains(req: AppRequest, topic: Seq<char>) -> bool {
    req matches AppRequest::SetRetention { topic: name, .. } && name@ == topic
}

proof fn lemma_step_keeps_retention(q: QueueView, req: AppRequest, topic: Seq<char>)
    requires
        q.wf(),
        q.has_room(req),
        !deletes(req, topic),
        !retains(req, topic),
    ensures
        q.step(req).0.topic(topic).retain_max_messages == q.topic(topic).retain_max_messages,
        q.step(req).0.topic(topic).retain_max_age_ms == q.topic(topic).retain_max_age_ms,
{
    match req {
        AppRequest::Produce { .. } => {
            lemma_produce_counts(q, item_of(req), topic);
        },
        AppRequest::ProduceMany { items } => {
            lemma_produce_all_counts(q, item_views(items@), topic);
        },
        _ => {
            if consumes(req) {
                consuming_keeps_the_frame(q, req, topic);
            }
        },
    }
}

/// The last retention set on a topic is the one in force: whatever follows short of another
/// one and of a deletion leaves it.
pub proof fn the_last_retention_is_in_force(
    q: QueueView,
    limit: AppRequest,
    reqs: Seq<AppRequest>,
    topic: Seq<char>,
)
    requires
        q.wf(),
        retains(limit, topic),
        room_for(q.step(limit).0, reqs),
        keeps_topic(reqs, topic),
        forall|i: int| 0 <= i < reqs.len() ==> !retains(#[trigger] reqs[i], topic),
    ensures
        limit matches AppRequest::SetRetention { max_messages, max_age_ms, .. } ==> {
            let t = run(q.step(limit).0, reqs).topic(topic);
            t.retain_max_messages == max_messages && t.retain_max_age_ms == max_age_ms
        },
    decreases reqs.len(),
{
    let start = q.step(limit).0;
    if reqs.len() > 0 {
        let front = reqs.drop_last();
        let req = reqs.last();
        assert(req == reqs[reqs.len() - 1]);
        assert forall|i: int| 0 <= i < front.len() implies !retains(#[trigger] front[i], topic)
            && !deletes(front[i], topic) by {
            assert(front[i] == reqs[i]);
        }
        the_last_retention_is_in_force(q, limit, front, topic);
        step_keeps_wf(q, limit);
        every_history_keeps_wf(start, front);
        lemma_step_keeps_retention(run(start, front), req, topic);
    }
}

/// Once a retention by number is set on a topic, a message that is produced to it leaves no
/// more messages in it than that, whatever age was set along with it and whatever happened
/// in between, short of another setting and of a deletion.
pub proof fn a_set_number_of_messages_is_kept_at_most(
    q: QueueView,
    limit: AppRequest,
    reqs: Seq<AppRequest>,
    req: AppRequest,
)
    requires
        q.wf(),
        req is Produce,
        retains(limit, item_of(req).topic),
        room_for(q.step(limit).0, reqs),
        keeps_topic(reqs, item_of(req).topic),
        forall|i: int| 0 <= i < reqs.len() ==> !retains(#[trigger] reqs[i], item_of(req).topic),
        run(q.step(limit).0, reqs).has_room(req),
        !run(q.step(limit).0, reqs).topic(item_of(req).topic).is_resend(item_of(req)),
    ensures
        limit matches AppRequest::SetRetention { max_messages, .. } ==> max_messages > 0 ==> run(
            q.step(limit).0,
            reqs,
        ).step(req).0.topic(item_of(req).topic).log.len() <= max_messages,
{
    let item = item_of(req);
    let start = q.step(limit).0;
    let before = run(start, reqs);
    the_last_retention_is_in_force(q, limit, reqs, item.topic);
    step_keeps_wf(q, limit);
    every_history_keeps_wf(start, reqs);
    lemma_topic_of(before, item.topic);
    the_settings_bound_the_log(before.topic(item.topic), item);
}

/// A new message is in the log at the offset it is answered with, whatever is set, unless
/// every group has committed past it.
pub proof fn a_new_message_is_there(t: TopicView, item: ProduceItemView)
    requires
        t.wf(),
        t.has_room(item),
        !t.is_resend(item),
        !finished_by_all(t, t.next_offset),
    ensures
        ({
            let (r, offset) = t.produce(item);
            let m = r.log[offset - (r.next_offset - r.log.len())];
            &&& r.next_offset - r.log.len() <= offset < r.next_offset
            &&& m.offset == offset
            &&& m.payload == item.payload
            &&& m.priority == item.priority
            &&& m.content_type == item.content_type
            &&& m.ts_ms == item.ts_ms
        }),
{
    let (noted, n, m) = lemma_purged(t, item);
    new_message_gets_the_next_offset(t, item);
    let r = t.produce(item).0;
    let last = t.log.len() as int;
    let p = |x: MessageView| noted.too_old(x, item.ts_ms);
    lemma_prefix_len(noted.log, p);
    assert(!p(noted.log[last]));
    if prefix_len(noted.log, p) > last {
        assert(p(noted.log[last]));
    }
    assert(n <= last);
    let purged = noted.purge_retained(item.ts_ms);
    let done = |x: MessageView| purged.done_by_all(x.offset);
    lemma_prefix_len(purged.log, done);
    if n + m > last {
        assert(done(purged.log[last - n]));
        assert(purged.log[last - n] == noted.log[last]);
        assert(noted.log[last].offset == t.next_offset);
        let some = purged.groups.dom().choose();
        assert(purged.groups.dom().contains(some));
        assert(t.groups.contains_key(some));
        assert forall|g: Seq<char>| #[trigger] t.groups.contains_key(g) implies t.next_offset
            < t.groups[g].ack_watermark || t.groups[g].acked_above.contains(t.next_offset) by {
            assert(purged.groups.contains_key(g));
            assert(purged.groups[g].done(t.next_offset));
        }
    }
}

} // verus!
