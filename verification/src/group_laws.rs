//! What the queue promises of one group: that the others leave it alone, that giving back
//! what was polled undoes the poll, and that commits only move on.
use crate::command::AppRequest;
use crate::delivery_laws::deliverable;
use crate::group::{lemma_commit_tidy, lemma_prune_tidy};
use crate::lifecycle_laws::{acks_drop_only_consumed, stale_ack_changes_nothing};
use crate::model::{
    lemma_prefix_len, lemma_prefix_len_unique, lemma_run_end, run_end, GroupView, QueueView,
    TopicView,
};
use crate::queue_lemmas::{lemma_queue_ack_all, lemma_queue_nack, lemma_topic_of};
use crate::topic_lemmas::{
    lemma_commit, lemma_drop_front, lemma_group_ack, lemma_group_of, lemma_reclaim,
    lemma_unconsumed, lemma_with_group,
};
use crate::types::{LeaseId, MessageView};
use vstd::prelude::*;

verus! {

/// A group is as it was: it has polled as often, holds the same leases and has the same
/// watermark; of the retained messages it is done with the same ones, and only messages
/// have gone that it was done with. So the same messages are deliverable to it.
pub open spec fn undisturbed(t: TopicView, r: TopicView, group: Seq<char>) -> bool {
    let (a, b) = (t.group(group), r.group(group));
    &&& r.groups.contains_key(group)
    &&& b.poll_count == a.poll_count
    &&& b.in_flight == a.in_flight
    &&& b.ack_watermark == a.ack_watermark
    &&& r.next_offset == t.next_offset
    &&& t.first_offset() <= r.first_offset()
    &&& r.log == t.log.skip(r.first_offset() - t.first_offset())
    &&& forall|o: u64| r.first_offset() <= o ==> (#[trigger] b.done(o) <==> a.done(o))
    &&& forall|o: u64| t.first_offset() <= o < r.first_offset() ==> #[trigger] a.done(o)
}

/// An undisturbed group may be given the same messages at every moment.
proof fn lemma_undisturbed(t: TopicView, r: TopicView, group: Seq<char>, offset: u64, now_ms: u64)
    requires
        undisturbed(t, r, group),
    ensures
        deliverable(r, group, offset, now_ms) <==> deliverable(t, group, offset, now_ms),
{
    let (a, b) = (t.group(group), r.group(group));
    assert(b.expire(now_ms).in_flight =~= a.expire(now_ms).in_flight);
    if t.first_offset() <= offset < r.first_offset() {
        assert(a.done(offset));
    }
    if r.first_offset() <= offset {
        assert(b.done(offset) <==> a.done(offset));
    }
}

proof fn lemma_undisturbed_then(a: TopicView, b: TopicView, c: TopicView, group: Seq<char>)
    requires
        undisturbed(a, b, group),
        undisturbed(b, c, group),
    ensures
        undisturbed(a, c, group),
{
    assert(c.log =~= a.log.skip(c.first_offset() - a.first_offset()));
    assert forall|o: u64| c.first_offset() <= o implies (#[trigger] c.group(group).done(o)
        <==> a.group(group).done(o)) by {
        assert(b.group(group).done(o) <==> a.group(group).done(o));
    }
    assert forall|o: u64| a.first_offset() <= o < c.first_offset() implies #[trigger] a.group(
        group,
    ).done(o) by {
        if b.first_offset() <= o {
            assert(b.group(group).done(o));
        }
    }
}

proof fn lemma_same_group(t: TopicView, r: TopicView, group: Seq<char>)
    requires
        r.groups.contains_key(group),
        r.group(group) == t.group(group),
        r.log == t.log,
        r.next_offset == t.next_offset,
    ensures
        undisturbed(t, r, group),
{
    assert(t.log.skip(0) =~= t.log);
}

/// Another group that changes, with what is then consumed reclaimed, does not disturb the
/// group.
proof fn lemma_other_group(t: TopicView, by: Seq<char>, g: GroupView, group: Seq<char>)
    requires
        t.wf(),
        g.wf(t.first_offset(), t.next_offset as int),
        by != group,
        t.groups.contains_key(group),
    ensures
        undisturbed(t, t.with_group(by, g).reclaim(), group),
{
    let u = t.with_group(by, g);
    let r = u.reclaim();
    acks_drop_only_consumed(t, by, g);
    lemma_with_group(t, by, g);
    lemma_reclaim(u);
    lemma_drop_front(u, u.consumed());
    let (a, b) = (t.groups[group], r.groups[group]);
    assert(u.groups[group] == a);
    assert(u.groups.contains_key(group));
    assert(b == a.prune(r.first_offset()));
    lemma_prune_tidy(a, r.first_offset());
    assert forall|o: u64| t.first_offset() <= o < r.first_offset() implies #[trigger] t.group(
        group,
    ).done(o) by {
        assert(u.done_by_all(o));
    }
    assert forall|id: LeaseId| #[trigger] a.in_flight.contains_key(id) implies r.first_offset()
        <= a.in_flight[id].offset by {
        let o = a.in_flight[id].offset;
        assert(!a.done(o));
        if o < r.first_offset() {
            assert(t.group(group).done(o));
        }
    }
    assert(b.in_flight =~= a.in_flight);
}

/// The command is one of the group on the topic.
pub open spec fn comes_from(req: AppRequest, topic: Seq<char>, group: Seq<char>) -> bool {
    match req {
        AppRequest::Poll { topic: t, group: g, .. } => t@ == topic && g@ == group,
        AppRequest::Ack { topic: t, group: g, .. } => t@ == topic && g@ == group,
        AppRequest::AckMany { topic: t, group: g, .. } => t@ == topic && g@ == group,
        AppRequest::Nack { topic: t, group: g, .. } => t@ == topic && g@ == group,
        AppRequest::NackMany { topic: t, group: g, .. } => t@ == topic && g@ == group,
        AppRequest::CommitOffset { topic: t, group: g, .. } => t@ == topic && g@ == group,
        _ => false,
    }
}

/// Whatever a group polls, acks, nacks or commits, every other group of the topic is left
/// alone: what is deliverable to it, at every moment, stays what it was.
pub proof fn a_group_leaves_the_others_alone(
    q: QueueView,
    req: AppRequest,
    topic: Seq<char>,
    group: Seq<char>,
    other: Seq<char>,
    offset: u64,
    now_ms: u64,
)
    requires
        q.wf(),
        comes_from(req, topic, group),
        other != group,
        q.topic(topic).groups.contains_key(other),
    ensures
        undisturbed(q.topic(topic), q.step(req).0.topic(topic), other),
        deliverable(q.step(req).0.topic(topic), other, offset, now_ms) <==> deliverable(
            q.topic(topic),
            other,
            offset,
            now_ms,
        ),
{
    let t = q.topic(topic);
    let r = q.step(req).0.topic(topic);
    assert(q.topics.contains_key(topic));
    match req {
        AppRequest::Poll { .. } => {
            lemma_same_group(t, r, other);
        },
        AppRequest::Nack { .. } => {
            lemma_same_group(t, r, other);
        },
        AppRequest::NackMany { lease_ids, .. } => {
            lemma_nacks_undisturbed(q, topic, group, lease_ids@, other);
        },
        AppRequest::Ack { lease_id, .. } => {
            lemma_ack_undisturbed(t, group, lease_id, other);
        },
        AppRequest::AckMany { lease_ids, .. } => {
            lemma_acks_undisturbed(q, topic, group, lease_ids@, other);
        },
        AppRequest::CommitOffset { offset: upto, .. } => {
            lemma_commit(t, group, upto);
            lemma_group_of(t, group);
            let g = t.group(group);
            lemma_commit_tidy(g, upto);
            let h = g.commit(upto);
            assert forall|id: LeaseId| #[trigger] h.in_flight.contains_key(id) implies t.first_offset()
                <= h.in_flight[id].offset < t.next_offset by {
                assert(g.in_flight.contains_key(id));
            }
            lemma_other_group(t, group, h, other);
        },
        _ => {},
    }
    lemma_undisturbed(t, r, other, offset, now_ms);
}

proof fn lemma_ack_undisturbed(t: TopicView, by: Seq<char>, lease_id: LeaseId, group: Seq<char>)
    requires
        t.wf(),
        by != group,
        t.groups.contains_key(group),
    ensures
        undisturbed(t, t.ack(by, lease_id), group),
{
    if t.groups.contains_key(by) {
        lemma_group_ack(t.groups[by], lease_id, t.first_offset(), t.next_offset as int);
        lemma_other_group(t, by, t.groups[by].ack(lease_id), group);
    } else {
        lemma_same_group(t, t, group);
    }
}

proof fn lemma_acks_undisturbed(
    q: QueueView,
    topic: Seq<char>,
    by: Seq<char>,
    lease_ids: Seq<LeaseId>,
    group: Seq<char>,
)
    requires
        q.wf(),
        by != group,
        q.topics.contains_key(topic),
        q.topic(topic).groups.contains_key(group),
    ensures
        q.ack_all(topic, by, lease_ids).topics.contains_key(topic),
        undisturbed(q.topic(topic), q.ack_all(topic, by, lease_ids).topic(topic), group),
    decreases lease_ids.len(),
{
    let t = q.topic(topic);
    if lease_ids.len() == 0 {
        lemma_same_group(t, t, group);
    } else {
        let front = lease_ids.drop_last();
        lemma_acks_undisturbed(q, topic, by, front, group);
        lemma_queue_ack_all(q, topic, by, front);
        let u = q.ack_all(topic, by, front).topic(topic);
        lemma_ack_undisturbed(u, by, lease_ids.last(), group);
        lemma_undisturbed_then(t, u, u.ack(by, lease_ids.last()), group);
    }
}

proof fn lemma_nacks_undisturbed(
    q: QueueView,
    topic: Seq<char>,
    by: Seq<char>,
    lease_ids: Seq<LeaseId>,
    group: Seq<char>,
)
    requires
        by != group,
        q.topics.contains_key(topic),
        q.topic(topic).groups.contains_key(group),
    ensures
        q.nack_all(topic, by, lease_ids).topics.contains_key(topic),
        undisturbed(q.topic(topic), q.nack_all(topic, by, lease_ids).topic(topic), group),
    decreases lease_ids.len(),
{
    let t = q.topic(topic);
    if lease_ids.len() == 0 {
        lemma_same_group(t, t, group);
    } else {
        let front = lease_ids.drop_last();
        lemma_nacks_undisturbed(q, topic, by, front, group);
        let u = q.nack_all(topic, by, front).topic(topic);
        let r = q.nack_all(topic, by, lease_ids).topic(topic);
        lemma_same_group(u, r, group);
        lemma_undisturbed_then(t, u, r, group);
    }
}

/// The numbers from `first` on, `n` of them.
pub open spec fn numbers_from(first: u64, n: nat) -> Seq<LeaseId> {
    Seq::new(n, |i: int| (first + i) as u64)
}

/// A poll whose leases are all given back leaves the group as it found it: what was
/// deliverable from that moment on is deliverable still, the group is done with the same
/// messages, all messages are there, and of the leases only those are out that were out
/// before and had not run out.
pub proof fn a_poll_that_is_nacked_leaves_what_it_found(
    q: QueueView,
    topic: Seq<char>,
    group: Seq<char>,
    max: u32,
    visibility_timeout_ms: u64,
    ts_ms: u64,
    offset: u64,
    now_ms: u64,
)
    requires
        q.wf(),
        q.topics.contains_key(topic),
        q.next_lease_id + q.topic(topic).polled(group, max, ts_ms).len() <= u64::MAX,
        ts_ms <= now_ms,
    ensures
        ({
            let (polled, items) = q.poll(topic, group, max, visibility_timeout_ms, ts_ms);
            let ids = Seq::new(items.len(), |i: int| items[i].lease_id);
            let t = q.topic(topic);
            let r = polled.nack_all(topic, group, ids).topic(topic);
            let (g, h) = (t.group(group), r.group(group));
            &&& r.log == t.log
            &&& r.next_offset == t.next_offset
            &&& h.ack_watermark == g.ack_watermark
            &&& h.acked_above == g.acked_above
            &&& h.in_flight == g.expire(ts_ms).in_flight
            &&& forall|i: int| 0 <= i < ids.len() ==> !h.in_flight.contains_key(#[trigger] ids[i])
            &&& deliverable(r, group, offset, now_ms) <==> deliverable(t, group, offset, now_ms)
        }),
{
    let (polled, items) = q.poll(topic, group, max, visibility_timeout_ms, ts_ms);
    let ids = Seq::new(items.len(), |i: int| items[i].lease_id);
    let t = q.topic(topic);
    let n = items.len();
    assert(ids =~= numbers_from(q.next_lease_id, n));
    lemma_nacked(q, topic, group, max, visibility_timeout_ms, ts_ms, n);
    let r = polled.nack_all(topic, group, ids).topic(topic);
    let (g, h) = (t.group(group), r.group(group));
    assert(numbers_from(q.next_lease_id, n).take(n as int) =~= numbers_from(q.next_lease_id, n));
    assert(h.in_flight =~= g.expire(ts_ms).in_flight);
    lemma_topic_of(q, topic);
    assert forall|i: int| 0 <= i < ids.len() implies !h.in_flight.contains_key(
        #[trigger] ids[i],
    ) by {
        if g.in_flight.contains_key(ids[i]) {
            assert(t.groups.contains_key(group));
            assert(t.groups[group].leases_below(q.next_lease_id));
        }
    }
    assert(h.expire(now_ms).in_flight =~= g.expire(now_ms).in_flight);
}

/// Where the topic stands after `k` of the handed out leases were given back.
proof fn lemma_nacked(
    q: QueueView,
    topic: Seq<char>,
    group: Seq<char>,
    max: u32,
    visibility_timeout_ms: u64,
    ts_ms: u64,
    k: nat,
)
    requires
        q.wf(),
        q.topics.contains_key(topic),
        q.next_lease_id + q.topic(topic).polled(group, max, ts_ms).len() <= u64::MAX,
        k <= q.topic(topic).polled(group, max, ts_ms).len(),
    ensures
        ({
            let t = q.topic(topic);
            let n = t.polled(group, max, ts_ms).len();
            let polled = q.poll(topic, group, max, visibility_timeout_ms, ts_ms).0;
            let after = polled.nack_all(topic, group, numbers_from(q.next_lease_id, k));
            let r = after.topic(topic);
            let (g, h) = (t.group(group), r.group(group));
            &&& after.topics.contains_key(topic)
            &&& r.groups.contains_key(group)
            &&& r.log == t.log
            &&& r.next_offset == t.next_offset
            &&& h.ack_watermark == g.ack_watermark
            &&& h.acked_above == g.acked_above
            &&& forall|id: LeaseId| #[trigger]
                h.in_flight.contains_key(id) <==> g.expire(ts_ms).in_flight.contains_key(id)
                    || q.next_lease_id + k <= id < q.next_lease_id + n
            &&& forall|id: LeaseId| #[trigger]
                g.expire(ts_ms).in_flight.contains_key(id) ==> h.in_flight[id] == g.in_flight[id]
        }),
    decreases k,
{
    let t = q.topic(topic);
    let (g, first) = (t.group(group), q.next_lease_id);
    assert forall|id: LeaseId| #[trigger] g.in_flight.contains_key(id) implies id < first by {
        assert(t.groups.contains_key(group));
        assert(t.leases_below(first));
        assert(t.groups[group].leases_below(first));
    }
    if k > 0 {
        let j = (k - 1) as nat;
        lemma_nacked(q, topic, group, max, visibility_timeout_ms, ts_ms, j);
        assert(numbers_from(first, k).drop_last() =~= numbers_from(first, j));
        assert(numbers_from(first, k).last() == first + j);
        assert forall|id: LeaseId| #[trigger] g.expire(ts_ms).in_flight.contains_key(id) implies id
            < first by {
            assert(g.in_flight.contains_key(id));
        }
    } else {
        let polled = q.poll(topic, group, max, visibility_timeout_ms, ts_ms).0;
        let h = polled.topic(topic).group(group);
        assert(numbers_from(first, 0) =~= Seq::empty());
        assert forall|id: LeaseId| #[trigger]
            g.expire(ts_ms).in_flight.contains_key(id) implies h.in_flight[id]
            == g.in_flight[id] by {
            assert(g.in_flight.contains_key(id));
        }
    }
}

/// To give back a lease that is not out, or of an unknown topic or group, changes nothing.
pub proof fn stale_nack_changes_nothing(
    q: QueueView,
    topic: Seq<char>,
    group: Seq<char>,
    lease_id: LeaseId,
)
    requires
        !q.topic(topic).group(group).in_flight.contains_key(lease_id),
    ensures
        q.nack(topic, group, lease_id) == q,
{
    if q.topics.contains_key(topic) {
        let t = q.topics[topic];
        if t.groups.contains_key(group) {
            let g = t.groups[group];
            assert(g.in_flight.remove(lease_id) =~= g.in_flight);
            assert(t.groups.insert(group, g) =~= t.groups);
        }
        assert(t.nack(group, lease_id) == t);
        assert(q.topics.insert(topic, t) =~= q.topics);
    }
}

/// After a lease was given back, to give it back again or to ack it changes nothing.
pub proof fn a_nacked_lease_is_gone(
    q: QueueView,
    topic: Seq<char>,
    group: Seq<char>,
    lease_id: LeaseId,
)
    requires
        q.wf(),
    ensures
        q.nack(topic, group, lease_id).nack(topic, group, lease_id) == q.nack(
            topic,
            group,
            lease_id,
        ),
        q.nack(topic, group, lease_id).ack(topic, group, lease_id) == q.nack(
            topic,
            group,
            lease_id,
        ),
{
    let r = q.nack(topic, group, lease_id);
    assert(!r.topic(topic).group(group).in_flight.contains_key(lease_id));
    stale_nack_changes_nothing(r, topic, group, lease_id);
    if r.topics.contains_key(topic) {
        lemma_queue_nack(q, topic, group, lease_id);
        stale_ack_changes_nothing(r.topics[topic], group, lease_id);
        assert(r.topics.insert(topic, r.topics[topic]) =~= r.topics);
    }
}

/// The run of offsets from the watermark on ends where the first one is missing.
proof fn lemma_run_end_unique(watermark: u64, above: Set<u64>, end: u64)
    requires
        watermark <= end,
        forall|o: u64| watermark <= o < end ==> #[trigger] above.contains(o),
        !above.contains(end),
    ensures
        run_end(watermark, above) == end,
{
    lemma_run_end(watermark, above);
    let e = run_end(watermark, above);
    if e < end {
        assert(above.contains(e));
    }
    if end < e {
        assert(above.contains(end));
    }
}

/// The larger of two offsets.
pub open spec fn later(a: u64, b: u64) -> u64 {
    if a <= b {
        b
    } else {
        a
    }
}

/// Two commits of a group do to it what the larger one does.
proof fn lemma_group_commits(g: GroupView, a: u64, b: u64)
    requires
        g.tidy(),
    ensures
        g.commit(a).commit(b) == g.commit(later(a, b)),
{
    let w1 = later(g.ack_watermark, a);
    let above1 = Set::new(|o: u64| g.acked_above.contains(o) && w1 <= o);
    lemma_run_end(w1, above1);
    let e1 = run_end(w1, above1);
    let g1 = g.commit(a);
    assert(g1.ack_watermark == e1);
    lemma_commit_tidy(g, a);
    let w2 = later(e1, b);
    let above2 = Set::new(|o: u64| g1.acked_above.contains(o) && w2 <= o);
    let w = later(g.ack_watermark, later(a, b));
    let above = Set::new(|o: u64| g.acked_above.contains(o) && w <= o);
    let goal = g.commit(later(a, b));
    let r = g1.commit(b);
    if b <= e1 {
        assert(!above2.contains(e1)) by {
            assert(g1.acked_above.contains(e1) ==> g1.ack_watermark < e1);
        }
        lemma_run_end_unique(w2, above2, e1);
        assert(!above.contains(e1)) by {
            if g.acked_above.contains(e1) {
                assert(above1.contains(e1));
            }
        }
        assert forall|o: u64| w <= o < e1 implies #[trigger] above.contains(o) by {
            assert(above1.contains(o));
        }
        lemma_run_end_unique(w, above, e1);
        assert(r.acked_above =~= goal.acked_above);
        assert forall|id: LeaseId| #[trigger] g.in_flight.contains_key(id) && w
            <= g.in_flight[id].offset implies e1 <= g.in_flight[id].offset by {
            let o = g.in_flight[id].offset;
            assert(!g.done(o));
            if o < e1 {
                assert(above1.contains(o));
            }
        }
        assert(r.in_flight =~= goal.in_flight);
    } else {
        assert(above2 =~= above);
        assert(r.acked_above =~= goal.acked_above);
        assert(r.in_flight =~= goal.in_flight);
    }
}

/// What a commit lets the topic reclaim lies below the watermark of the group that
/// committed: nothing is to be forgotten of the group itself.
proof fn lemma_commit_prunes_nothing(t: TopicView, group: Seq<char>, offset: u64)
    requires
        t.wf(),
    ensures
        t.commit(group, offset).group(group) == t.group(group).commit(offset),
{
    let g = t.group(group);
    let h = g.commit(offset);
    let u = t.with_group(group, h);
    let r = u.reclaim();
    lemma_group_of(t, group);
    lemma_commit_tidy(g, offset);
    lemma_commit(t, group, offset);
    lemma_reclaim(u);
    lemma_drop_front(u, u.consumed());
    let p = |m: MessageView| u.done_by_all(m.offset);
    lemma_prefix_len(u.log, p);
    let (first, end) = (t.first_offset(), r.first_offset());
    assert forall|o: u64| first <= o < end implies #[trigger] h.done(o) by {
        assert(p(u.log[o - first]));
        assert(u.groups.contains_key(group));
    }
    if first < end {
        lemma_unconsumed(t);
        let o = t.log[0].offset;
        assert(o == first);
        assert(h.done(o));
        if t.groups.contains_key(group) {
            assert(t.groups.dom().contains(group));
            assert(t.groups.dom().len() > 0);
            assert(!t.done_by_all(o));
            assert(!g.done(o)) by {
                if g.done(o) {
                    assert(p(u.log[0]));
                    assert forall|n: Seq<char>| #[trigger] t.groups.contains_key(n) implies t.groups[n].done(
                        o,
                    ) by {
                        if n != group {
                            assert(u.groups.contains_key(n));
                            assert(u.groups[n] == t.groups[n]);
                        }
                    }
                }
            }
            assert(o < offset);
        } else {
            assert(g.acked_above =~= Set::empty());
        }
    }
    assert forall|o: u64| #[trigger] h.acked_above.contains(o) implies end <= o by {
        if o < end {
            assert(g.acked_above.contains(o));
            assert(first <= o);
            lemma_run_end(
                later(g.ack_watermark, offset),
                Set::new(|x: u64| g.acked_above.contains(x) && later(g.ack_watermark, offset) <= x),
            );
            assert(h.ack_watermark >= offset);
            assert(h.ack_watermark < o);
            assert(first <= h.ack_watermark < end);
            assert(h.done(h.ack_watermark));
            assert(!h.acked_above.contains(h.ack_watermark));
        }
    }
    assert forall|id: LeaseId| #[trigger] h.in_flight.contains_key(id) implies end
        <= h.in_flight[id].offset by {
        let o = h.in_flight[id].offset;
        assert(!h.done(o));
        assert(g.in_flight.contains_key(id));
        if o < end {
            assert(h.done(o));
        }
    }
    assert(r.groups[group] == h.prune(end));
    assert(h.prune(end) =~= h);
}

/// Two commits of a group have the effect of the larger one, whichever comes first.
pub proof fn two_commits_have_the_effect_of_the_larger(
    q: QueueView,
    topic: Seq<char>,
    group: Seq<char>,
    a: u64,
    b: u64,
)
    requires
        q.wf(),
    ensures
        q.commit(topic, group, a).commit(topic, group, b) == q.commit(topic, group, later(a, b)),
{
    if q.topics.contains_key(topic) {
        let t = q.topics[topic];
        lemma_topic_commits(t, group, a, b);
        let r = t.commit(group, a).commit(group, b);
        assert(q.topics.insert(topic, t.commit(group, a)).insert(topic, r) =~= q.topics.insert(
            topic,
            r,
        ));
    }
}

proof fn lemma_topic_commits(
    t: TopicView,
    group: Seq<char>,
    a: u64,
    b: u64,
)
    requires
        t.wf(),
    ensures
        t.commit(group, a).commit(group, b) == t.commit(group, later(a, b)),
{
    let g = t.group(group);
    lemma_group_of(t, group);
    lemma_commit(t, group, a);
    lemma_commit_prunes_nothing(t, group, a);
    lemma_group_commits(g, a, b);
    let c = later(a, b);
    let (ga, gc) = (g.commit(a), g.commit(c));
    lemma_commit_tidy(g, a);
    lemma_commit_tidy(g, c);
    lemma_commit_tidy(ga, b);
    let ua = t.with_group(group, ga);
    let t1 = ua.reclaim();
    assert(t1 == t.commit(group, a));
    lemma_reclaim(ua);
    lemma_drop_front(ua, ua.consumed());
    let pa = |m: MessageView| ua.done_by_all(m.offset);
    lemma_prefix_len(ua.log, pa);
    let f1 = t1.first_offset();
    // After the first commit the group stands as it does after the larger one alone.
    let u2 = t1.with_group(group, gc);
    lemma_commit(t1, group, b);
    assert(t1.commit(group, b) == u2.reclaim());
    lemma_reclaim(u2);
    let p2 = |m: MessageView| u2.done_by_all(m.offset);
    lemma_prefix_len(u2.log, p2);
    lemma_drop_front(u2, u2.consumed());
    let uc = t.with_group(group, gc);
    lemma_commit(t, group, c);
    lemma_reclaim(uc);
    let pc = |m: MessageView| uc.done_by_all(m.offset);
    let n1 = ua.consumed();
    let n2 = u2.consumed();
    assert(u2.log == ua.log.skip(n1 as int));
    assert(uc.groups.contains_key(group) && ua.groups.contains_key(group)
        && u2.groups.contains_key(group));
    assert(uc.groups.dom().len() > 0) by {
        assert(uc.groups.dom().contains(group));
    }
    assert(ua.groups.dom().len() > 0) by {
        assert(ua.groups.dom().contains(group));
    }
    assert(u2.groups.dom().len() > 0) by {
        assert(u2.groups.dom().contains(group));
    }
    assert forall|o: u64| #[trigger] ga.done(o) implies gc.done(o) by {
        assert(gc == ga.commit(b));
    }
    assert forall|o: u64| #[trigger] ua.done_by_all(o) implies uc.done_by_all(o) by {
        assert forall|n: Seq<char>| #[trigger] uc.groups.contains_key(n) implies uc.groups[n].done(
            o,
        ) by {
            assert(ua.groups.contains_key(n));
            assert(ua.groups[n].done(o));
        }
    }
    assert forall|o: u64| f1 <= o implies (#[trigger] u2.done_by_all(o) <==> uc.done_by_all(o)) by {
        assert forall|n: Seq<char>| #[trigger] t.groups.contains_key(n) && n != group implies (
        u2.groups[n].done(o) <==> t.groups[n].done(o)) by {
            assert(ua.groups[n] == t.groups[n]);
            assert(t1.groups[n] == ua.groups[n].prune(f1));
            lemma_prune_tidy(t.groups[n], f1);
        }
        if u2.done_by_all(o) {
            assert forall|n: Seq<char>| #[trigger] uc.groups.contains_key(n) implies uc.groups[n].done(
                o,
            ) by {
                assert(u2.groups.contains_key(n));
                assert(u2.groups[n].done(o));
            }
        }
        if uc.done_by_all(o) {
            assert forall|n: Seq<char>| #[trigger] u2.groups.contains_key(n) implies u2.groups[n].done(
                o,
            ) by {
                assert(uc.groups.contains_key(n));
                assert(uc.groups[n].done(o));
            }
        }
    }
    let total = (n1 + n2) as nat;
    assert forall|i: int| 0 <= i < total implies pc(#[trigger] uc.log[i]) by {
        if i < n1 {
            assert(pa(ua.log[i]));
        } else {
            assert(u2.log[i - n1] == uc.log[i]);
            assert(p2(u2.log[i - n1]));
            assert(f1 <= uc.log[i].offset);
        }
    }
    if total < uc.log.len() {
        assert(u2.log[n2 as int] == uc.log[total as int]);
        assert(!p2(u2.log[n2 as int]));
        assert(f1 <= uc.log[total as int].offset);
    }
    lemma_prefix_len_unique(uc.log, pc, total);
    let (r, goal) = (u2.reclaim(), uc.reclaim());
    assert(r.log =~= goal.log);
    let f2 = goal.first_offset();
    assert forall|n: Seq<char>| #[trigger] goal.groups.contains_key(n) implies r.groups[n]
        == goal.groups[n] by {
        if n != group {
            assert(t.groups.contains_key(n));
            assert(ua.groups[n] == t.groups[n]);
            assert(r.groups[n] == t.groups[n].prune(f1).prune(f2));
            assert(t.groups[n].prune(f1).prune(f2) =~= t.groups[n].prune(f2));
        }
    }
    assert(r.groups =~= goal.groups);
    assert(r =~= goal);
}

} // verus!
