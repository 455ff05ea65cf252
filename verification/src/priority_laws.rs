//! What the queue promises of the choice that a poll makes: most of its slots go by
//! priority, and the others to the oldest messages.
use crate::command::DeliveredView;
use crate::delivery_laws::{candidates_are_deliverable, deliverable, lemma_all_chosen};
use crate::model::{
    by_rank, choose_from, head_of, reserved_slots, rest_of, Candidate, GroupView, QueueView,
    TopicView,
};
use crate::select::{lemma_by_rank, lemma_choose_from, oldest_first, outranks};
use crate::seqs::{lemma_filter, lemma_filter_ordered};
use crate::topic_lemmas::lemma_polled;
use crate::types::LeaseId;
use vstd::prelude::*;

verus! {

/// The message waits for the group: it is retained, the group has neither acked it nor
/// committed past it, and no lease of the group that is still running holds it.
pub open spec fn waits(t: TopicView, group: Seq<char>, offset: u64, now_ms: u64) -> bool {
    let g = t.group(group);
    &&& t.next_offset - t.log.len() <= offset < t.next_offset
    &&& g.ack_watermark <= offset
    &&& !g.acked_above.contains(offset)
    &&& forall|id: LeaseId| #[trigger]
        g.in_flight.contains_key(id) ==> g.in_flight[id].offset != offset
            || g.in_flight[id].deadline_ms <= now_ms
}

/// The messages that wait for a group are those it may be given.
pub proof fn what_waits_is_deliverable(t: TopicView, group: Seq<char>, offset: u64, now_ms: u64)
    ensures
        waits(t, group, offset, now_ms) <==> deliverable(t, group, offset, now_ms),
{
    let g = t.group(group);
    let e = g.expire(now_ms);
    if waits(t, group, offset, now_ms) && e.leased(offset) {
        let id = choose|id: LeaseId| #[trigger]
            e.in_flight.contains_key(id) && e.in_flight[id].offset == offset;
        assert(g.in_flight.contains_key(id));
    }
    if deliverable(t, group, offset, now_ms) {
        assert forall|id: LeaseId| #[trigger] g.in_flight.contains_key(id) implies g.in_flight[id].offset
            != offset || g.in_flight[id].deadline_ms <= now_ms by {
            if g.in_flight[id].offset == offset && g.in_flight[id].deadline_ms > now_ms {
                assert(e.in_flight.contains_key(id));
            }
        }
    }
}

/// Every retained message waits for a group that has never been heard of.
pub proof fn everything_waits_for_a_new_group(
    t: TopicView,
    group: Seq<char>,
    offset: u64,
    now_ms: u64,
)
    requires
        !t.groups.contains_key(group),
        t.next_offset - t.log.len() <= offset < t.next_offset,
    ensures
        waits(t, group, offset, now_ms),
        deliverable(t, group, offset, now_ms),
{
    what_waits_is_deliverable(t, group, offset, now_ms);
}

/// The deliveries hold the message at `offset`.
pub open spec fn hands_out(items: Seq<DeliveredView>, offset: u64) -> bool {
    exists|i: int| 0 <= i < items.len() && (#[trigger] items[i]).offset == offset
}

/// The delivered message comes before the one of that priority at `offset`: its priority
/// is higher, or it is as high and the message is older.
pub open spec fn comes_before(d: DeliveredView, priority: u8, offset: u64) -> bool {
    d.priority.0 > priority || (d.priority.0 == priority && d.offset < offset)
}

/// What a poll chooses begins with what got the slots that go by priority.
proof fn lemma_head_first(c: Seq<Candidate>, max: nat, poll_count: nat, i: int)
    requires
        oldest_first(c),
        0 <= i < head_of(c, max, poll_count).len(),
    ensures
        i < choose_from(c, max, poll_count).len(),
        choose_from(c, max, poll_count)[i] == head_of(c, max, poll_count)[i],
    decreases i,
{
    let head = head_of(c, max, poll_count);
    let chosen = choose_from(c, max, poll_count);
    let ranked = by_rank(c);
    lemma_by_rank(c);
    lemma_choose_from(c, max, poll_count);
    assert forall|k: int| 0 <= k < i implies k < chosen.len() && chosen[k] == head[k] by {
        lemma_head_first(c, max, poll_count, k);
    }
    assert(head.contains(head[i]));
    assert(chosen.contains(head[i]));
    let j = choose|j: int| 0 <= j < chosen.len() && chosen[j] == head[i];
    assert(head[i] == ranked[i]);
    if j < i {
        assert(head[j] == ranked[j]);
        assert(outranks(ranked[j], ranked[i]));
    }
    if j > i {
        let x = chosen[i];
        assert(outranks(chosen[i], chosen[j]));
        assert(chosen.contains(x));
        assert(ranked.contains(x));
        let m = choose|m: int| 0 <= m < ranked.len() && ranked[m] == x;
        if m > i {
            assert(outranks(ranked[i], ranked[m]));
        } else if m < i {
            assert(head[m] == ranked[m]);
            assert(chosen[m] == x);
            assert(outranks(chosen[m], chosen[i]));
        }
    }
}

/// How a candidate that is not chosen stands to those that are.
proof fn lemma_left_out(c: Seq<Candidate>, max: nat, poll_count: nat, x: Candidate)
    requires
        oldest_first(c),
        c.contains(x),
        !choose_from(c, max, poll_count).contains(x),
    ensures
        ({
            let chosen = choose_from(c, max, poll_count);
            let n = max - reserved_slots(max, poll_count);
            &&& chosen.len() == max
            &&& forall|i: int| 0 <= i < n ==> outranks(#[trigger] chosen[i], x)
            &&& forall|i: int| n <= i < max ==> (#[trigger] chosen[i]).offset < x.offset
        }),
{
    let head = head_of(c, max, poll_count);
    let rest = rest_of(c, head, max);
    let chosen = choose_from(c, max, poll_count);
    let ranked = by_rank(c);
    let n = max - reserved_slots(max, poll_count);
    let free = |y: Candidate| !head.contains(y);
    let others = c.filter(free);
    lemma_by_rank(c);
    lemma_choose_from(c, max, poll_count);
    lemma_filter(c, free);
    lemma_filter_ordered(c, free, |a: Candidate, b: Candidate| a.offset < b.offset);
    assert(ranked.contains(x));
    let m = choose|m: int| 0 <= m < ranked.len() && ranked[m] == x;
    assert(n < ranked.len()) by {
        if n >= ranked.len() {
            assert(head == ranked);
            assert(head.contains(x));
        }
    }
    assert(head.len() == n);
    if m < n {
        assert(head[m] == x);
        assert(head.contains(x));
    }
    assert(others.contains(x));
    let p = choose|p: int| 0 <= p < others.len() && others[p] == x;
    assert(rest == if max - n < others.len() {
        others.take(max - n)
    } else {
        others
    });
    if p < rest.len() {
        assert(rest[p] == x);
        assert(rest.contains(x));
    }
    assert forall|i: int| 0 <= i < n implies outranks(#[trigger] chosen[i], x) by {
        lemma_head_first(c, max, poll_count, i);
        assert(head[i] == ranked[i]);
        assert(outranks(ranked[i], ranked[m]));
    }
    assert(chosen.len() == max) by {
        if c.len() < max {
            assert forall|i: int, j: int|
                0 <= i < chosen.len() && 0 <= j < chosen.len() && i != j implies (
            #[trigger] chosen[i]).offset != (#[trigger] chosen[j]).offset by {
                assert(chosen.contains(chosen[i]) && chosen.contains(chosen[j]));
                let a = choose|a: int| 0 <= a < c.len() && c[a] == chosen[i];
                let b = choose|b: int| 0 <= b < c.len() && c[b] == chosen[j];
                assert(a < b ==> c[a].offset < c[b].offset);
                assert(b < a ==> c[b].offset < c[a].offset);
                assert(i < j ==> outranks(chosen[i], chosen[j]));
                assert(j < i ==> outranks(chosen[j], chosen[i]));
            }
            lemma_all_chosen(c, chosen, x);
        }
    }
    assert forall|i: int| n <= i < max implies (#[trigger] chosen[i]).offset < x.offset by {
        let y = chosen[i];
        assert(chosen.contains(y));
        if head.contains(y) {
            let k = choose|k: int| 0 <= k < head.len() && head[k] == y;
            lemma_head_first(c, max, poll_count, k);
            assert(outranks(chosen[k], chosen[i]));
        }
        assert(rest.contains(y));
        let k = choose|k: int| 0 <= k < rest.len() && rest[k] == y;
        assert(others[k] == y);
        let before = |a: Candidate, b: Candidate| a.offset < b.offset;
        assert(before(others[k], others[p]));
    }
}

/// Of the `max` slots of a poll a quarter, and in every fourth poll of a group one more,
/// is kept for the oldest messages; the others go by priority. So a message that waits and
/// is left out finds every slot taken: the first ones by messages that come before it, and
/// the kept ones by messages that are older than it.
pub proof fn a_poll_leaves_out_only_what_has_to_wait(
    q: QueueView,
    topic: Seq<char>,
    group: Seq<char>,
    max: u32,
    visibility_timeout_ms: u64,
    ts_ms: u64,
    offset: u64,
)
    requires
        q.wf(),
        q.topics.contains_key(topic),
        waits(q.topics[topic], group, offset, ts_ms),
        !hands_out(q.poll(topic, group, max, visibility_timeout_ms, ts_ms).1, offset),
    ensures
        ({
            let t = q.topics[topic];
            let items = q.poll(topic, group, max, visibility_timeout_ms, ts_ms).1;
            let priority = t.log[offset - (t.next_offset - t.log.len())].priority.0;
            let number = t.group(group).poll_count + 1;
            &&& items.len() == max
            &&& forall|i: int|
                0 <= i < max - max / 4 - 1 ==> comes_before(#[trigger] items[i], priority, offset)
            &&& number % 4 != 0 ==> forall|i: int|
                0 <= i < max - max / 4 ==> comes_before(#[trigger] items[i], priority, offset)
            &&& forall|i: int|
                max - max / 4 <= i < max ==> (#[trigger] items[i]).offset < offset
            &&& number % 4 == 0 ==> forall|i: int|
                0 <= i && max - max / 4 - 1 <= i < max ==> (#[trigger] items[i]).offset < offset
        }),
{
    let t = q.topics[topic];
    let items = q.poll(topic, group, max, visibility_timeout_ms, ts_ms).1;
    let g: GroupView = t.group(group).expire(ts_ms);
    let c = t.candidates(g);
    let chosen = t.polled(group, max, ts_ms);
    let x = Candidate { priority: t.log[offset - t.first_offset()].priority.0, offset };
    what_waits_is_deliverable(t, group, offset, ts_ms);
    candidates_are_deliverable(t, group, ts_ms);
    lemma_polled(t, group, max, ts_ms);
    assert(c.contains(x));
    if chosen.contains(x) {
        let i = choose|i: int| 0 <= i < chosen.len() && chosen[i] == x;
        assert(items[i].offset == offset);
    }
    lemma_left_out(c, max as nat, g.poll_count as nat, x);
    assert forall|i: int| 0 <= i < items.len() implies (#[trigger] items[i]).offset == chosen[i].offset
        && items[i].priority.0 == chosen[i].priority by {}
}

} // verus!
