//! What the queue promises of delivery.
use crate::model::{
    choose_from, head_of, reserved_slots, rest_of, Candidate, QueueView, TopicView, RESERVED_DEN,
};
use crate::select::{lemma_choose_from, oldest_first, outranks};
use crate::seqs::lemma_filter_first;
use crate::topic_lemmas::{
    lemma_candidates, lemma_expire, lemma_group_of, lemma_poll, lemma_polled,
};
use crate::types::LeaseId;
use vstd::prelude::*;

verus! {

/// The group may be given `offset` at `now_ms`: the message is retained, the group
/// is not done with it, and no lease on it is still running.
pub open spec fn deliverable(t: TopicView, group: Seq<char>, offset: u64, now_ms: u64) -> bool {
    &&& t.first_offset() <= offset < t.next_offset
    &&& !t.group(group).done(offset)
    &&& !t.group(group).expire(now_ms).leased(offset)
}

/// A poll of the topic delivers the message at `offset`.
pub open spec fn delivers(
    t: TopicView,
    group: Seq<char>,
    max: u32,
    ts_ms: u64,
    offset: u64,
) -> bool {
    exists|i: int|
        0 <= i < t.polled(group, max, ts_ms).len() && (#[trigger] t.polled(
            group,
            max,
            ts_ms,
        )[i]).offset == offset
}

/// The candidates of a poll are the deliverable messages.
pub proof fn candidates_are_deliverable(t: TopicView, group: Seq<char>, now_ms: u64)
    requires
        t.wf(),
    ensures
        oldest_first(t.candidates(t.group(group).expire(now_ms))),
        forall|i: int|
            0 <= i < t.candidates(t.group(group).expire(now_ms)).len() ==> deliverable(
                t,
                group,
                (#[trigger] t.candidates(t.group(group).expire(now_ms))[i]).offset,
                now_ms,
            ),
        forall|o: u64| #[trigger]
            deliverable(t, group, o, now_ms) ==> t.candidates(
                t.group(group).expire(now_ms),
            ).contains(
                Candidate { priority: t.log[o - t.first_offset()].priority.0, offset: o },
            ),
{
    let g = t.group(group).expire(now_ms);
    lemma_candidates(t, g);
    lemma_group_of(t, group);
    lemma_expire(t.group(group), now_ms, t.first_offset(), t.next_offset as int);
    assert forall|i: int| 0 <= i < t.candidates(g).len() implies deliverable(
        t,
        group,
        (#[trigger] t.candidates(g)[i]).offset,
        now_ms,
    ) by {
        assert(g.done(t.candidates(g)[i].offset) == t.group(group).done(t.candidates(g)[i].offset));
    }
    assert forall|o: u64| #[trigger] deliverable(t, group, o, now_ms) implies t.candidates(
        g,
    ).contains(
        Candidate { priority: t.log[o - t.first_offset()].priority.0, offset: o },
    ) by {
        assert(t.log[o - t.first_offset()].offset == o);
        assert(g.done(o) == t.group(group).done(o));
    }
}

/// A poll hands out only deliverable messages, each of them once: nothing that the
/// group is done with, and nothing that is held under a lease that still runs.
pub proof fn poll_delivers_only_deliverable(t: TopicView, group: Seq<char>, max: u32, ts_ms: u64)
    requires
        t.wf(),
    ensures
        forall|o: u64| #[trigger]
            delivers(t, group, max, ts_ms, o) ==> deliverable(t, group, o, ts_ms),
        forall|i: int, j: int|
            0 <= i < j < t.polled(group, max, ts_ms).len() ==> (#[trigger] t.polled(
                group,
                max,
                ts_ms,
            )[i]).offset != (#[trigger] t.polled(group, max, ts_ms)[j]).offset,
{
    lemma_polled(t, group, max, ts_ms);
    lemma_group_of(t, group);
    lemma_expire(t.group(group), ts_ms, t.first_offset(), t.next_offset as int);
    assert forall|o: u64| #[trigger] delivers(t, group, max, ts_ms, o) implies deliverable(
        t,
        group,
        o,
        ts_ms,
    ) by {
        assert(t.group(group).expire(ts_ms).done(o) == t.group(group).done(o));
    }
}

/// A poll hands out as many messages as it may and as there are.
pub proof fn poll_delivers_all_it_can(t: TopicView, group: Seq<char>, max: u32, ts_ms: u64)
    requires
        t.wf(),
    ensures
        t.polled(group, max, ts_ms).len() == if t.candidates(
            t.group(group).expire(ts_ms),
        ).len() < max {
            t.candidates(t.group(group).expire(ts_ms)).len() as int
        } else {
            max as int
        },
        max >= t.candidates(t.group(group).expire(ts_ms)).len() ==> forall|o: u64| #[trigger]
            deliverable(t, group, o, ts_ms) ==> delivers(t, group, max, ts_ms, o),
{
    let g = t.group(group).expire(ts_ms);
    let c = t.candidates(g);
    let chosen = t.polled(group, max, ts_ms);
    lemma_polled(t, group, max, ts_ms);
    candidates_are_deliverable(t, group, ts_ms);
    if max >= c.len() {
        lemma_choose_from(c, max as nat, g.poll_count as nat);
        assert forall|o: u64| #[trigger] deliverable(t, group, o, ts_ms) implies delivers(
            t,
            group,
            max,
            ts_ms,
            o,
        ) by {
            let x = Candidate { priority: t.log[o - t.first_offset()].priority.0, offset: o };
            assert(c.contains(x));
            lemma_all_chosen(c, chosen, x);
            let i = choose|i: int| 0 <= i < chosen.len() && chosen[i] == x;
            assert(chosen[i].offset == o);
        }
    }
}

/// Distinct candidates taken from `c`, as many as there are, are all of them.
pub proof fn lemma_all_chosen(c: Seq<Candidate>, chosen: Seq<Candidate>, x: Candidate)
    requires
        c.contains(x),
        chosen.len() == c.len(),
        oldest_first(c),
        forall|y: Candidate| #[trigger] chosen.contains(y) ==> c.contains(y),
        forall|i: int, j: int|
            0 <= i < chosen.len() && 0 <= j < chosen.len() && i != j ==> (#[trigger] chosen[i]).offset
                != (#[trigger] chosen[j]).offset,
    ensures
        chosen.contains(x),
{
    assert(chosen.no_duplicates());
    assert(c.no_duplicates()) by {
        assert forall|i: int, j: int| 0 <= i < c.len() && 0 <= j < c.len() && i != j implies c[i]
            != c[j] by {
            if i < j {
                assert(c[i].offset < c[j].offset);
            } else {
                assert(c[j].offset < c[i].offset);
            }
        }
    }
    c.unique_seq_to_set();
    chosen.unique_seq_to_set();
    assert(chosen.to_set().subset_of(c.to_set()));
    vstd::set_lib::lemma_subset_equality(chosen.to_set(), c.to_set());
    assert(c.to_set().contains(x));
    assert(chosen.to_set().contains(x));
}

/// What a poll hands out is ordered: the higher priority first, and among equals the
/// older message first.
pub proof fn poll_delivers_in_priority_order(
    q: QueueView,
    topic: Seq<char>,
    group: Seq<char>,
    max: u32,
    visibility_timeout_ms: u64,
    ts_ms: u64,
)
    requires
        q.wf(),
    ensures
        ({
            let items = q.poll(topic, group, max, visibility_timeout_ms, ts_ms).1;
            forall|i: int, j: int|
                0 <= i < j < items.len() ==> {
                    ||| (#[trigger] items[i]).priority.0 > (#[trigger] items[j]).priority.0
                    ||| items[i].priority == items[j].priority && items[i].offset
                        < items[j].offset
                }
        }),
{
    if q.topics.contains_key(topic) {
        let t = q.topics[topic];
        let chosen = t.polled(group, max, ts_ms);
        let items = q.poll(topic, group, max, visibility_timeout_ms, ts_ms).1;
        lemma_polled(t, group, max, ts_ms);
        assert forall|i: int, j: int| 0 <= i < j < items.len() implies {
            ||| (#[trigger] items[i]).priority.0 > (#[trigger] items[j]).priority.0
            ||| items[i].priority == items[j].priority && items[i].offset < items[j].offset
        } by {
            assert(outranks(chosen[i], chosen[j]));
            assert(items[i].priority.0 == chosen[i].priority);
            assert(items[j].priority.0 == chosen[j].priority);
        }
    }
}

/// A poll that keeps a slot for the oldest messages serves the oldest one.
pub proof fn reserved_slot_serves_the_oldest(c: Seq<Candidate>, max: nat, poll_count: nat)
    requires
        oldest_first(c),
        c.len() > 0,
        reserved_slots(max, poll_count) > 0,
    ensures
        choose_from(c, max, poll_count).contains(c[0]),
{
    let head = head_of(c, max, poll_count);
    let rest = rest_of(c, head, max);
    let free = |x: Candidate| !head.contains(x);
    lemma_choose_from(c, max, poll_count);
    if !head.contains(c[0]) {
        lemma_filter_first(c, free, 0);
        assert(head.len() <= max - reserved_slots(max, poll_count));
        assert(rest[0] == c[0]);
        assert(rest.contains(c[0]));
    }
}

/// Of any four polls that follow one another, one keeps a slot for the oldest
/// messages; a poll for four messages or more always does.
pub proof fn one_poll_in_four_reserves_a_slot(max: nat, poll_count: nat)
    requires
        max > 0,
    ensures
        exists|k: nat| k < 4 && #[trigger] reserved_slots(max, poll_count + k) > 0,
        max >= 4 ==> reserved_slots(max, poll_count) > 0,
{
    let k: nat = (3 - poll_count % 4) as nat;
    assert((poll_count + k + 1) % RESERVED_DEN as nat == 0);
    assert(reserved_slots(max, poll_count + k) > 0);
}

/// The polls that a group makes one after the other.
pub open spec fn after_polls(
    t: TopicView,
    group: Seq<char>,
    maxes: Seq<u32>,
    visibilities: Seq<u64>,
    times: Seq<u64>,
    leases: Seq<u64>,
    n: int,
) -> TopicView
    decreases n,
{
    if n <= 0 {
        t
    } else {
        after_polls(t, group, maxes, visibilities, times, leases, n - 1).poll(
            group,
            maxes[n - 1],
            visibilities[n - 1],
            times[n - 1],
            leases[n - 1],
        )
    }
}

/// The oldest message that a group is not done with is served within four polls,
/// however many messages of a higher priority there are, unless it is leased.
pub proof fn oldest_is_served_within_four_polls(
    t: TopicView,
    group: Seq<char>,
    offset: u64,
    maxes: Seq<u32>,
    visibilities: Seq<u64>,
    times: Seq<u64>,
    leases: Seq<u64>,
)
    requires
        t.wf(),
        t.group(group).poll_count + 4 <= u64::MAX,
        t.first_offset() <= offset < t.next_offset,
        !t.group(group).done(offset),
        !t.group(group).leased(offset),
        forall|o: u64| t.first_offset() <= o < offset ==> #[trigger] t.group(group).done(o),
        maxes.len() == 4,
        forall|i: int| 0 <= i < 4 ==> #[trigger] maxes[i] > 0,
        forall|i: int|
            0 <= i < 4 ==> leases_fit(
                #[trigger] after_polls(t, group, maxes, visibilities, times, leases, i),
                group,
                maxes[i],
                times[i],
                leases[i],
            ),
    ensures
        exists|i: int|
            0 <= i < 4 && delivers(
                #[trigger] after_polls(t, group, maxes, visibilities, times, leases, i),
                group,
                maxes[i],
                times[i],
                offset,
            ),
{
    let at = |i: int| after_polls(t, group, maxes, visibilities, times, leases, i);
    if forall|i: int|
        0 <= i < 4 ==> !delivers(
            #[trigger] after_polls(t, group, maxes, visibilities, times, leases, i),
            group,
            maxes[i],
            times[i],
            offset,
        ) {
        let count = t.group(group).poll_count as nat;
        let k: int = 3 - count % 4;
        lemma_waiting(t, group, offset, maxes, visibilities, times, leases, k);
        let u = at(k);
        let g = u.group(group).expire(times[k]);
        let c = u.candidates(g);
        candidates_are_deliverable(u, group, times[k]);
        assert(!g.leased(offset)) by {
            if g.leased(offset) {
                let id = choose|id: LeaseId| #[trigger]
                    g.in_flight.contains_key(id) && g.in_flight[id].offset == offset;
                assert(u.group(group).in_flight.contains_key(id));
                assert(u.group(group).leased(offset));
            }
        }
        assert(deliverable(u, group, offset, times[k]));
        let x = Candidate {
            priority: u.log[offset - u.first_offset()].priority.0,
            offset,
        };
        assert(c.contains(x));
        let i = choose|i: int| 0 <= i < c.len() && c[i] == x;
        if i > 0 {
            assert(c[0].offset < c[i].offset);
            assert(deliverable(u, group, c[0].offset, times[k]));
            assert(t.group(group).done(c[0].offset));
        }
        assert(c[0] == x);
        assert((g.poll_count + 1) % RESERVED_DEN as int == 0);
        assert(reserved_slots(maxes[k] as nat, g.poll_count as nat) > 0) by {
            assert(maxes[k] > 0);
        }
        reserved_slot_serves_the_oldest(c, maxes[k] as nat, g.poll_count as nat);
        let chosen = u.polled(group, maxes[k], times[k]);
        let j = choose|j: int| 0 <= j < chosen.len() && chosen[j] == x;
        assert(chosen[j].offset == offset);
        assert(delivers(u, group, maxes[k], times[k], offset));
    }
}

/// The lease numbers from `next_lease` on are free in the topic and do not run over.
pub open spec fn leases_fit(
    t: TopicView,
    group: Seq<char>,
    max: u32,
    ts_ms: u64,
    next_lease: u64,
) -> bool {
    t.leases_below(next_lease) && next_lease + t.polled(group, max, ts_ms).len() <= u64::MAX
}

/// While it is not delivered, a message stays where it is.
proof fn lemma_waiting(
    t: TopicView,
    group: Seq<char>,
    offset: u64,
    maxes: Seq<u32>,
    visibilities: Seq<u64>,
    times: Seq<u64>,
    leases: Seq<u64>,
    n: int,
)
    requires
        t.wf(),
        0 <= n < 4,
        t.group(group).poll_count + 4 <= u64::MAX,
        !t.group(group).leased(offset),
        forall|i: int|
            0 <= i < 4 ==> leases_fit(
                #[trigger] after_polls(t, group, maxes, visibilities, times, leases, i),
                group,
                maxes[i],
                times[i],
                leases[i],
            ),
        forall|i: int|
            0 <= i < 4 ==> !delivers(
                #[trigger] after_polls(t, group, maxes, visibilities, times, leases, i),
                group,
                maxes[i],
                times[i],
                offset,
            ),
    ensures
        ({
            let u = after_polls(t, group, maxes, visibilities, times, leases, n);
            &&& u.wf()
            &&& u.log == t.log
            &&& u.next_offset == t.next_offset
            &&& u.group(group).poll_count == t.group(group).poll_count + n
            &&& !u.group(group).leased(offset)
            &&& forall|o: u64| #[trigger] u.group(group).done(o) == t.group(group).done(o)
        }),
    decreases n,
{
    if n > 0 {
        lemma_waiting(t, group, offset, maxes, visibilities, times, leases, n - 1);
        let u = after_polls(t, group, maxes, visibilities, times, leases, n - 1);
        let (max, vis, ts, lease) = (maxes[n - 1], visibilities[n - 1], times[n - 1], leases[n - 1]);
        assert(leases_fit(u, group, max, ts, lease));
        lemma_poll(u, group, max, vis, ts, lease);
        let r = u.poll(group, max, vis, ts, lease);
        let chosen = u.polled(group, max, ts);
        assert(r == after_polls(t, group, maxes, visibilities, times, leases, n));
        assert(!delivers(u, group, max, ts, offset));
        assert forall|o: u64| #[trigger] r.group(group).done(o) == t.group(group).done(o) by {
            assert(u.group(group).done(o) == t.group(group).done(o));
        }
        if r.group(group).leased(offset) {
            let id = choose|id: LeaseId| #[trigger]
                r.group(group).in_flight.contains_key(id) && r.group(group).in_flight[id].offset
                    == offset;
            if lease <= id < lease + chosen.len() {
                assert(chosen[id - lease].offset == offset);
            } else {
                assert(u.group(group).in_flight.contains_key(id));
            }
        }
    }
}

/// Two polls of one group do not hand out the same message while the lease of the
/// first one runs: the consumers of a group share the messages out among them.
pub proof fn competing_polls_share_out(
    t: TopicView,
    group: Seq<char>,
    max1: u32,
    visibility_timeout_ms: u64,
    ts1: u64,
    next_lease: u64,
    max2: u32,
    ts2: u64,
    offset: u64,
)
    requires
        t.wf(),
        leases_fit(t, group, max1, ts1, next_lease),
        ts1 + visibility_timeout_ms <= u64::MAX,
        ts2 < ts1 + visibility_timeout_ms,
        delivers(t, group, max1, ts1, offset),
    ensures
        !delivers(
            t.poll(group, max1, visibility_timeout_ms, ts1, next_lease),
            group,
            max2,
            ts2,
            offset,
        ),
{
    lemma_poll(t, group, max1, visibility_timeout_ms, ts1, next_lease);
    let r = t.poll(group, max1, visibility_timeout_ms, ts1, next_lease);
    let chosen = t.polled(group, max1, ts1);
    let i = choose|i: int| 0 <= i < chosen.len() && (#[trigger] chosen[i]).offset == offset;
    let id = (next_lease + i) as u64;
    assert(r.group(group).expire(ts2).in_flight.contains_key(id));
    assert(r.group(group).expire(ts2).leased(offset));
    poll_delivers_only_deliverable(r, group, max2, ts2);
}

/// A message whose lease has run out may be delivered again.
pub proof fn expired_lease_is_redeliverable(
    t: TopicView,
    group: Seq<char>,
    lease_id: LeaseId,
    now_ms: u64,
)
    requires
        t.wf(),
        t.group(group).in_flight.contains_key(lease_id),
        t.group(group).in_flight[lease_id].deadline_ms <= now_ms,
    ensures
        deliverable(t, group, t.group(group).in_flight[lease_id].offset, now_ms),
{
    lemma_group_of(t, group);
    let g = t.group(group);
    let offset = g.in_flight[lease_id].offset;
    if g.expire(now_ms).leased(offset) {
        let id = choose|id: LeaseId| #[trigger]
            g.expire(now_ms).in_flight.contains_key(id) && g.expire(now_ms).in_flight[id].offset
                == offset;
        assert(g.in_flight.contains_key(id));
    }
}

/// A nacked message may be delivered again at once.
pub proof fn nacked_is_redeliverable(
    t: TopicView,
    group: Seq<char>,
    lease_id: LeaseId,
    now_ms: u64,
)
    requires
        t.wf(),
        t.groups.contains_key(group),
        t.groups[group].in_flight.contains_key(lease_id),
    ensures
        deliverable(
            t.nack(group, lease_id),
            group,
            t.groups[group].in_flight[lease_id].offset,
            now_ms,
        ),
{
    lemma_group_of(t, group);
    let g = t.group(group);
    let r = t.nack(group, lease_id).group(group);
    let offset = g.in_flight[lease_id].offset;
    if r.expire(now_ms).leased(offset) {
        let id = choose|id: LeaseId| #[trigger]
            r.expire(now_ms).in_flight.contains_key(id) && r.expire(now_ms).in_flight[id].offset
                == offset;
        assert(g.in_flight.contains_key(id));
    }
}

/// The queue knows that something is deliverable if and only if a poll for one
/// message or more would hand something out.
pub proof fn has_deliverable_foretells_poll(
    q: QueueView,
    topic: Seq<char>,
    group: Seq<char>,
    max: u32,
    visibility_timeout_ms: u64,
    ts_ms: u64,
)
    requires
        q.wf(),
        max > 0,
    ensures
        q.has_deliverable(topic, group, ts_ms) <==> q.poll(
            topic,
            group,
            max,
            visibility_timeout_ms,
            ts_ms,
        ).1.len() > 0,
{
    if q.topics.contains_key(topic) {
        poll_delivers_all_it_can(q.topics[topic], group, max, ts_ms);
    }
}

} // verus!
