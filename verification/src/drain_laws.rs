//! Draining a topic hands out every message exactly once.
use crate::command::ProduceItemView;
use crate::delivery_laws::{
    candidates_are_deliverable, deliverable, delivers, leases_fit, poll_delivers_only_deliverable,
};
use crate::group::{lemma_mark_acked_tidy, lemma_prune_tidy};
use crate::group_laws::numbers_from;
use crate::lifecycle_laws::acks_drop_only_consumed;
use crate::model::{
    lemma_prefix_len_unique, Candidate, GroupView, Lease, QueueView, TopicView, DEDUP_CAPACITY,
};
use crate::queue_lemmas::{
    lemma_later_lease, lemma_queue_ack_all, lemma_queue_produce_all, lemma_topic_of,
};
use crate::topic_lemmas::{
    lemma_ack, lemma_append, lemma_drop_front, lemma_drop_nothing, lemma_expire, lemma_group_ack,
    lemma_group_nack, lemma_group_of, lemma_poll, lemma_polled, lemma_reclaim, lemma_remember,
    lemma_settings,
};
use crate::types::{LeaseId, MessageView};
use vstd::prelude::*;

verus! {

/// The sequence numbers of the items, each with its producer.
pub open spec fn keys_of(items: Seq<ProduceItemView>) -> Set<(Seq<char>, u64)> {
    Set::new(
        |k: (Seq<char>, u64)|
            exists|i: int|
                0 <= i < items.len() && k == ((#[trigger] items[i]).producer_id, items[i].seq),
    )
}

proof fn lemma_keys_finite(items: Seq<ProduceItemView>)
    ensures
        keys_of(items).finite(),
{
    let keys = Seq::new(items.len(), |i: int| (items[i].producer_id, items[i].seq));
    vstd::seq_lib::seq_to_set_is_finite(keys);
    assert(keys_of(items) =~= keys.to_set()) by {
        assert forall|k: (Seq<char>, u64)| keys_of(items).contains(k) implies keys.to_set().contains(
            k,
        ) by {
            let i = choose|i: int|
                0 <= i < items.len() && k == ((#[trigger] items[i]).producer_id, items[i].seq);
            assert(keys[i] == k);
        }
        assert forall|k: (Seq<char>, u64)| keys.to_set().contains(k) implies keys_of(
            items,
        ).contains(k) by {
            let i = choose|i: int| 0 <= i < keys.len() && keys[i] == k;
            assert(items[i].seq == k.1);
        }
    }
}

/// Items of named producers add one message for every sequence number that is new,
/// however often each of them is sent, as long as the topic remembers them all.
pub proof fn one_message_per_sequence_number(
    q: QueueView,
    topic: Seq<char>,
    items: Seq<ProduceItemView>,
)
    requires
        q.wf(),
        forall|i: int|
            0 <= i < items.len() ==> (#[trigger] items[i]).topic == topic
                && items[i].producer_id.len() > 0,
        q.topic(topic).dedup.dom().union(keys_of(items)).len() <= DEDUP_CAPACITY,
        q.topic(topic).next_offset + keys_of(items).len() <= u64::MAX,
    ensures
        q.room_to_produce_all(items),
        ({
            let (before, after) = (q.topic(topic), q.produce_all(items).0.topic(topic));
            &&& after.dedup.dom() == before.dedup.dom().union(keys_of(items))
            &&& after.next_offset - before.next_offset == after.dedup.dom().len()
                - before.dedup.dom().len()
        }),
    decreases items.len(),
{
    let before = q.topic(topic);
    lemma_topic_of(q, topic);
    lemma_keys_finite(items);
    vstd::seq_lib::seq_to_set_is_finite(before.dedup_order);
    if items.len() == 0 {
        assert(before.dedup.dom().union(keys_of(items)) =~= before.dedup.dom());
    } else {
        let front = items.drop_last();
        let item = items.last();
        let key = (item.producer_id, item.seq);
        let all = before.dedup.dom().union(keys_of(items));
        assert forall|i: int| 0 <= i < front.len() implies (#[trigger] front[i]).topic == topic
            && front[i].producer_id.len() > 0 by {
            assert(front[i] == items[i]);
        }
        assert(item == items[items.len() - 1]);
        lemma_keys_finite(front);
        lemma_last_key(items);
        let known = before.dedup.dom().union(keys_of(front));
        assert(all =~= known.insert(key));
        vstd::set_lib::lemma_len_subset(known, all);
        vstd::set_lib::lemma_len_subset(keys_of(front), keys_of(items));
        one_message_per_sequence_number(q, topic, front);
        lemma_queue_produce_all(q, front);
        let mid = q.produce_all(front).0;
        lemma_topic_of(mid, topic);
        let t = mid.topic(topic);
        assert(t.dedup.dom() == known);
        t.dedup_order.unique_seq_to_set();
        lemma_more_keys(before.dedup.dom(), keys_of(items));
        let c = TopicView { created: true, ..t };
        lemma_settings(t, c);
        if t.dedup.dom().contains(key) {
            assert(t.is_resend(item));
            assert(known.insert(key) =~= known);
        } else {
            assert(t.dedup_order.len() + 1 == all.len());
            assert(t.next_offset < u64::MAX);
        }
        assert(mid.room_to_produce(item));
        let after = q.produce_all(items).0.topic(topic);
        assert(after == t.produce(item).0);
        if !c.is_resend(item) {
            lemma_append(c, item);
            lemma_remember(c.append(item), key, c.next_offset);
            assert(after.dedup == t.dedup.insert(key, c.next_offset));
        }
        assert(after.dedup.dom() =~= known.insert(key));
    }
}

/// The sequence number of the last item is added to those of the items before it.
proof fn lemma_last_key(items: Seq<ProduceItemView>)
    requires
        items.len() > 0,
    ensures
        keys_of(items) == keys_of(items.drop_last()).insert(
            (items.last().producer_id, items.last().seq),
        ),
{
    let front = items.drop_last();
    let key = (items.last().producer_id, items.last().seq);
    assert forall|k: (Seq<char>, u64)| keys_of(items).contains(k) <==> keys_of(front).contains(k)
        || k == key by {
        if keys_of(items).contains(k) {
            let i = choose|i: int|
                0 <= i < items.len() && k == ((#[trigger] items[i]).producer_id, items[i].seq);
            if i < front.len() {
                assert(front[i] == items[i]);
            }
        }
        if keys_of(front).contains(k) {
            let i = choose|i: int|
                0 <= i < front.len() && k == ((#[trigger] front[i]).producer_id, front[i].seq);
            assert(items[i] == front[i]);
        }
        if k == key {
            assert(items[items.len() - 1] == items.last());
        }
    }
    assert(keys_of(items) =~= keys_of(front).insert(key));
}

/// Two sets together have no more members than each for itself.
proof fn lemma_more_keys(a: Set<(Seq<char>, u64)>, b: Set<(Seq<char>, u64)>)
    requires
        a.finite(),
        b.finite(),
    ensures
        a.union(b).len() <= a.len() + b.len(),
{
    vstd::set_lib::lemma_len_union(a, b);
}

/// The topic after the leases from `first` on, `n` of them, were acked in turn.
pub open spec fn acked_in_turn(t: TopicView, group: Seq<char>, first: u64, n: int) -> TopicView
    decreases n,
{
    if n <= 0 {
        t
    } else {
        acked_in_turn(t, group, first, n - 1).ack(group, (first + n - 1) as u64)
    }
}

/// The first `k` of the chosen messages hold `offset`.
pub open spec fn among(chosen: Seq<Candidate>, k: int, offset: u64) -> bool {
    exists|i: int| 0 <= i < k && (#[trigger] chosen[i]).offset == offset
}

/// A poll whose messages are all acked takes exactly these messages from what is
/// deliverable to the group.
pub proof fn poll_and_ack_takes_what_it_delivers(
    t: TopicView,
    group: Seq<char>,
    max: u32,
    visibility_timeout_ms: u64,
    ts_ms: u64,
    next_lease: u64,
    now_ms: u64,
    offset: u64,
)
    requires
        t.wf(),
        leases_fit(t, group, max, ts_ms, next_lease),
        ts_ms <= now_ms,
    ensures
        ({
            let r = t.poll(group, max, visibility_timeout_ms, ts_ms, next_lease);
            let n = t.polled(group, max, ts_ms).len() as int;
            deliverable(acked_in_turn(r, group, next_lease, n), group, offset, now_ms)
                <==> deliverable(t, group, offset, now_ms) && !delivers(
                t,
                group,
                max,
                ts_ms,
                offset,
            )
        }),
{
    let r = t.poll(group, max, visibility_timeout_ms, ts_ms, next_lease);
    let chosen = t.polled(group, max, ts_ms);
    let n = chosen.len() as int;
    let u = acked_in_turn(r, group, next_lease, n);
    let (g, h) = (t.group(group), u.group(group));
    lemma_polled(t, group, max, ts_ms);
    lemma_acked(t, group, max, visibility_timeout_ms, ts_ms, next_lease, n);
    assert(among(chosen, n, offset) <==> delivers(t, group, max, ts_ms, offset));
    assert(h.in_flight =~= g.expire(ts_ms).in_flight);
    if g.expire(now_ms).leased(offset) {
        let id = choose|id: LeaseId| #[trigger]
            g.expire(now_ms).in_flight.contains_key(id) && g.expire(now_ms).in_flight[id].offset
                == offset;
        assert(h.expire(now_ms).in_flight.contains_key(id));
    }
    if h.expire(now_ms).leased(offset) {
        let id = choose|id: LeaseId| #[trigger]
            h.expire(now_ms).in_flight.contains_key(id) && h.expire(now_ms).in_flight[id].offset
                == offset;
        assert(g.expire(now_ms).in_flight.contains_key(id));
    }
    if t.first_offset() <= offset < u.first_offset() {
        assert(g.done(offset) || among(chosen, n, offset));
    }
}

/// The topic after `n` rounds: in each the group polls, and acks what it was handed.
pub open spec fn after_rounds(
    t: TopicView,
    group: Seq<char>,
    maxes: Seq<u32>,
    visibilities: Seq<u64>,
    times: Seq<u64>,
    leases: Seq<u64>,
    n: int,
) -> TopicView
    decreases n,
{
    if n <= 0 {
        t
    } else {
        let u = after_rounds(t, group, maxes, visibilities, times, leases, n - 1);
        acked_in_turn(
            u.poll(group, maxes[n - 1], visibilities[n - 1], times[n - 1], leases[n - 1]),
            group,
            leases[n - 1],
            u.polled(group, maxes[n - 1], times[n - 1]).len() as int,
        )
    }
}

/// Round `i` hands the message out.
pub open spec fn round_delivers(
    t: TopicView,
    group: Seq<char>,
    maxes: Seq<u32>,
    visibilities: Seq<u64>,
    times: Seq<u64>,
    leases: Seq<u64>,
    i: int,
    offset: u64,
) -> bool {
    delivers(
        after_rounds(t, group, maxes, visibilities, times, leases, i),
        group,
        maxes[i],
        times[i],
        offset,
    )
}

/// A consumer that polls and acks round after round is handed no message twice, and
/// nothing but what was deliverable; where nothing is left in the end, it was handed
/// everything. So it is handed every message exactly once.
pub proof fn draining_hands_out_everything_once(
    t: TopicView,
    group: Seq<char>,
    maxes: Seq<u32>,
    visibilities: Seq<u64>,
    times: Seq<u64>,
    leases: Seq<u64>,
    n: int,
    now_ms: u64,
)
    requires
        t.wf(),
        0 <= n <= times.len(),
        forall|i: int, j: int| 0 <= i <= j < n ==> #[trigger] times[i] <= #[trigger] times[j],
        forall|i: int| 0 <= i < n ==> #[trigger] times[i] <= now_ms,
        forall|i: int|
            0 <= i < n ==> leases_fit(
                #[trigger] after_rounds(t, group, maxes, visibilities, times, leases, i),
                group,
                maxes[i],
                times[i],
                leases[i],
            ),
    ensures
        after_rounds(t, group, maxes, visibilities, times, leases, n).wf(),
        forall|i: int, j: int, o: u64|
            0 <= i < j < n && #[trigger] round_delivers(
                t,
                group,
                maxes,
                visibilities,
                times,
                leases,
                i,
                o,
            ) ==> !#[trigger] round_delivers(
                t,
                group,
                maxes,
                visibilities,
                times,
                leases,
                j,
                o,
            ),
        forall|o: u64| #[trigger]
            deliverable(
                after_rounds(t, group, maxes, visibilities, times, leases, n),
                group,
                o,
                now_ms,
            ) <==> deliverable(t, group, o, now_ms) && forall|i: int|
                0 <= i < n ==> !#[trigger] round_delivers(
                    t,
                    group,
                    maxes,
                    visibilities,
                    times,
                    leases,
                    i,
                    o,
                ),
        forall|i: int, o: u64|
            0 <= i < n && #[trigger] round_delivers(
                t,
                group,
                maxes,
                visibilities,
                times,
                leases,
                i,
                o,
            ) ==> deliverable(t, group, o, times[i]),
    decreases n,
{
    if n > 0 {
        let m = n - 1;
        let u = after_rounds(t, group, maxes, visibilities, times, leases, m);
        let r = after_rounds(t, group, maxes, visibilities, times, leases, n);
        draining_hands_out_everything_once(
            t,
            group,
            maxes,
            visibilities,
            times,
            leases,
            m,
            now_ms,
        );
        draining_hands_out_everything_once(
            t,
            group,
            maxes,
            visibilities,
            times,
            leases,
            m,
            times[m],
        );
        let count = u.polled(group, maxes[m], times[m]).len() as int;
        lemma_acked(u, group, maxes[m], visibilities[m], times[m], leases[m], count);
        poll_delivers_only_deliverable(u, group, maxes[m], times[m]);
        assert forall|o: u64| #[trigger]
            round_delivers(t, group, maxes, visibilities, times, leases, m, o) implies deliverable(
            u,
            group,
            o,
            times[m],
        ) by {
            assert(delivers(u, group, maxes[m], times[m], o));
        }
        assert forall|o: u64| #[trigger]
            deliverable(r, group, o, now_ms) <==> deliverable(u, group, o, now_ms)
                && !round_delivers(t, group, maxes, visibilities, times, leases, m, o) by {
            poll_and_ack_takes_what_it_delivers(
                u,
                group,
                maxes[m],
                visibilities[m],
                times[m],
                leases[m],
                now_ms,
                o,
            );
        }
    }
}

/// Where the topic stands after `k` of the handed out leases were acked.
pub open spec fn stands_after_acks(
    t: TopicView,
    group: Seq<char>,
    max: u32,
    visibility_timeout_ms: u64,
    ts_ms: u64,
    next_lease: u64,
    k: int,
) -> bool {
    let r = t.poll(group, max, visibility_timeout_ms, ts_ms, next_lease);
    let chosen = t.polled(group, max, ts_ms);
    let u = acked_in_turn(r, group, next_lease, k);
    let g = t.group(group);
    let h = u.group(group);
    &&& u.wf()
    &&& u.groups.contains_key(group)
    &&& u.next_offset == t.next_offset
    &&& t.first_offset() <= u.first_offset()
    &&& forall|o: u64|
        u.first_offset() <= o ==> (#[trigger] h.done(o) <==> g.done(o) || among(
            chosen,
            k,
            o,
        ))
    &&& forall|o: u64|
        t.first_offset() <= o < u.first_offset() ==> #[trigger] g.done(o) || among(
            chosen,
            k,
            o,
        )
    &&& forall|id: LeaseId| #[trigger]
        h.in_flight.contains_key(id) <==> g.expire(ts_ms).in_flight.contains_key(id)
            || next_lease + k <= id < next_lease + chosen.len()
    &&& forall|id: LeaseId| #[trigger]
        h.in_flight.contains_key(id) ==> h.in_flight[id] == r.group(group).in_flight[id]
}

pub proof fn lemma_acked(
    t: TopicView,
    group: Seq<char>,
    max: u32,
    visibility_timeout_ms: u64,
    ts_ms: u64,
    next_lease: u64,
    k: int,
)
    requires
        t.wf(),
        leases_fit(t, group, max, ts_ms, next_lease),
        0 <= k <= t.polled(group, max, ts_ms).len(),
    ensures
        stands_after_acks(t, group, max, visibility_timeout_ms, ts_ms, next_lease, k),
    decreases k,
{
    let r = t.poll(group, max, visibility_timeout_ms, ts_ms, next_lease);
    let chosen = t.polled(group, max, ts_ms);
    let g = t.group(group);
    lemma_poll(t, group, max, visibility_timeout_ms, ts_ms, next_lease);
    lemma_polled(t, group, max, ts_ms);
    lemma_group_of(t, group);
    lemma_expire(g, ts_ms, t.first_offset(), t.next_offset as int);
    if k == 0 {
        assert forall|o: u64| #[trigger] r.group(group).done(o) <==> g.done(o) by {
            assert(g.expire(ts_ms).done(o) == g.done(o));
        }
    } else {
        lemma_acked(t, group, max, visibility_timeout_ms, ts_ms, next_lease, k - 1);
        let j = k - 1;
        let v = acked_in_turn(r, group, next_lease, j);
        assert(stands_after_acks(t, group, max, visibility_timeout_ms, ts_ms, next_lease, j));
        let u = acked_in_turn(r, group, next_lease, k);
        let id = (next_lease + k - 1) as u64;
        let (first, next) = (v.first_offset(), v.next_offset as int);
        let a = v.groups[group];
        let b = a.ack(id);
        let offset = chosen[k - 1].offset;
        assert(a == v.group(group));
        assert(id == next_lease + k - 1);
        assert(v.group(group).in_flight.contains_key(id));
        assert(a.in_flight[id] == r.group(group).in_flight[id]);
        assert(a.in_flight[id].offset == offset);
        lemma_ack(v, group, id);
        lemma_group_ack(a, id, first, next);
        lemma_group_nack(a, id, first, next);
        let rel = a.nack(id);
        assert(!rel.leased(offset)) by {
            if rel.leased(offset) {
                let other = choose|other: LeaseId| #[trigger]
                    rel.in_flight.contains_key(other) && rel.in_flight[other].offset == offset;
                assert(a.in_flight.contains_key(other));
            }
        }
        lemma_mark_acked_tidy(rel, offset);
        assert forall|o: u64| #[trigger] b.done(o) <==> a.done(o) || o == offset by {
            assert(rel.done(o) == a.done(o));
        }
        let w = v.with_group(group, b);
        acks_drop_only_consumed(v, group, b);
        lemma_reclaim(w);
        lemma_drop_front(w, w.consumed());
        assert(u == w.reclaim());
        lemma_prune_tidy(b, u.first_offset());
        let h = u.groups[group];
        assert(w.groups.contains_key(group) && w.groups[group] == b);
        assert(h == b.prune(u.first_offset()));
        assert forall|o: u64| among(chosen, k, o) <==> among(chosen, k - 1, o) || o == offset by {
            if among(chosen, k, o) {
                let i = choose|i: int| 0 <= i < k && (#[trigger] chosen[i]).offset == o;
                if i < k - 1 {
                    assert(chosen[i].offset == o);
                }
            }
            if among(chosen, k - 1, o) {
                let i = choose|i: int| 0 <= i < k - 1 && (#[trigger] chosen[i]).offset == o;
                assert(chosen[i].offset == o);
            }
            if o == offset {
                assert(chosen[k - 1].offset == o);
            }
        }
        assert forall|o: u64| t.first_offset() <= o < u.first_offset() implies #[trigger] g.done(o)
            || among(chosen, k, o) by {
            if first <= o {
                assert(w.done_by_all(o));
                assert(b.done(o));
            }
        }
        assert forall|o: u64| u.first_offset() <= o implies (#[trigger] h.done(o) <==> g.done(o)
            || among(chosen, k, o)) by {
            assert(b.done(o) == h.done(o));
        }
        assert forall|x: LeaseId| #[trigger] b.in_flight.contains_key(x) implies u.first_offset()
            <= b.in_flight[x].offset by {
            let o = b.in_flight[x].offset;
            if o < u.first_offset() {
                assert(w.done_by_all(o));
                assert(b.done(o));
            }
        }
        assert(h.in_flight =~= b.in_flight);
    }
}

/// The offsets that the group may be given once all its leases have run out.
pub open spec fn left_to_deliver(t: TopicView, group: Seq<char>) -> Set<u64> {
    Set::new(|o: u64| deliverable(t, group, o, u64::MAX))
}

/// One round of a consumer: it polls, and acks every lease it was handed. The answer is
/// the offsets it was handed.
pub open spec fn drain_round(
    q: QueueView,
    topic: Seq<char>,
    group: Seq<char>,
    max: u32,
    visibility_timeout_ms: u64,
    ts_ms: u64,
) -> (QueueView, Seq<u64>) {
    let (polled, items) = q.poll(topic, group, max, visibility_timeout_ms, ts_ms);
    (
        polled.ack_all(topic, group, Seq::new(items.len(), |i: int| items[i].lease_id)),
        Seq::new(items.len(), |i: int| items[i].offset),
    )
}

/// The queue after `n` rounds, and the offsets that were handed out, in their order.
pub open spec fn drained(
    q: QueueView,
    topic: Seq<char>,
    group: Seq<char>,
    maxes: Seq<u32>,
    visibilities: Seq<u64>,
    times: Seq<u64>,
    n: int,
) -> (QueueView, Seq<u64>)
    decreases n,
{
    if n <= 0 {
        (q, Seq::empty())
    } else {
        let (before, out) = drained(q, topic, group, maxes, visibilities, times, n - 1);
        let (after, more) = drain_round(
            before,
            topic,
            group,
            maxes[n - 1],
            visibilities[n - 1],
            times[n - 1],
        );
        (after, out + more)
    }
}

proof fn lemma_left_finite(t: TopicView, group: Seq<char>)
    requires
        t.wf(),
    ensures
        left_to_deliver(t, group).finite(),
        left_to_deliver(t, group).len() == t.candidates(t.group(group).expire(u64::MAX)).len(),
{
    let c = t.candidates(t.group(group).expire(u64::MAX));
    let offsets = Seq::new(c.len(), |i: int| c[i].offset);
    candidates_are_deliverable(t, group, u64::MAX);
    assert(offsets.no_duplicates()) by {
        assert forall|i: int, j: int|
            0 <= i < offsets.len() && 0 <= j < offsets.len() && i != j implies offsets[i]
            != offsets[j] by {
            if i < j {
                assert(c[i].offset < c[j].offset);
            } else {
                assert(c[j].offset < c[i].offset);
            }
        }
    }
    offsets.unique_seq_to_set();
    assert(left_to_deliver(t, group) =~= offsets.to_set()) by {
        assert forall|o: u64| left_to_deliver(t, group).contains(o) implies offsets.to_set().contains(
            o,
        ) by {
            let x = Candidate { priority: t.log[o - t.first_offset()].priority.0, offset: o };
            assert(deliverable(t, group, o, u64::MAX));
            assert(c.contains(x));
            let i = choose|i: int| 0 <= i < c.len() && c[i] == x;
            assert(offsets[i] == o);
        }
        assert forall|o: u64| offsets.to_set().contains(o) implies left_to_deliver(
            t,
            group,
        ).contains(o) by {
            let i = choose|i: int| 0 <= i < offsets.len() && offsets[i] == o;
            assert(deliverable(t, group, c[i].offset, u64::MAX));
        }
    }
}

/// Acking the leases of a queue one after the other is acking them in turn in the topic.
pub proof fn lemma_acked_in_queue(
    q: QueueView,
    topic: Seq<char>,
    group: Seq<char>,
    first: u64,
    n: nat,
)
    requires
        q.topics.contains_key(topic),
    ensures
        q.ack_all(topic, group, numbers_from(first, n)).topics.contains_key(topic),
        q.ack_all(topic, group, numbers_from(first, n)).topic(topic) == acked_in_turn(
            q.topic(topic),
            group,
            first,
            n as int,
        ),
        q.ack_all(topic, group, numbers_from(first, n)).next_lease_id == q.next_lease_id,
    decreases n,
{
    if n > 0 {
        let m = (n - 1) as nat;
        lemma_acked_in_queue(q, topic, group, first, m);
        assert(numbers_from(first, n).drop_last() =~= numbers_from(first, m));
        assert(numbers_from(first, n).last() == (first + m) as u64);
    }
}

/// A consumer without leases is handed a part of what is left to it, each message once,
/// and the rest is left.
proof fn lemma_drain_round(
    q: QueueView,
    topic: Seq<char>,
    group: Seq<char>,
    max: u32,
    visibility_timeout_ms: u64,
    ts_ms: u64,
)
    requires
        q.wf(),
        q.topics.contains_key(topic),
        q.topic(topic).group(group).in_flight == Map::<LeaseId, Lease>::empty(),
        q.next_lease_id + left_to_deliver(q.topic(topic), group).len() <= u64::MAX,
    ensures
        ({
            let (r, out) = drain_round(q, topic, group, max, visibility_timeout_ms, ts_ms);
            let (t, u) = (q.topic(topic), r.topic(topic));
            &&& r.wf()
            &&& r.topics.contains_key(topic)
            &&& u.group(group).in_flight == Map::<LeaseId, Lease>::empty()
            &&& r.next_lease_id == q.next_lease_id + out.len()
            &&& out.no_duplicates()
            &&& forall|o: u64| #[trigger] out.contains(o) ==> left_to_deliver(t, group).contains(o)
            &&& left_to_deliver(u, group) == left_to_deliver(t, group).difference(out.to_set())
            &&& out.len() == if left_to_deliver(t, group).len() < max {
                left_to_deliver(t, group).len() as int
            } else {
                max as int
            }
        }),
{
    let t = q.topic(topic);
    let g = t.group(group);
    let chosen = t.polled(group, max, ts_ms);
    let n = chosen.len();
    lemma_topic_of(q, topic);
    lemma_left_finite(t, group);
    lemma_polled(t, group, max, ts_ms);
    assert(g.expire(ts_ms) =~= g);
    assert(g.expire(u64::MAX) =~= g);
    let (polled, items) = q.poll(topic, group, max, visibility_timeout_ms, ts_ms);
    let (r, out) = drain_round(q, topic, group, max, visibility_timeout_ms, ts_ms);
    assert(leases_fit(t, group, max, ts_ms, q.next_lease_id));
    lemma_poll(t, group, max, visibility_timeout_ms, ts_ms, q.next_lease_id);
    assert(Seq::new(items.len(), |i: int| items[i].lease_id) =~= numbers_from(q.next_lease_id, n));
    lemma_acked_in_queue(polled, topic, group, q.next_lease_id, n);
    lemma_acked(t, group, max, visibility_timeout_ms, ts_ms, q.next_lease_id, n as int);
    let u = r.topic(topic);
    assert(u.group(group).in_flight =~= Map::empty());
    lemma_polled_queue_wf(q, topic, group, max, visibility_timeout_ms, ts_ms);
    lemma_queue_ack_all(polled, topic, group, numbers_from(q.next_lease_id, n));
    assert(out.no_duplicates()) by {
        assert forall|i: int, j: int|
            0 <= i < out.len() && 0 <= j < out.len() && i != j implies out[i] != out[j] by {
            assert(chosen[i].offset != chosen[j].offset);
        }
    }
    poll_delivers_only_deliverable(t, group, max, ts_ms);
    assert forall|o: u64| #[trigger] out.contains(o) implies left_to_deliver(t, group).contains(
        o,
    ) && delivers(t, group, max, ts_ms, o) by {
        let i = choose|i: int| 0 <= i < out.len() && out[i] == o;
        assert(chosen[i].offset == o);
        assert(delivers(t, group, max, ts_ms, o));
    }
    assert forall|o: u64| left_to_deliver(u, group).contains(o) <==> left_to_deliver(
        t,
        group,
    ).difference(out.to_set()).contains(o) by {
        poll_and_ack_takes_what_it_delivers(
            t,
            group,
            max,
            visibility_timeout_ms,
            ts_ms,
            q.next_lease_id,
            u64::MAX,
            o,
        );
        if delivers(t, group, max, ts_ms, o) {
            let i = choose|i: int| 0 <= i < chosen.len() && (#[trigger] chosen[i]).offset == o;
            assert(out[i] == o);
        }
    }
    assert(left_to_deliver(u, group) =~= left_to_deliver(t, group).difference(out.to_set()));
}

pub proof fn lemma_polled_queue_wf(
    q: QueueView,
    topic: Seq<char>,
    group: Seq<char>,
    max: u32,
    visibility_timeout_ms: u64,
    ts_ms: u64,
)
    requires
        q.wf(),
        q.topics.contains_key(topic),
        q.next_lease_id + q.topic(topic).polled(group, max, ts_ms).len() <= u64::MAX,
    ensures
        q.poll(topic, group, max, visibility_timeout_ms, ts_ms).0.wf(),
{
    let t = q.topics[topic];
    lemma_poll(t, group, max, visibility_timeout_ms, ts_ms, q.next_lease_id);
    let r = q.poll(topic, group, max, visibility_timeout_ms, ts_ms).0;
    assert forall|n: Seq<char>| #[trigger] r.topics.contains_key(n) implies r.topics[n].wf()
        && r.topics[n].leases_below(r.next_lease_id) by {
        if n != topic {
            assert(q.topics.contains_key(n));
            lemma_later_lease(q.topics[n], q.next_lease_id, r.next_lease_id);
        }
    }
}

/// A consumer that polls and acks round after round is handed no message twice, and only
/// what was left to it; together with what is still left that is everything. Where every
/// poll is for one message at least, nothing is left after as many rounds as there were
/// messages.
pub proof fn a_drained_topic_was_handed_out_exactly_once(
    q: QueueView,
    topic: Seq<char>,
    group: Seq<char>,
    maxes: Seq<u32>,
    visibilities: Seq<u64>,
    times: Seq<u64>,
    n: int,
)
    requires
        q.wf(),
        q.topics.contains_key(topic),
        q.topic(topic).group(group).in_flight == Map::<LeaseId, Lease>::empty(),
        q.next_lease_id + left_to_deliver(q.topic(topic), group).len() <= u64::MAX,
        0 <= n,
        forall|i: int| 0 <= i < n ==> #[trigger] maxes[i] > 0,
    ensures
        ({
            let (r, out) = drained(q, topic, group, maxes, visibilities, times, n);
            let (all, left) = (
                left_to_deliver(q.topic(topic), group),
                left_to_deliver(r.topic(topic), group),
            );
            &&& r.wf()
            &&& r.topics.contains_key(topic)
            &&& r.topic(topic).group(group).in_flight == Map::<
                LeaseId,
                Lease,
            >::empty()
            &&& r.next_lease_id == q.next_lease_id + out.len()
            &&& out.no_duplicates()
            &&& forall|o: u64| #[trigger] out.contains(o) ==> all.contains(o)
            &&& left == all.difference(out.to_set())
            &&& out.len() + left.len() == all.len()
            &&& left.len() == 0 || n <= out.len()
        }),
    decreases n,
{
    let t = q.topic(topic);
    let all = left_to_deliver(t, group);
    lemma_topic_of(q, topic);
    lemma_left_finite(t, group);
    if n == 0 {
        assert(all.difference(Seq::<u64>::empty().to_set()) =~= all);
    } else {
        let m = n - 1;
        a_drained_topic_was_handed_out_exactly_once(
            q,
            topic,
            group,
            maxes,
            visibilities,
            times,
            m,
        );
        let (mid, had) = drained(q, topic, group, maxes, visibilities, times, m);
        let before = left_to_deliver(mid.topic(topic), group);
        lemma_drain_round(mid, topic, group, maxes[m], visibilities[m], times[m]);
        let (r, more) = drain_round(mid, topic, group, maxes[m], visibilities[m], times[m]);
        let out = had + more;
        assert(maxes[m] > 0);
        let left = left_to_deliver(r.topic(topic), group);
        assert forall|o: u64| #[trigger] out.contains(o) <==> had.contains(o) || more.contains(
            o,
        ) by {
            if had.contains(o) {
                let i = choose|i: int| 0 <= i < had.len() && had[i] == o;
                assert(out[i] == o);
            }
            if more.contains(o) {
                let i = choose|i: int| 0 <= i < more.len() && more[i] == o;
                assert(out[had.len() + i] == o);
            }
        }
        assert(out.no_duplicates()) by {
            assert forall|i: int, j: int|
                0 <= i < out.len() && 0 <= j < out.len() && i != j implies out[i] != out[j] by {
                let (a, b) = if i < j {
                    (i, j)
                } else {
                    (j, i)
                };
                if a < had.len() && had.len() <= b {
                    assert(had.contains(out[a]));
                    assert(more[b - had.len()] == out[b]);
                    assert(more.contains(out[b]));
                    assert(before.contains(out[b]));
                    assert(!had.to_set().contains(out[b]));
                }
            }
        }
        assert forall|o: u64| left.contains(o) <==> all.difference(out.to_set()).contains(o) by {
            assert(out.contains(o) <==> had.contains(o) || more.contains(o));
        }
        assert(left =~= all.difference(out.to_set()));
        out.unique_seq_to_set();
        assert(out.to_set().subset_of(all));
        lemma_parts(all, out.to_set());
        lemma_topic_of(mid, topic);
        lemma_left_finite(mid.topic(topic), group);
    }
}

/// A set is made up of a part of it and the rest.
proof fn lemma_parts(all: Set<u64>, part: Set<u64>)
    requires
        all.finite(),
        part.subset_of(all),
    ensures
        all.difference(part).len() + part.len() == all.len(),
    decreases all.len(),
{
    vstd::set_lib::lemma_len_subset(part, all);
    if part.len() == 0 {
        assert(part =~= Set::empty());
        assert(all.difference(part) =~= all);
    } else {
        let x = part.choose();
        assert(part.contains(x));
        lemma_parts(all.remove(x), part.remove(x));
        assert(all.remove(x).difference(part.remove(x)) =~= all.difference(part));
    }
}

/// Nothing is dropped from a topic that nobody consumes and that has no retention, while
/// it holds no more messages than a topic may.
proof fn lemma_nothing_dropped(topic: Seq<char>, items: Seq<ProduceItemView>)
    requires
        forall|i: int|
            0 <= i < items.len() ==> (#[trigger] items[i]).topic == topic
                && items[i].producer_id.len() > 0,
        keys_of(items).len() <= DEDUP_CAPACITY,
    ensures
        ({
            let q = QueueView::fresh().produce_all(items).0;
            let t = q.topic(topic);
            &&& QueueView::fresh().room_to_produce_all(items)
            &&& q.wf()
            &&& q.next_lease_id == 0
            &&& items.len() > 0 ==> q.topics.contains_key(topic)
            &&& t.next_offset == keys_of(items).len()
            &&& t.log.len() == t.next_offset
            &&& t.groups == Map::<Seq<char>, GroupView>::empty()
            &&& t.retain_max_messages == 0
            &&& t.retain_max_age_ms == 0
        }),
    decreases items.len(),
{
    let fresh = QueueView::fresh();
    let start = fresh.topic(topic);
    lemma_keys_finite(items);
    assert(start.dedup.dom() =~= Set::empty());
    assert(start.dedup.dom().union(keys_of(items)) =~= keys_of(items));
    one_message_per_sequence_number(fresh, topic, items);
    lemma_queue_produce_all(fresh, items);
    if items.len() > 0 {
        let front = items.drop_last();
        let item = items.last();
        assert forall|i: int| 0 <= i < front.len() implies (#[trigger] front[i]).topic == topic
            && front[i].producer_id.len() > 0 by {
            assert(front[i] == items[i]);
        }
        assert(item == items[items.len() - 1]);
        lemma_last_key(items);
        lemma_keys_finite(front);
        vstd::set_lib::lemma_len_subset(keys_of(front), keys_of(items));
        lemma_nothing_dropped(topic, front);
        let mid = fresh.produce_all(front).0;
        let t = mid.topic(topic);
        let c = TopicView { created: true, ..t };
        lemma_topic_of(mid, topic);
        lemma_settings(t, c);
        let after = fresh.produce_all(items).0.topic(topic);
        assert(after == t.produce(item).0);
        if !c.is_resend(item) {
            lemma_append(c, item);
            let noted = c.append(item).remember((item.producer_id, item.seq), c.next_offset);
            lemma_remember(c.append(item), (item.producer_id, item.seq), c.next_offset);
            let p = |m: MessageView| noted.too_old(m, item.ts_ms);
            lemma_prefix_len_unique(noted.log, p, 0);
            assert(noted.unretained(item.ts_ms) == 0);
            lemma_drop_nothing(noted);
            assert(noted.groups.dom() =~= Set::empty());
            assert(noted.consumed() == 0);
            assert(after == noted);
        }
        assert(after.groups =~= Map::empty());
    }
}

/// The offsets below `n` are `n` many.
proof fn lemma_below(n: u64)
    ensures
        Set::new(|o: u64| o < n).finite(),
        Set::new(|o: u64| o < n).len() == n,
    decreases n,
{
    let s = Set::new(|o: u64| o < n);
    if n == 0 {
        assert(s =~= Set::empty());
    } else {
        let m = (n - 1) as u64;
        lemma_below(m);
        assert(s =~= Set::new(|o: u64| o < m).insert(m));
    }
}

/// Messages of named producers that are sent to an empty queue, each as often as one likes,
/// are drained exactly once. Round after round a consumer polls for one message at least,
/// and acks what it is handed. It is handed no offset twice; the rounds come to an end,
/// after as many as there are distinct sequence numbers at the latest; and when a poll finds
/// nothing any more, as many messages were handed out as there are distinct sequence numbers
/// with their producers.
pub proof fn deduplicated_messages_are_drained_exactly_once(
    topic: Seq<char>,
    group: Seq<char>,
    items: Seq<ProduceItemView>,
    maxes: Seq<u32>,
    visibilities: Seq<u64>,
    times: Seq<u64>,
    n: int,
    max: u32,
    visibility_timeout_ms: u64,
    ts_ms: u64,
)
    requires
        items.len() > 0,
        forall|i: int|
            0 <= i < items.len() ==> (#[trigger] items[i]).topic == topic
                && items[i].producer_id.len() > 0,
        keys_of(items).len() <= DEDUP_CAPACITY,
        0 <= n,
        forall|i: int| 0 <= i < n ==> #[trigger] maxes[i] > 0,
        max > 0,
    ensures
        ({
            let q = QueueView::fresh().produce_all(items).0;
            let (r, out) = drained(q, topic, group, maxes, visibilities, times, n);
            let found = r.poll(topic, group, max, visibility_timeout_ms, ts_ms).1;
            &&& out.no_duplicates()
            &&& out.len() <= keys_of(items).len()
            &&& found.len() == 0 <==> out.len() == keys_of(items).len()
            &&& n >= keys_of(items).len() ==> found.len() == 0
        }),
{
    let q = QueueView::fresh().produce_all(items).0;
    let t = q.topic(topic);
    lemma_nothing_dropped(topic, items);
    let all = left_to_deliver(t, group);
    assert(t.group(group) == GroupView::fresh());
    assert(all =~= Set::new(|o: u64| o < t.next_offset)) by {
        assert forall|o: u64| o < t.next_offset implies all.contains(o) by {
            let g = t.group(group).expire(u64::MAX);
            assert(!g.leased(o));
        }
    }
    lemma_below(t.next_offset);
    a_drained_topic_was_handed_out_exactly_once(
        q,
        topic,
        group,
        maxes,
        visibilities,
        times,
        n,
    );
    let (r, out) = drained(q, topic, group, maxes, visibilities, times, n);
    let left = left_to_deliver(r.topic(topic), group);
    lemma_drain_round(r, topic, group, max, visibility_timeout_ms, ts_ms);
    let more = drain_round(r, topic, group, max, visibility_timeout_ms, ts_ms).1;
    let found = r.poll(topic, group, max, visibility_timeout_ms, ts_ms).1;
    assert(more.len() == found.len());
    assert(left.len() == 0 <==> more.len() == 0);
}

} // verus!
