//! What a subscription promises its consumer.
use crate::tracking::{
    Delivery, TrackingView, SUBSCRIBE_MAX_LEASE_ALIASES, SUBSCRIBE_MAX_LEASE_REFRESHES,
};
use crate::types::{LeaseId, Offset};
use vstd::prelude::*;

verus! {

impl TrackingView {
    /// The leases that name a message are those that the message lists, and the last
    /// of them is the one under which it is held; a message that is tracked is not among
    /// those that were acked.
    pub open spec fn wf(self) -> bool {
        &&& forall|o: Offset| #[trigger] self.by_offset.contains_key(o) ==> self.track_wf(o)
            && !self.acked_recently.contains_key(o)
        &&& forall|l: LeaseId| #[trigger] self.lease_to_offset.contains_key(l) ==> self.names(l)
    }

    /// The message lists between one and eight leases, each once, and each names it.
    pub open spec fn track_wf(self, o: Offset) -> bool {
        let t = self.by_offset[o];
        &&& 0 < t.leases.len() <= SUBSCRIBE_MAX_LEASE_ALIASES
        &&& t.leases.last() == t.lease_id
        &&& t.refreshes <= SUBSCRIBE_MAX_LEASE_REFRESHES
        &&& t.leases.no_duplicates()
        &&& forall|i: int|
            0 <= i < t.leases.len() ==> self.lease_to_offset.contains_key(#[trigger] t.leases[i])
                && self.lease_to_offset[t.leases[i]] == o
    }

    /// The lease names a message that lists it.
    pub open spec fn names(self, l: LeaseId) -> bool {
        let o = self.lease_to_offset[l];
        self.by_offset.contains_key(o) && self.by_offset[o].leases.contains(l)
    }
}

/// A tracking that has seen nothing is well-formed.
pub proof fn fresh_tracking_is_wf()
    ensures
        TrackingView::fresh().wf(),
{
}

/// Noting a new lease keeps the tracking well-formed.
pub proof fn deliver_keeps_wf(
    s: TrackingView,
    offset: Offset,
    lease_id: LeaseId,
    deadline_ms: u64,
    now_ms: u64,
)
    requires
        s.wf(),
        !s.lease_to_offset.contains_key(lease_id),
    ensures
        s.deliver(offset, lease_id, deadline_ms, now_ms).0.wf(),
{
    let r = s.deliver(offset, lease_id, deadline_ms, now_ms).0;
    if !s.acked_at(offset, now_ms) {
        let t = r.by_offset[offset];
        if s.by_offset.contains_key(offset) {
            let track = s.by_offset[offset];
            assert(s.track_wf(offset));
            let all = track.leases.push(lease_id);
            assert(!track.leases.contains(lease_id));
            let full = all.len() > SUBSCRIBE_MAX_LEASE_ALIASES;
            assert(all[0] == track.leases[0]);
            assert(all.no_duplicates());
            assert forall|i: int| 0 <= i < t.leases.len() implies r.lease_to_offset.contains_key(
                #[trigger] t.leases[i],
            ) && r.lease_to_offset[t.leases[i]] == offset by {
                let k = if full {
                    i + 1
                } else {
                    i
                };
                assert(t.leases[i] == all[k]);
                if k < track.leases.len() {
                    assert(s.lease_to_offset.contains_key(track.leases[k]));
                }
            }
            assert(t.leases.no_duplicates());
            assert forall|l: LeaseId| #[trigger] r.lease_to_offset.contains_key(l) implies r.names(
                l,
            ) by {
                if l == lease_id {
                    assert(t.leases.last() == l);
                } else {
                    assert(s.lease_to_offset.contains_key(l));
                    assert(s.names(l));
                    if s.lease_to_offset[l] == offset {
                        let k = choose|k: int| 0 <= k < track.leases.len() && track.leases[k] == l;
                        assert(all[k] == l);
                        assert(t.leases[if full { k - 1 } else { k }] == l);
                    }
                }
            }
        } else {
            assert(t.leases[0] == lease_id);
            assert forall|l: LeaseId| #[trigger] r.lease_to_offset.contains_key(l) implies r.names(
                l,
            ) by {
                if l != lease_id {
                    assert(s.lease_to_offset.contains_key(l));
                    assert(s.names(l));
                }
            }
        }
        assert forall|o: Offset| #[trigger] r.by_offset.contains_key(o) implies r.track_wf(o)
            && !r.acked_recently.contains_key(o) by {
            if o != offset {
                assert(s.by_offset.contains_key(o));
                assert(s.track_wf(o));
                let x = s.by_offset[o];
                assert forall|i: int| 0 <= i < x.leases.len() implies r.lease_to_offset.contains_key(
                    #[trigger] x.leases[i],
                ) && r.lease_to_offset[x.leases[i]] == o by {
                    assert(s.lease_to_offset.contains_key(x.leases[i]));
                    if s.by_offset.contains_key(offset) {
                        assert(s.track_wf(offset));
                        let first = s.by_offset[offset].leases[0];
                        assert(s.lease_to_offset[first] == offset);
                    }
                }
            }
        }
    }
}

/// An ack or nack keeps the tracking well-formed.
pub proof fn resolve_keeps_wf(s: TrackingView, lease_id: LeaseId, acked_until: Option<u64>)
    requires
        s.wf(),
    ensures
        s.resolve(lease_id, acked_until).0.wf(),
{
    let r = s.resolve(lease_id, acked_until).0;
    if s.resolves(lease_id) {
        let offset = s.lease_to_offset[lease_id];
        let gone = s.by_offset[offset].leases;
        assert(s.track_wf(offset));
        assert forall|o: Offset| #[trigger] r.by_offset.contains_key(o) implies r.track_wf(o)
            && !r.acked_recently.contains_key(o) by {
            assert(s.by_offset.contains_key(o));
            assert(s.track_wf(o));
            let x = s.by_offset[o];
            assert forall|i: int| 0 <= i < x.leases.len() implies r.lease_to_offset.contains_key(
                #[trigger] x.leases[i],
            ) && r.lease_to_offset[x.leases[i]] == o by {
                assert(s.lease_to_offset[x.leases[i]] == o);
                if gone.contains(x.leases[i]) {
                    let k = choose|k: int| 0 <= k < gone.len() && gone[k] == x.leases[i];
                    assert(s.lease_to_offset[gone[k]] == offset);
                }
            }
        }
        assert forall|l: LeaseId| #[trigger] r.lease_to_offset.contains_key(l) implies r.names(
            l,
        ) by {
            assert(s.lease_to_offset.contains_key(l));
            assert(s.names(l));
            assert(!gone.to_set().contains(l));
            if s.lease_to_offset[l] == offset {
                assert(gone.contains(l));
            }
        }
    }
}

/// Sweeping keeps the tracking well-formed.
pub proof fn sweep_keeps_wf(s: TrackingView, now_ms: u64, grace_ms: u64)
    requires
        s.wf(),
    ensures
        s.swept(now_ms, grace_ms).wf(),
{
    let r = s.swept(now_ms, grace_ms);
    assert forall|o: Offset| #[trigger] r.by_offset.contains_key(o) implies r.track_wf(o)
        && !r.acked_recently.contains_key(o) by {
        assert(s.by_offset.contains_key(o));
        assert(s.track_wf(o));
        let x = s.by_offset[o];
        assert forall|i: int| 0 <= i < x.leases.len() implies r.lease_to_offset.contains_key(
            #[trigger] x.leases[i],
        ) && r.lease_to_offset[x.leases[i]] == o by {
            let l = x.leases[i];
            assert(s.lease_to_offset[l] == o);
            if s.lease_is_stale(l, now_ms, grace_ms) {
                let p = choose|p: Offset| #[trigger]
                    s.stale(p, now_ms, grace_ms) && s.by_offset[p].leases.contains(l);
                assert(s.track_wf(p));
                let k = choose|k: int|
                    0 <= k < s.by_offset[p].leases.len() && s.by_offset[p].leases[k] == l;
                assert(s.lease_to_offset[s.by_offset[p].leases[k]] == p);
            }
        }
    }
    assert forall|l: LeaseId| #[trigger] r.lease_to_offset.contains_key(l) implies r.names(l) by {
        assert(s.lease_to_offset.contains_key(l));
        assert(s.names(l));
        let o = s.lease_to_offset[l];
        if s.stale(o, now_ms, grace_ms) {
            assert(s.lease_is_stale(l, now_ms, grace_ms));
        }
    }
}

/// A message whose lease ran out while the consumer still works on it is not pushed
/// again: the lease is refreshed, and an ack of the lease that was pushed completes
/// the message under the lease that holds it now.
pub proof fn late_ack_completes_the_message(
    s: TrackingView,
    offset: Offset,
    first: LeaseId,
    second: LeaseId,
    deadline1: u64,
    now1: u64,
    deadline2: u64,
    now2: u64,
    acked_until: Option<u64>,
)
    requires
        s.wf(),
        !s.by_offset.contains_key(offset),
        !s.acked_at(offset, now1),
        !s.lease_to_offset.contains_key(first),
        !s.lease_to_offset.contains_key(second),
        first != second,
    ensures
        ({
            let (a, d1) = s.deliver(offset, first, deadline1, now1);
            let (b, d2) = a.deliver(offset, second, deadline2, now2);
            &&& d1 == Delivery::Push
            &&& d2 == Delivery::Refreshed
            &&& b.resolve(first, acked_until).1 == Some(second)
            &&& !b.resolve(first, acked_until).0.by_offset.contains_key(offset)
        }),
{
    let (a, d1) = s.deliver(offset, first, deadline1, now1);
    let (b, d2) = a.deliver(offset, second, deadline2, now2);
    assert(!a.acked_at(offset, now2));
    assert(b.lease_to_offset.contains_key(first));
}

/// An ack of any lease by which a message is known completes it under the lease that
/// holds it now, and no other message is touched.
pub proof fn any_known_lease_completes_the_message(
    s: TrackingView,
    lease_id: LeaseId,
    acked_until: Option<u64>,
)
    requires
        s.wf(),
        s.lease_to_offset.contains_key(lease_id),
    ensures
        ({
            let offset = s.lease_to_offset[lease_id];
            let (r, held) = s.resolve(lease_id, acked_until);
            &&& held == Some(s.by_offset[offset].lease_id)
            &&& r.by_offset == s.by_offset.remove(offset)
            &&& forall|l: LeaseId| #[trigger]
                r.lease_to_offset.contains_key(l) <==> s.lease_to_offset.contains_key(l)
                    && s.lease_to_offset[l] != offset
        }),
{
    assert(s.names(lease_id));
    let offset = s.lease_to_offset[lease_id];
    let r = s.resolve(lease_id, acked_until).0;
    assert(s.track_wf(offset));
    assert forall|l: LeaseId| #[trigger]
        r.lease_to_offset.contains_key(l) <==> s.lease_to_offset.contains_key(l)
            && s.lease_to_offset[l] != offset by {
        let leases = s.by_offset[offset].leases;
        assert(leases.to_set().contains(l) <==> leases.contains(l));
        if s.lease_to_offset.contains_key(l) {
            assert(s.names(l));
        }
        if leases.contains(l) {
            let i = choose|i: int| 0 <= i < leases.len() && leases[i] == l;
            assert(s.lease_to_offset[leases[i]] == offset);
        }
    }
}

/// The tracking after messages were leased for the subscription one after the other:
/// the offset, the lease, its deadline and the time of each.
pub open spec fn delivered_in_turn(
    s: TrackingView,
    arrivals: Seq<(Offset, LeaseId, u64, u64)>,
) -> TrackingView
    decreases arrivals.len(),
{
    if arrivals.len() == 0 {
        s
    } else {
        let (offset, lease_id, deadline_ms, now_ms) = arrivals.last();
        delivered_in_turn(s, arrivals.drop_last()).deliver(offset, lease_id, deadline_ms, now_ms).0
    }
}

/// Where as many messages are leased as there is room for, no more are out than may be.
pub proof fn prefetch_bounds_what_is_out(
    s: TrackingView,
    arrivals: Seq<(Offset, LeaseId, u64, u64)>,
    now_ms: u64,
    prefetch: nat,
)
    requires
        s.by_offset.dom().finite(),
        s.live(now_ms).len() + arrivals.len() <= prefetch,
    ensures
        delivered_in_turn(s, arrivals).live(now_ms).len() <= prefetch,
        delivered_in_turn(s, arrivals).by_offset.dom().finite(),
    decreases arrivals.len(),
{
    if arrivals.len() > 0 {
        let before = delivered_in_turn(s, arrivals.drop_last());
        prefetch_bounds_what_is_out(s, arrivals.drop_last(), now_ms, (prefetch - 1) as nat);
        let (offset, lease_id, deadline_ms, at_ms) = arrivals.last();
        let after = before.deliver(offset, lease_id, deadline_ms, at_ms).0;
        let (a, b) = (before.live(now_ms), after.live(now_ms));
        assert(b.subset_of(a.insert(offset)));
        vstd::set_lib::lemma_len_subset(b, a.insert(offset));
    }
}

/// What happens to a subscription that runs.
pub enum SubEvent {
    /// It looks how many messages are out, and leases as many as there is room for.
    Look { now_ms: u64, grace_ms: u64 },
    /// One of the messages that it leased comes out.
    Leased { offset: Offset, lease_id: LeaseId, deadline_ms: u64, now_ms: u64 },
    /// The consumer acks or nacks.
    Answered { lease_id: LeaseId, acked_until: Option<u64> },
}

/// How a subscription stands: what it tracks, when it last looked, and how many messages
/// may still come out of that.
pub struct SubRun {
    pub tracking: TrackingView,
    pub looked_ms: u64,
    pub expected: nat,
}

impl SubRun {
    pub open spec fn fresh() -> SubRun {
        SubRun { tracking: TrackingView::fresh(), looked_ms: 0, expected: 0 }
    }

    /// The event can happen: the clock does not go back, and no more messages come out than
    /// were leased.
    pub open spec fn admits(self, e: SubEvent) -> bool {
        match e {
            SubEvent::Look { now_ms, .. } => self.looked_ms <= now_ms,
            SubEvent::Leased { .. } => self.expected > 0,
            SubEvent::Answered { .. } => true,
        }
    }

    pub open spec fn after(self, prefetch: nat, e: SubEvent) -> SubRun {
        match e {
            SubEvent::Look { now_ms, grace_ms } => {
                let tracking = self.tracking.swept(now_ms, grace_ms);
                let live = tracking.live(now_ms).len();
                SubRun {
                    tracking,
                    looked_ms: now_ms,
                    expected: if live < prefetch {
                        (prefetch - live) as nat
                    } else {
                        0
                    },
                }
            },
            SubEvent::Leased { offset, lease_id, deadline_ms, now_ms } => SubRun {
                tracking: self.tracking.deliver(offset, lease_id, deadline_ms, now_ms).0,
                expected: (self.expected - 1) as nat,
                ..self
            },
            SubEvent::Answered { lease_id, acked_until } => SubRun {
                tracking: self.tracking.resolve(lease_id, acked_until).0,
                ..self
            },
        }
    }
}

/// How the subscription stands after the events.
pub open spec fn sub_run(prefetch: nat, events: Seq<SubEvent>) -> SubRun
    decreases events.len(),
{
    if events.len() == 0 {
        SubRun::fresh()
    } else {
        sub_run(prefetch, events.drop_last()).after(prefetch, events.last())
    }
}

/// Each of the events can happen where it stands.
pub open spec fn sub_runs(prefetch: nat, events: Seq<SubEvent>) -> bool
    decreases events.len(),
{
    events.len() == 0 || {
        &&& sub_runs(prefetch, events.drop_last())
        &&& sub_run(prefetch, events.drop_last()).admits(events.last())
    }
}

/// Through the whole life of a subscription, however looking, pushing and acking take
/// turns, there are never more messages out than `prefetch`: at no time since it last
/// looked do the leases of more messages run.
pub proof fn never_more_than_prefetch_out(prefetch: nat, events: Seq<SubEvent>, now_ms: u64)
    requires
        sub_runs(prefetch, events),
        sub_run(prefetch, events).looked_ms <= now_ms,
    ensures
        sub_run(prefetch, events).tracking.live(now_ms).len() <= prefetch,
{
    lemma_sub_run(prefetch, events);
    let r = sub_run(prefetch, events);
    let (a, b) = (r.tracking.live(now_ms), r.tracking.live(r.looked_ms));
    assert(a.subset_of(b));
    vstd::set_lib::lemma_len_subset(a, b);
}

proof fn lemma_sub_run(prefetch: nat, events: Seq<SubEvent>)
    requires
        sub_runs(prefetch, events),
    ensures
        ({
            let r = sub_run(prefetch, events);
            &&& r.tracking.by_offset.dom().finite()
            &&& r.tracking.live(r.looked_ms).len() + r.expected <= prefetch
        }),
    decreases events.len(),
{
    if events.len() == 0 {
        let r = SubRun::fresh();
        assert(r.tracking.live(r.looked_ms) =~= Set::empty());
    } else {
        lemma_sub_run(prefetch, events.drop_last());
        let s = sub_run(prefetch, events.drop_last());
        let r = sub_run(prefetch, events);
        let (a, b) = (s.tracking.live(s.looked_ms), r.tracking.live(r.looked_ms));
        match events.last() {
            SubEvent::Look { now_ms, grace_ms } => {
                assert(r.tracking.by_offset.dom().subset_of(s.tracking.by_offset.dom()));
                vstd::set_lib::lemma_len_subset(
                    r.tracking.by_offset.dom(),
                    s.tracking.by_offset.dom(),
                );
                assert(b.subset_of(a));
                vstd::set_lib::lemma_len_subset(b, a);
            },
            SubEvent::Leased { offset, lease_id, deadline_ms, now_ms } => {
                assert(b.subset_of(a.insert(offset)));
                vstd::set_lib::lemma_len_subset(b, a.insert(offset));
            },
            SubEvent::Answered { lease_id, acked_until } => {
                assert(b.subset_of(a));
                vstd::set_lib::lemma_len_subset(b, a);
            },
        }
    }
}

/// A message that is never acked is pushed, refreshed twice in silence and then
/// pushed again.
pub proof fn push_follows_two_refreshes(
    s: TrackingView,
    offset: Offset,
    leases: Seq<LeaseId>,
    deadlines: Seq<u64>,
    times: Seq<u64>,
)
    requires
        !s.by_offset.contains_key(offset),
        !s.acked_at(offset, times[0]),
    ensures
        ({
            let (a, d1) = s.deliver(offset, leases[0], deadlines[0], times[0]);
            let (b, d2) = a.deliver(offset, leases[1], deadlines[1], times[1]);
            let (c, d3) = b.deliver(offset, leases[2], deadlines[2], times[2]);
            let (d, d4) = c.deliver(offset, leases[3], deadlines[3], times[3]);
            &&& d1 == Delivery::Push
            &&& d2 == Delivery::Refreshed
            &&& d3 == Delivery::Refreshed
            &&& d4 == Delivery::Push
            &&& d.by_offset[offset].refreshes == 0
        }),
{
    let a = s.deliver(offset, leases[0], deadlines[0], times[0]).0;
    assert(!a.acked_at(offset, times[1]));
    let b = a.deliver(offset, leases[1], deadlines[1], times[1]).0;
    assert(!b.acked_at(offset, times[2]));
    let c = b.deliver(offset, leases[2], deadlines[2], times[2]).0;
    assert(!c.acked_at(offset, times[3]));
}

/// A second ack of the same message finds nothing to resolve and changes nothing.
pub proof fn duplicate_ack_changes_nothing(
    s: TrackingView,
    lease_id: LeaseId,
    again: LeaseId,
    acked_until: Option<u64>,
)
    requires
        s.wf(),
        s.resolves(lease_id),
        s.lease_to_offset.contains_key(again),
        s.lease_to_offset[again] == s.lease_to_offset[lease_id],
    ensures
        ({
            let r = s.resolve(lease_id, acked_until).0;
            r.resolve(again, acked_until) == (r, None::<LeaseId>)
        }),
{
    let offset = s.lease_to_offset[lease_id];
    assert(s.names(again));
    assert(s.by_offset[offset].leases.to_set().contains(again));
}

/// A message that was nacked is pushed again as soon as it is leased again, whatever
/// lease it comes back under.
pub proof fn nacked_message_is_pushed_again(
    s: TrackingView,
    lease_id: LeaseId,
    later: LeaseId,
    deadline_ms: u64,
    now_ms: u64,
)
    requires
        s.wf(),
        s.resolves(lease_id),
    ensures
        ({
            let r = s.resolve(lease_id, None).0;
            r.deliver(s.lease_to_offset[lease_id], later, deadline_ms, now_ms).1 == Delivery::Push
        }),
{
    assert(s.by_offset.contains_key(s.lease_to_offset[lease_id]));
}

/// A message that was acked is not pushed again while the ack counts, whatever lease
/// it comes back under; the tracking stays as it is.
pub proof fn acked_message_is_not_pushed_again(
    s: TrackingView,
    lease_id: LeaseId,
    acked_until: u64,
    later: LeaseId,
    deadline_ms: u64,
    now_ms: u64,
)
    requires
        s.resolves(lease_id),
        now_ms < acked_until,
    ensures
        ({
            let r = s.resolve(lease_id, Some(acked_until)).0;
            r.deliver(s.lease_to_offset[lease_id], later, deadline_ms, now_ms) == (
                r,
                Delivery::AlreadyAcked,
            )
        }),
{
}

/// A leased message that is handed on, or kept because the consumer still has it, is held
/// under its new lease until the new deadline, and an ack may name it by that lease. What is
/// tracked of the other messages stays as it is.
pub proof fn a_delivery_is_noted_under_its_new_lease(
    s: TrackingView,
    offset: Offset,
    lease_id: LeaseId,
    deadline_ms: u64,
    now_ms: u64,
    acked_until: Option<u64>,
)
    requires
        !(s.acked_recently.contains_key(offset) && s.acked_recently[offset] > now_ms),
    ensures
        ({
            let (r, d) = s.deliver(offset, lease_id, deadline_ms, now_ms);
            &&& d != Delivery::AlreadyAcked
            &&& r.by_offset.contains_key(offset)
            &&& r.by_offset[offset].lease_id == lease_id
            &&& r.by_offset[offset].deadline_ms == deadline_ms
            &&& r.resolve(lease_id, acked_until).1 == Some(lease_id)
            &&& !s.by_offset.contains_key(offset) ==> d == Delivery::Push
            &&& forall|other: Offset|
                other != offset ==> r.by_offset.contains_key(other)
                    == #[trigger] s.by_offset.contains_key(other) && r.by_offset[other]
                    == s.by_offset[other]
        }),
{
}

/// A consumer may ack a message by any of the last eight leases it was held under: a new
/// lease puts only the oldest of eight out of use.
pub proof fn only_the_oldest_of_eight_leases_is_forgotten(
    s: TrackingView,
    offset: Offset,
    lease_id: LeaseId,
    deadline_ms: u64,
    now_ms: u64,
    earlier: LeaseId,
)
    requires
        s.wf(),
        !s.lease_to_offset.contains_key(lease_id),
        s.by_offset.contains_key(offset),
        s.lease_to_offset.contains_key(earlier),
        s.lease_to_offset[earlier] == offset,
    ensures
        ({
            let r = s.deliver(offset, lease_id, deadline_ms, now_ms).0;
            let known = s.by_offset[offset].leases;
            let forgotten = known.len() >= 8 && earlier == known[0];
            &&& !forgotten ==> r.resolve(earlier, None).1 == Some(lease_id)
            &&& forgotten ==> r.resolve(earlier, None).1 is None
            &&& r.by_offset[offset].leases.len() == if known.len() >= 8 {
                8
            } else {
                known.len() + 1
            }
        }),
{
    assert(s.track_wf(offset));
    assert(s.names(earlier));
    let known = s.by_offset[offset].leases;
    let all = known.push(lease_id);
    assert(all[0] == known[0]);
    deliver_keeps_wf(s, offset, lease_id, deadline_ms, now_ms);
}

/// Sweeping forgets a message when its lease has run out and the grace after it too, with
/// all its leases, and forgets an ack when it no longer counts; whatever else is tracked
/// stays as it is.
pub proof fn sweeping_forgets_only_what_is_over(
    s: TrackingView,
    now_ms: u64,
    grace_ms: u64,
    offset: Offset,
    lease_id: LeaseId,
)
    requires
        s.wf(),
    ensures
        ({
            let r = s.swept(now_ms, grace_ms);
            let over = s.by_offset[offset].deadline_ms + grace_ms <= now_ms || now_ms == u64::MAX;
            &&& r.by_offset.contains_key(offset) <==> s.by_offset.contains_key(offset) && !over
            &&& r.by_offset.contains_key(offset) ==> r.by_offset[offset] == s.by_offset[offset]
            &&& r.lease_to_offset.contains_key(lease_id) <==> s.lease_to_offset.contains_key(
                lease_id,
            ) && r.by_offset.contains_key(s.lease_to_offset[lease_id])
            &&& r.lease_to_offset.contains_key(lease_id) ==> r.lease_to_offset[lease_id]
                == s.lease_to_offset[lease_id]
            &&& r.acked_recently.contains_key(offset) <==> s.acked_recently.contains_key(offset)
                && s.acked_recently[offset] > now_ms
            &&& r.acked_recently.contains_key(offset) ==> r.acked_recently[offset]
                == s.acked_recently[offset]
        }),
{
    let r = s.swept(now_ms, grace_ms);
    if s.lease_to_offset.contains_key(lease_id) {
        let o = s.lease_to_offset[lease_id];
        assert(s.names(lease_id));
        if s.stale(o, now_ms, grace_ms) {
            assert(s.lease_is_stale(lease_id, now_ms, grace_ms));
        }
        if s.lease_is_stale(lease_id, now_ms, grace_ms) {
            let p = choose|p: Offset| #[trigger]
                s.stale(p, now_ms, grace_ms) && s.by_offset[p].leases.contains(lease_id);
            assert(s.track_wf(p));
            let k = choose|k: int|
                0 <= k < s.by_offset[p].leases.len() && s.by_offset[p].leases[k] == lease_id;
            assert(s.lease_to_offset[s.by_offset[p].leases[k]] == p);
        }
    }
}

/// The messages that count as out are those that are tracked and whose lease still runs.
pub proof fn what_is_out_is_what_still_runs(s: TrackingView, now_ms: u64, offset: Offset)
    ensures
        s.live(now_ms).contains(offset) <==> s.by_offset.contains_key(offset)
            && s.by_offset[offset].deadline_ms > now_ms,
{
}

/// A message that was acked is pushed again once the ack no longer counts: it was leased
/// again after all.
pub proof fn an_acked_message_comes_back_when_the_ack_is_over(
    s: TrackingView,
    lease_id: LeaseId,
    acked_until: u64,
    later: LeaseId,
    deadline_ms: u64,
    now_ms: u64,
)
    requires
        s.wf(),
        s.lease_to_offset.contains_key(lease_id),
        acked_until <= now_ms,
    ensures
        ({
            let r = s.resolve(lease_id, Some(acked_until)).0;
            r.deliver(s.lease_to_offset[lease_id], later, deadline_ms, now_ms).1 == Delivery::Push
        }),
{
    assert(s.names(lease_id));
}

} // verus!
