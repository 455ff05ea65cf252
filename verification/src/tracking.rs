//! What a subscription has pushed to its connection and not yet seen acked.
use crate::group::lemma_take_push;
use crate::totals::capped;
use crate::tree::sorted_keys;
use crate::types::{LeaseId, Offset};
use std::collections::BTreeMap;
use vstd::prelude::*;

verus! {

/// How often a lease is refreshed in silence before its message is pushed again.
pub const SUBSCRIBE_MAX_LEASE_REFRESHES: u32 = 2;

/// How many leases of one message an ack may name.
pub const SUBSCRIBE_MAX_LEASE_ALIASES: usize = 8;

/// A message that was pushed and is not yet acked.
#[derive(Debug)]
pub struct OffsetTrack {
    pub lease_id: LeaseId,
    pub deadline_ms: u64,
    pub refreshes: u32,
    pub leases: Vec<LeaseId>,
}

/// The value of an [`OffsetTrack`].
#[verifier::ext_equal]
pub struct TrackView {
    /// The lease under which the message is held now.
    pub lease_id: LeaseId,
    pub deadline_ms: u64,
    /// How often the lease was refreshed since the last push.
    pub refreshes: u32,
    /// The leases by which an ack may name the message, oldest first.
    pub leases: Seq<LeaseId>,
}

impl View for OffsetTrack {
    type V = TrackView;

    open spec fn view(&self) -> TrackView {
        TrackView {
            lease_id: self.lease_id,
            deadline_ms: self.deadline_ms,
            refreshes: self.refreshes,
            leases: self.leases@,
        }
    }
}

/// What is to be done with a message that was leased for the subscription.
#[derive(Debug, Clone, Copy, PartialEq, Eq)]
pub enum Delivery {
    /// It goes out on the connection.
    Push,
    /// The consumer still has it: its lease was renewed.
    Refreshed,
    /// The consumer acked it a moment ago: the ack is sent again.
    AlreadyAcked,
}

/// The value of a [`SubTracking`].
#[verifier::ext_equal]
pub struct TrackingView {
    pub by_offset: Map<Offset, TrackView>,
    pub lease_to_offset: Map<LeaseId, Offset>,
    /// Until when an ack of the message counts.
    pub acked_recently: Map<Offset, u64>,
}

impl TrackingView {
    pub open spec fn fresh() -> TrackingView {
        TrackingView {
            by_offset: Map::empty(),
            lease_to_offset: Map::empty(),
            acked_recently: Map::empty(),
        }
    }

    /// The message was acked, and the ack still counts at `now_ms`.
    pub open spec fn acked_at(self, offset: Offset, now_ms: u64) -> bool {
        self.acked_recently.contains_key(offset) && self.acked_recently[offset] > now_ms
    }

    /// What becomes of a message that was leased for the subscription under
    /// `lease_id`, and what is noted of it.
    pub open spec fn deliver(
        self,
        offset: Offset,
        lease_id: LeaseId,
        deadline_ms: u64,
        now_ms: u64,
    ) -> (TrackingView, Delivery) {
        if self.acked_at(offset, now_ms) {
            (self, Delivery::AlreadyAcked)
        } else {
            let acked_recently = self.acked_recently.remove(offset);
            if self.by_offset.contains_key(offset) {
                let track = self.by_offset[offset];
                let refresh = track.refreshes < SUBSCRIBE_MAX_LEASE_REFRESHES;
                let leases = track.leases.push(lease_id);
                let full = leases.len() > SUBSCRIBE_MAX_LEASE_ALIASES;
                (
                    TrackingView {
                        by_offset: self.by_offset.insert(
                            offset,
                            TrackView {
                                lease_id,
                                deadline_ms,
                                refreshes: if refresh {
                                    (track.refreshes + 1) as u32
                                } else {
                                    0
                                },
                                leases: if full {
                                    leases.skip(1)
                                } else {
                                    leases
                                },
                            },
                        ),
                        lease_to_offset: if full {
                            self.lease_to_offset.remove(leases[0]).insert(lease_id, offset)
                        } else {
                            self.lease_to_offset.insert(lease_id, offset)
                        },
                        acked_recently,
                    },
                    if refresh {
                        Delivery::Refreshed
                    } else {
                        Delivery::Push
                    },
                )
            } else {
                (
                    TrackingView {
                        by_offset: self.by_offset.insert(
                            offset,
                            TrackView {
                                lease_id,
                                deadline_ms,
                                refreshes: 0,
                                leases: seq![lease_id],
                            },
                        ),
                        lease_to_offset: self.lease_to_offset.insert(lease_id, offset),
                        acked_recently,
                    },
                    Delivery::Push,
                )
            }
        }
    }

    /// The message that an ack of `lease_id` names is still tracked.
    pub open spec fn resolves(self, lease_id: LeaseId) -> bool {
        self.lease_to_offset.contains_key(lease_id) && self.by_offset.contains_key(
            self.lease_to_offset[lease_id],
        )
    }

    /// An ack or nack of `lease_id` ends the tracking of its message; the answer is
    /// the lease under which the message is held now. An ack counts until `acked_until`.
    pub open spec fn resolve(
        self,
        lease_id: LeaseId,
        acked_until: Option<u64>,
    ) -> (TrackingView, Option<LeaseId>) {
        if self.resolves(lease_id) {
            let offset = self.lease_to_offset[lease_id];
            let track = self.by_offset[offset];
            (
                TrackingView {
                    by_offset: self.by_offset.remove(offset),
                    lease_to_offset: self.lease_to_offset.remove_keys(track.leases.to_set()),
                    acked_recently: match acked_until {
                        Some(until) => self.acked_recently.insert(offset, until),
                        None => self.acked_recently,
                    },
                },
                Some(track.lease_id),
            )
        } else {
            (self, None)
        }
    }

    /// The lease on the message ran out more than `grace_ms` ago.
    pub open spec fn stale(self, offset: Offset, now_ms: u64, grace_ms: u64) -> bool {
        self.by_offset.contains_key(offset) && capped(
            (self.by_offset[offset].deadline_ms + grace_ms) as nat,
        ) <= now_ms
    }

    /// Some stale message has the lease.
    pub open spec fn lease_is_stale(
        self,
        lease_id: LeaseId,
        now_ms: u64,
        grace_ms: u64,
    ) -> bool {
        exists|o: Offset| #[trigger]
            self.stale(o, now_ms, grace_ms) && self.by_offset[o].leases.contains(lease_id)
    }

    /// What is stale is forgotten, and so are the acks that no longer count.
    pub open spec fn swept(self, now_ms: u64, grace_ms: u64) -> TrackingView {
        TrackingView {
            by_offset: self.by_offset.restrict(
                Set::new(|o: Offset| !self.stale(o, now_ms, grace_ms)),
            ),
            lease_to_offset: self.lease_to_offset.restrict(
                Set::new(|l: LeaseId| !self.lease_is_stale(l, now_ms, grace_ms)),
            ),
            acked_recently: self.acked_recently.restrict(
                Set::new(|o: Offset| self.acked_at(o, now_ms)),
            ),
        }
    }

    /// The messages whose lease still runs.
    pub open spec fn live(self, now_ms: u64) -> Set<Offset> {
        self.by_offset.dom().filter(|o: Offset| self.by_offset[o].deadline_ms > now_ms)
    }
}

/// The messages that a subscription has pushed and not yet seen acked.
#[derive(Debug)]
pub struct SubTracking {
    by_offset: BTreeMap<Offset, OffsetTrack>,
    lease_to_offset: BTreeMap<LeaseId, Offset>,
    acked_recently: BTreeMap<Offset, u64>,
}

impl View for SubTracking {
    type V = TrackingView;

    closed spec fn view(&self) -> TrackingView {
        TrackingView {
            by_offset: self.by_offset@.map_values(|t: OffsetTrack| t@),
            lease_to_offset: self.lease_to_offset@,
            acked_recently: self.acked_recently@,
        }
    }
}

impl Default for SubTracking {
    fn default() -> (r: Self)
        ensures
            r@ == TrackingView::fresh(),
    {
        let r = SubTracking {
            by_offset: BTreeMap::new(),
            lease_to_offset: BTreeMap::new(),
            acked_recently: BTreeMap::new(),
        };
        assert(r@ =~= TrackingView::fresh());
        r
    }
}

impl SubTracking {
    /// Notes that a message was leased for the subscription, and says what is to be
    /// done with it.
    pub fn deliver(
        &mut self,
        offset: Offset,
        lease_id: LeaseId,
        deadline_ms: u64,
        now_ms: u64,
    ) -> (r: Delivery)
        ensures
            (final(self)@, r) == old(self)@.deliver(offset, lease_id, deadline_ms, now_ms),
    {
        let ghost start = self@;
        let ghost goal = start.deliver(offset, lease_id, deadline_ms, now_ms);
        match self.acked_recently.get(&offset) {
            Some(until) => {
                if *until > now_ms {
                    return Delivery::AlreadyAcked;
                }
            },
            None => {},
        }
        self.acked_recently.remove(&offset);
        match self.by_offset.remove(&offset) {
            Some(mut track) => {
                let refresh: bool = track.refreshes < SUBSCRIBE_MAX_LEASE_REFRESHES;
                let ghost before = track@;
                assert(before == start.by_offset[offset]);
                track.refreshes = if refresh {
                    track.refreshes + 1
                } else {
                    0
                };
                track.lease_id = lease_id;
                track.deadline_ms = deadline_ms;
                track.leases.push(lease_id);
                if track.leases.len() > SUBSCRIBE_MAX_LEASE_ALIASES {
                    let oldest: u64 = track.leases.remove(0);
                    self.lease_to_offset.remove(&oldest);
                    assert(track.leases@ =~= before.leases.push(lease_id).skip(1));
                }
                self.lease_to_offset.insert(lease_id, offset);
                self.by_offset.insert(offset, track);
                proof {
                    assert(self@.by_offset =~= goal.0.by_offset);
                    assert(self@ =~= goal.0);
                }
                if refresh {
                    Delivery::Refreshed
                } else {
                    Delivery::Push
                }
            },
            None => {
                let leases: Vec<LeaseId> = vec![lease_id];
                assert(leases@ =~= seq![lease_id]);
                self.by_offset.insert(
                    offset,
                    OffsetTrack { lease_id, deadline_ms, refreshes: 0, leases },
                );
                self.lease_to_offset.insert(lease_id, offset);
                proof {
                    assert(self@.by_offset =~= goal.0.by_offset);
                    assert(self@ =~= goal.0);
                }
                Delivery::Push
            },
        }
    }

    /// Forgets the leases.
    fn drop_leases(&mut self, leases: &Vec<LeaseId>)
        ensures
            final(self).by_offset == old(self).by_offset,
            final(self).acked_recently == old(self).acked_recently,
            final(self).lease_to_offset@ == old(self).lease_to_offset@.remove_keys(
                leases@.to_set(),
            ),
    {
        let ghost start = self.lease_to_offset@;
        let mut i: usize = 0;
        while i < leases.len()
            invariant
                i <= leases@.len(),
                self.by_offset == old(self).by_offset,
                self.acked_recently == old(self).acked_recently,
                self.lease_to_offset@ == start.remove_keys(leases@.take(i as int).to_set()),
            decreases leases@.len() - i,
        {
            proof {
                lemma_take_push(leases@, i as int);
            }
            self.lease_to_offset.remove(&leases[i]);
            i += 1;
            assert(self.lease_to_offset@ =~= start.remove_keys(leases@.take(i as int).to_set()));
        }
        assert(leases@.take(i as int) =~= leases@);
    }

    /// Ends the tracking of the message that `lease_id` names.
    pub fn resolve(&mut self, lease_id: LeaseId, acked_until: Option<u64>) -> (r: Option<LeaseId>)
        ensures
            (final(self)@, r) == old(self)@.resolve(lease_id, acked_until),
    {
        let ghost start = self@;
        let offset: u64 = match self.lease_to_offset.get(&lease_id) {
            Some(o) => *o,
            None => {
                return None;
            },
        };
        match self.by_offset.remove(&offset) {
            Some(track) => {
                self.drop_leases(&track.leases);
                match acked_until {
                    Some(until) => {
                        self.acked_recently.insert(offset, until);
                    },
                    None => {},
                }
                proof {
                    let goal = start.resolve(lease_id, acked_until).0;
                    assert(self@.by_offset =~= goal.by_offset);
                    assert(self@ =~= goal);
                }
                Some(track.lease_id)
            },
            None => {
                proof {
                    assert(self@.by_offset =~= start.by_offset);
                }
                None
            },
        }
    }

    /// Forgets the acks that no longer count.
    fn sweep_acked(&mut self, now_ms: u64)
        ensures
            final(self).by_offset == old(self).by_offset,
            final(self).lease_to_offset == old(self).lease_to_offset,
            final(self).acked_recently@ == old(self)@.acked_recently.restrict(
                Set::new(|o: Offset| old(self)@.acked_at(o, now_ms)),
            ),
    {
        let ghost start = self@;
        let keys = sorted_keys(&self.acked_recently);
        let mut i: usize = 0;
        while i < keys.len()
            invariant
                i <= keys@.len(),
                keys@.no_duplicates(),
                keys@.to_set() == start.acked_recently.dom(),
                self.by_offset == old(self).by_offset,
                self.lease_to_offset == old(self).lease_to_offset,
                forall|o: Offset| #[trigger]
                    self.acked_recently@.contains_key(o) <==> start.acked_recently.contains_key(o)
                        && (start.acked_at(o, now_ms) || !keys@.take(i as int).contains(o)),
                forall|o: Offset| #[trigger]
                    self.acked_recently@.contains_key(o) ==> self.acked_recently@[o]
                        == start.acked_recently[o],
            decreases keys@.len() - i,
        {
            let k: u64 = keys[i];
            proof {
                lemma_take_push(keys@, i as int);
                assert(keys@.to_set().contains(k));
                assert(self.acked_recently@.contains_key(k));
            }
            match self.acked_recently.get(&k) {
                Some(until) => {
                    if *until <= now_ms {
                        self.acked_recently.remove(&k);
                    }
                },
                None => {},
            }
            i += 1;
        }
        proof {
            assert(keys@.take(i as int) =~= keys@);
            assert forall|o: Offset| start.acked_recently.contains_key(o) implies keys@.contains(
                o,
            ) by {
                assert(keys@.to_set().contains(o));
            }
            assert(self.acked_recently@ =~= start.acked_recently.restrict(
                Set::new(|o: Offset| start.acked_at(o, now_ms)),
            ));
        }
    }

    /// Forgets what is stale, and counts the messages whose lease still runs.
    pub fn live_count(&mut self, now_ms: u64, grace_ms: u64) -> (r: usize)
        ensures
            final(self)@ == old(self)@.swept(now_ms, grace_ms),
            r == final(self)@.live(now_ms).len(),
    {
        let ghost start = self@;
        self.sweep_acked(now_ms);
        let keys = sorted_keys(&self.by_offset);
        let mut count: usize = 0;
        let mut i: usize = 0;
        let ghost mut seen: Set<Offset> = Set::empty();
        proof {
            assert(self@.by_offset.dom() =~= self.by_offset@.dom());
            assert(self@.lease_to_offset =~= start.lease_to_offset);
            assert(self@.by_offset =~= start.by_offset);
        }
        while i < keys.len()
            invariant
                i <= keys@.len(),
                keys@.no_duplicates(),
                keys@.to_set() == start.by_offset.dom(),
                self@.acked_recently == start.acked_recently.restrict(
                    Set::new(|o: Offset| start.acked_at(o, now_ms)),
                ),
                forall|o: Offset| #[trigger]
                    self@.by_offset.contains_key(o) <==> start.by_offset.contains_key(o) && (
                    !start.stale(o, now_ms, grace_ms) || !keys@.take(i as int).contains(o)),
                forall|o: Offset| #[trigger]
                    self@.by_offset.contains_key(o) ==> self@.by_offset[o] == start.by_offset[o],
                forall|l: LeaseId| #[trigger]
                    self@.lease_to_offset.contains_key(l) <==> start.lease_to_offset.contains_key(l)
                        && forall|o: Offset|
                        keys@.take(i as int).contains(o) && #[trigger] start.stale(
                            o,
                            now_ms,
                            grace_ms,
                        ) ==> !start.by_offset[o].leases.contains(l),
                forall|l: LeaseId| #[trigger]
                    self@.lease_to_offset.contains_key(l) ==> self@.lease_to_offset[l]
                        == start.lease_to_offset[l],
                seen.finite(),
                count == seen.len(),
                count <= i,
                forall|o: Offset| #[trigger]
                    seen.contains(o) <==> keys@.take(i as int).contains(o)
                        && start.by_offset[o].deadline_ms > now_ms,
            decreases keys@.len() - i,
        {
            let k: u64 = keys[i];
            let ghost before = self@;
            let ghost taken = keys@.take(i as int);
            proof {
                lemma_take_push(keys@, i as int);
                assert(keys@.to_set().contains(k));
                assert(self@.by_offset.contains_key(k));
            }
            match self.by_offset.remove(&k) {
                Some(track) => {
                    assert(track@ == start.by_offset[k]);
                    let deadline_ms: u64 = track.deadline_ms;
                    if deadline_ms.saturating_add(grace_ms) <= now_ms {
                        self.drop_leases(&track.leases);
                    } else {
                        self.by_offset.insert(k, track);
                    }
                    if deadline_ms > now_ms {
                        count += 1;
                        proof {
                            seen = seen.insert(k);
                        }
                    }
                },
                None => {},
            }
            i += 1;
            proof {
                let now_taken = keys@.take(i as int);
                let dropped = start.stale(k, now_ms, grace_ms);
                let leases = start.by_offset[k].leases;
                assert(self@.by_offset =~= if dropped {
                    before.by_offset.remove(k)
                } else {
                    before.by_offset
                });
                assert(self@.lease_to_offset =~= if dropped {
                    before.lease_to_offset.remove_keys(leases.to_set())
                } else {
                    before.lease_to_offset
                });
                assert forall|l: LeaseId| #[trigger]
                    self@.lease_to_offset.contains_key(l) implies self@.lease_to_offset[l]
                    == start.lease_to_offset[l] by {
                    assert(before.lease_to_offset.contains_key(l));
                }
                assert forall|l: LeaseId| #[trigger]
                    self@.lease_to_offset.contains_key(l) <==> start.lease_to_offset.contains_key(l)
                        && forall|o: Offset|
                        now_taken.contains(o) && #[trigger] start.stale(o, now_ms, grace_ms)
                            ==> !start.by_offset[o].leases.contains(l) by {
                    assert(before.lease_to_offset.contains_key(l)
                        <==> start.lease_to_offset.contains_key(l) && forall|o: Offset|
                        taken.contains(o) && #[trigger] start.stale(o, now_ms, grace_ms)
                            ==> !start.by_offset[o].leases.contains(l));
                    if dropped {
                        assert(self@.lease_to_offset.contains_key(l)
                            <==> before.lease_to_offset.contains_key(l) && !leases.contains(l));
                        if leases.contains(l) {
                            assert(now_taken.contains(k));
                        }
                    }
                }
            }
        }
        proof {
            assert(keys@.take(i as int) =~= keys@);
            assert forall|o: Offset| start.by_offset.contains_key(o) <==> keys@.contains(o) by {
                assert(keys@.to_set().contains(o) <==> keys@.contains(o));
            }
            let goal = start.swept(now_ms, grace_ms);
            assert(self@.by_offset =~= goal.by_offset);
            assert forall|l: LeaseId| self@.lease_to_offset.contains_key(
                l,
            ) <==> goal.lease_to_offset.contains_key(l) by {
                if start.lease_is_stale(l, now_ms, grace_ms) {
                    let o = choose|o: Offset| #[trigger]
                        start.stale(o, now_ms, grace_ms) && start.by_offset[o].leases.contains(l);
                    assert(keys@.contains(o));
                }
            }
            assert(self@.lease_to_offset =~= goal.lease_to_offset);
            assert(self@ =~= goal);
            assert(seen =~= self@.live(now_ms));
        }
        count
    }
}

} // verus!
