//! A consumer group of a topic.
use crate::model::{lemma_run_end, run_end, GroupView, Lease};
use crate::snapshot::{lists_leases, GroupData};
use crate::tree::{members_below, sorted_keys};
use crate::types::{LeaseId, Offset};
use std::collections::{BTreeMap, BTreeSet};
use vstd::prelude::*;

verus! {

/// What a consumer group has done with the messages of its topic.
#[derive(Debug)]
pub struct GroupState {
    ack_watermark: Offset,
    acked_above: BTreeSet<Offset>,
    in_flight: BTreeMap<LeaseId, Lease>,
    leased_offsets: BTreeSet<Offset>,
    poll_count: u64,
}

impl View for GroupState {
    type V = GroupView;

    closed spec fn view(&self) -> GroupView {
        GroupView {
            ack_watermark: self.ack_watermark,
            acked_above: self.acked_above@,
            in_flight: self.in_flight@,
            poll_count: self.poll_count,
        }
    }
}

/// To mark an offset as done makes that offset done and no other, and leaves the leases.
pub proof fn lemma_mark_acked(g: GroupView, offset: u64)
    requires
        g.acks_apart(),
        offset < u64::MAX,
    ensures
        g.mark_acked(offset).acks_apart(),
        g.mark_acked(offset).in_flight == g.in_flight,
        g.mark_acked(offset).poll_count == g.poll_count,
        forall|o: u64| #[trigger]
            g.mark_acked(offset).done(o) <==> g.done(o) || o == offset,
{
    let above = g.acked_above.insert(offset);
    lemma_run_end(g.ack_watermark, above);
    let r = g.mark_acked(offset);
    assert forall|o: u64| #[trigger] r.done(o) <==> g.done(o) || o == offset by {
        if r.done(o) && g.ack_watermark <= o {
            assert(offset < g.ack_watermark || above.contains(o));
        }
    }
}

/// A step that marks an offset as done keeps the group tidy, unless a lease holds the
/// offset.
pub proof fn lemma_mark_acked_tidy(g: GroupView, offset: u64)
    requires
        g.tidy(),
        offset < u64::MAX,
        !g.leased(offset),
    ensures
        g.mark_acked(offset).tidy(),
        g.mark_acked(offset).done(offset),
        g.mark_acked(offset).in_flight == g.in_flight,
        forall|o: u64| #[trigger] g.done(o) ==> g.mark_acked(offset).done(o),
        forall|o: u64| o != offset && #[trigger] g.mark_acked(offset).done(o) ==> g.done(o),
{
    let r = g.mark_acked(offset);
    lemma_mark_acked(g, offset);
    assert forall|o: u64| #[trigger] g.done(o) implies r.done(o) by {}
    assert forall|id: LeaseId| #[trigger] r.in_flight.contains_key(id) implies !r.done(
        r.in_flight[id].offset,
    ) && r.in_flight[id].offset < u64::MAX by {
        assert(g.in_flight.contains_key(id));
    }
}

/// Committing an offset keeps the group tidy, and everything below it is done.
pub proof fn lemma_commit_tidy(g: GroupView, offset: u64)
    requires
        g.tidy(),
    ensures
        g.commit(offset).tidy(),
        forall|o: u64| o < offset ==> #[trigger] g.commit(offset).done(o),
        forall|o: u64| #[trigger] g.done(o) ==> g.commit(offset).done(o),
        forall|o: u64| offset <= o && #[trigger] g.commit(offset).done(o) ==> g.done(o),
{
    let watermark = if offset > g.ack_watermark {
        offset
    } else {
        g.ack_watermark
    };
    let above = Set::new(|o: u64| g.acked_above.contains(o) && watermark <= o);
    lemma_run_end(watermark, above);
    let r = g.commit(offset);
    assert forall|o: u64| offset <= o && #[trigger] r.done(o) implies g.done(o) by {
        if watermark <= o {
            assert(above.contains(o));
        }
    }
    assert forall|id: LeaseId| #[trigger] r.in_flight.contains_key(id) implies !r.done(
        r.in_flight[id].offset,
    ) && r.in_flight[id].offset < u64::MAX by {
        assert(g.in_flight.contains_key(id));
        let o = r.in_flight[id].offset;
        if r.done(o) {
            assert(above.contains(o));
        }
    }
    assert forall|a: LeaseId, b: LeaseId|
        #![trigger r.in_flight.contains_key(a), r.in_flight.contains_key(b)]
        r.in_flight.contains_key(a) && r.in_flight.contains_key(b) && r.in_flight[a].offset
            == r.in_flight[b].offset implies a == b by {
        assert(g.in_flight.contains_key(a) && g.in_flight.contains_key(b));
    }
}

impl GroupState {
    /// The group is tidy, and the offsets noted as leased are those of the leases.
    pub closed spec fn wf(&self) -> bool {
        &&& self@.tidy()
        &&& forall|o: u64| #[trigger] self.leased_offsets@.contains(o) <==> self@.leased(o)
    }

    /// The offsets noted as leased.
    pub closed spec fn leased_offsets(&self) -> Set<u64> {
        self.leased_offsets@
    }

    /// A well-formed group is tidy.
    pub proof fn lemma_tidy(&self)
        requires
            self.wf(),
        ensures
            self@.tidy(),
            self@.in_flight.dom().finite(),
    {
    }

    /// A group that has not polled yet.
    pub fn new() -> (r: Self)
        ensures
            r.wf(),
            r@ == GroupView::fresh(),
    {
        let r = GroupState {
            ack_watermark: 0,
            acked_above: BTreeSet::new(),
            in_flight: BTreeMap::new(),
            leased_offsets: BTreeSet::new(),
            poll_count: 0,
        };
        assert(r@ =~= GroupView::fresh());
        r
    }

    /// Whether the group has finished with `offset`.
    pub fn is_done(&self, offset: Offset) -> (r: bool)
        ensures
            r == self@.done(offset),
    {
        offset < self.ack_watermark || self.acked_above.contains(&offset)
    }

    /// Whether some lease of the group holds `offset`.
    pub fn is_leased(&self, offset: Offset) -> (r: bool)
        requires
            self.wf(),
        ensures
            r == self@.leased(offset),
    {
        self.leased_offsets.contains(&offset)
    }

    /// Whether some lease of the group holds `offset` after `now_ms`.
    pub fn is_leased_at(&self, offset: Offset, now_ms: u64) -> (r: bool)
        requires
            self.wf(),
        ensures
            r == self@.expire(now_ms).leased(offset),
    {
        let ghost later = self@.expire(now_ms);
        if !self.leased_offsets.contains(&offset) {
            proof {
                if later.leased(offset) {
                    let id = choose|id: LeaseId| #[trigger]
                        later.in_flight.contains_key(id) && later.in_flight[id].offset == offset;
                    assert(self@.in_flight.contains_key(id));
                    assert(self@.leased(offset));
                }
            }
            return false;
        }
        let keys = sorted_keys(&self.in_flight);
        let mut i: usize = 0;
        while i < keys.len()
            invariant
                i <= keys.len(),
                later == self@.expire(now_ms),
                keys@.to_set() == self@.in_flight.dom(),
                forall|j: int|
                    0 <= j < i ==> !(later.in_flight.contains_key(#[trigger] keys@[j])
                        && later.in_flight[keys@[j]].offset == offset),
            decreases keys.len() - i,
        {
            let id = keys[i];
            assert(keys@.to_set().contains(id));
            match self.in_flight.get(&id) {
                Some(lease) => {
                    if lease.offset == offset && lease.deadline_ms > now_ms {
                        assert(later.in_flight.contains_key(id));
                        return true;
                    }
                },
                None => {},
            }
            i += 1;
        }
        proof {
            if later.leased(offset) {
                let id = choose|id: LeaseId| #[trigger]
                    later.in_flight.contains_key(id) && later.in_flight[id].offset == offset;
                assert(keys@.to_set().contains(id));
                let j = choose|j: int| 0 <= j < keys@.len() && keys@[j] == id;
                assert(later.in_flight.contains_key(keys@[j]));
            }
        }
        false
    }

    /// How often the group has polled.
    pub fn polls(&self) -> (r: u64)
        ensures
            r == self@.poll_count,
    {
        self.poll_count
    }

    /// How many leases are out.
    pub fn in_flight_len(&self) -> (r: usize)
        ensures
            r == self@.in_flight.len(),
    {
        self.in_flight.len()
    }

    /// Moves the watermark up over what is done.
    fn absorb(&mut self)
        requires
            forall|o: u64| #[trigger]
                old(self).acked_above@.contains(o) ==> old(self).ack_watermark <= o < u64::MAX,
        ensures
            final(self).ack_watermark == run_end(old(self).ack_watermark, old(self).acked_above@),
            final(self).acked_above@ == Set::new(
                |o: u64| old(self).acked_above@.contains(o) && final(self).ack_watermark <= o,
            ),
            final(self).in_flight == old(self).in_flight,
            final(self).leased_offsets == old(self).leased_offsets,
            final(self).poll_count == old(self).poll_count,
    {
        let ghost above = self.acked_above@;
        let ghost start = self.ack_watermark;
        assert(above =~= Set::new(|o: u64| above.contains(o) && start <= o));
        let mut more: bool = self.acked_above.remove(&self.ack_watermark);
        while more
            invariant
                forall|o: u64| #[trigger] above.contains(o) ==> start <= o < u64::MAX,
                start <= self.ack_watermark,
                run_end(self.ack_watermark, above) == run_end(start, above),
                more == above.contains(self.ack_watermark),
                self.acked_above@ == Set::new(
                    |o: u64| above.contains(o) && self.ack_watermark <= o,
                ).remove(self.ack_watermark),
                self.in_flight == old(self).in_flight,
                self.leased_offsets == old(self).leased_offsets,
                self.poll_count == old(self).poll_count,
            decreases u64::MAX - self.ack_watermark,
        {
            let ghost before = self.acked_above@;
            self.ack_watermark = self.ack_watermark + 1;
            assert(before =~= Set::new(|o: u64| above.contains(o) && self.ack_watermark <= o));
            more = self.acked_above.remove(&self.ack_watermark);
        }
        assert(self.acked_above@ =~= Set::new(
            |o: u64| above.contains(o) && self.ack_watermark <= o,
        ));
    }

    /// Notes that `offset` is done, and moves the watermark up to the lowest offset that
    /// is not. The leases stay as they are; where one of them holds `offset`, giving it up
    /// is left to the caller.
    pub fn mark_acked(&mut self, offset: Offset)
        requires
            old(self)@.acks_apart(),
            offset < u64::MAX,
        ensures
            final(self)@ == old(self)@.mark_acked(offset),
            final(self)@.acks_apart(),
            forall|o: u64| #[trigger]
                final(self)@.done(o) <==> old(self)@.done(o) || o == offset,
            final(self)@.in_flight == old(self)@.in_flight,
            final(self)@.poll_count == old(self)@.poll_count,
            final(self).leased_offsets() == old(self).leased_offsets(),
            old(self).wf() && !old(self)@.leased(offset) ==> final(self).wf(),
    {
        proof {
            lemma_mark_acked(self@, offset);
            if self.wf() && !self@.leased(offset) {
                lemma_mark_acked_tidy(self@, offset);
            }
        }
        if offset < self.ack_watermark {
            return;
        }
        self.acked_above.insert(offset);
        self.absorb();
        proof {
            assert(self@ =~= old(self)@.mark_acked(offset));
        }
    }

    /// Gives up one lease and says which message it held.
    fn release(&mut self, lease_id: LeaseId) -> (r: Option<Offset>)
        requires
            old(self).wf(),
        ensures
            final(self).wf(),
            final(self)@ == old(self)@.nack(lease_id),
            match r {
                Some(o) => {
                    &&& old(self)@.in_flight.contains_key(lease_id)
                    &&& o == old(self)@.in_flight[lease_id].offset
                    &&& !final(self)@.leased(o)
                },
                None => !old(self)@.in_flight.contains_key(lease_id) && final(self)@ == old(self)@,
            },
    {
        match self.in_flight.remove(&lease_id) {
            Some(lease) => {
                self.leased_offsets.remove(&lease.offset);
                proof {
                    assert(self@ =~= old(self)@.nack(lease_id));
                    lemma_released(old(self)@, lease_id);
                }
                Some(lease.offset)
            },
            None => {
                proof {
                    assert(self@.in_flight =~= old(self)@.in_flight);
                    assert(old(self)@.in_flight.remove(lease_id) =~= old(self)@.in_flight);
                }
                None
            },
        }
    }

    /// Gives up the leases whose deadline has come.
    pub fn expire(&mut self, now_ms: u64)
        requires
            old(self).wf(),
        ensures
            final(self).wf(),
            final(self)@ == old(self)@.expire(now_ms),
    {
        let keys = sorted_keys(&self.in_flight);
        let ghost start = self@;
        let mut i: usize = 0;
        while i < keys.len()
            invariant
                self.wf(),
                i <= keys.len(),
                keys@.no_duplicates(),
                keys@.to_set() == start.in_flight.dom(),
                self@.ack_watermark == start.ack_watermark,
                self@.acked_above == start.acked_above,
                self@.poll_count == start.poll_count,
                forall|id: LeaseId| #[trigger]
                    self@.in_flight.contains_key(id) <==> start.in_flight.contains_key(id) && (
                    start.in_flight[id].deadline_ms > now_ms || !keys@.take(i as int).contains(id)),
                forall|id: LeaseId| #[trigger]
                    self@.in_flight.contains_key(id) ==> self@.in_flight[id]
                        == start.in_flight[id],
            decreases keys.len() - i,
        {
            let id = keys[i];
            proof {
                assert(keys@.to_set().contains(id));
                lemma_take_push(keys@, i as int);
                assert(self@.in_flight.contains_key(id));
            }
            match self.in_flight.get(&id) {
                Some(lease) => {
                    if lease.deadline_ms <= now_ms {
                        self.release(id);
                    }
                },
                None => {},
            }
            i += 1;
        }
        proof {
            assert(keys@.take(i as int) =~= keys@);
            assert forall|id: LeaseId| start.in_flight.contains_key(id) implies keys@.contains(
                id,
            ) by {
                assert(keys@.to_set().contains(id));
            }
            assert(self@ =~= start.expire(now_ms));
        }
    }

    /// Gives up the lease; its message may be delivered again.
    pub fn nack(&mut self, lease_id: LeaseId)
        requires
            old(self).wf(),
        ensures
            final(self).wf(),
            final(self)@ == old(self)@.nack(lease_id),
    {
        self.release(lease_id);
    }

    /// Gives up the lease; its message is done.
    pub fn ack(&mut self, lease_id: LeaseId)
        requires
            old(self).wf(),
        ensures
            final(self).wf(),
            final(self)@ == old(self)@.ack(lease_id),
    {
        match self.release(lease_id) {
            Some(offset) => self.mark_acked(offset),
            None => {},
        }
    }

    /// Everything below `offset` is done.
    pub fn commit(&mut self, offset: Offset)
        requires
            old(self).wf(),
        ensures
            final(self).wf(),
            final(self)@ == old(self)@.commit(offset),
    {
        let ghost start = self@;
        proof {
            lemma_commit_tidy(start, offset);
        }
        if offset > self.ack_watermark {
            self.ack_watermark = offset;
        }
        let watermark: u64 = self.ack_watermark;
        let low = members_below(&self.acked_above, watermark);
        let mut i: usize = 0;
        while i < low.len()
            invariant
                i <= low.len(),
                self.ack_watermark == watermark,
                self.in_flight == old(self).in_flight,
                self.leased_offsets == old(self).leased_offsets,
                self.poll_count == start.poll_count,
                forall|o: u64| #[trigger]
                    self.acked_above@.contains(o) <==> start.acked_above.contains(o)
                        && !low@.take(i as int).contains(o),
            decreases low.len() - i,
        {
            proof {
                lemma_take_push(low@, i as int);
            }
            self.acked_above.remove(&low[i]);
            i += 1;
        }
        proof {
            assert(low@.take(i as int) =~= low@);
            assert(self.acked_above@ =~= Set::new(
                |o: u64| start.acked_above.contains(o) && watermark <= o,
            ));
        }
        self.drop_leases_below(watermark);
        self.absorb();
        proof {
            assert(self@ =~= start.commit(offset));
        }
    }

    /// Gives up every lease below `bound`.
    fn drop_leases_below(&mut self, bound: u64)
        requires
            forall|o: u64| #[trigger]
                old(self).leased_offsets@.contains(o) <==> old(self)@.leased(o),
            forall|a: LeaseId, b: LeaseId|
                #![trigger old(self).in_flight@.contains_key(a), old(self).in_flight@.contains_key(b)]
                old(self).in_flight@.contains_key(a) && old(self).in_flight@.contains_key(b)
                    && old(self).in_flight@[a].offset == old(self).in_flight@[b].offset ==> a == b,
        ensures
            final(self).ack_watermark == old(self).ack_watermark,
            final(self).acked_above == old(self).acked_above,
            final(self).poll_count == old(self).poll_count,
            final(self).in_flight@ == Map::new(
                |id: LeaseId|
                    old(self).in_flight@.contains_key(id) && bound
                        <= old(self).in_flight@[id].offset,
                |id: LeaseId| old(self).in_flight@[id],
            ),
            forall|o: u64| #[trigger]
                final(self).leased_offsets@.contains(o) <==> final(self)@.leased(o),
    {
        let keys = sorted_keys(&self.in_flight);
        let ghost start = self.in_flight@;
        let mut i: usize = 0;
        while i < keys.len()
            invariant
                i <= keys.len(),
                keys@.no_duplicates(),
                keys@.to_set() == start.dom(),
                self.ack_watermark == old(self).ack_watermark,
                self.acked_above == old(self).acked_above,
                self.poll_count == old(self).poll_count,
                forall|o: u64| #[trigger] self.leased_offsets@.contains(o) <==> self@.leased(o),
                forall|a: LeaseId, b: LeaseId|
                    #![trigger start.contains_key(a), start.contains_key(b)]
                    start.contains_key(a) && start.contains_key(b) && start[a].offset
                        == start[b].offset ==> a == b,
                forall|id: LeaseId| #[trigger]
                    self.in_flight@.contains_key(id) <==> start.contains_key(id) && (bound
                        <= start[id].offset || !keys@.take(i as int).contains(id)),
                forall|id: LeaseId| #[trigger]
                    self.in_flight@.contains_key(id) ==> self.in_flight@[id] == start[id],
            decreases keys.len() - i,
        {
            let id = keys[i];
            proof {
                assert(keys@.to_set().contains(id));
                lemma_take_push(keys@, i as int);
                assert(self.in_flight@.contains_key(id));
            }
            match self.in_flight.get(&id) {
                Some(lease) => {
                    let offset: u64 = lease.offset;
                    if offset < bound {
                        let ghost before = self@;
                        self.in_flight.remove(&id);
                        self.leased_offsets.remove(&offset);
                        proof {
                            assert forall|a: LeaseId, b: LeaseId|
                                #![trigger before.in_flight.contains_key(a), before.in_flight.contains_key(b)]
                                before.in_flight.contains_key(a) && before.in_flight.contains_key(b)
                                    && before.in_flight[a].offset
                                    == before.in_flight[b].offset implies a == b by {
                                assert(start.contains_key(a) && start.contains_key(b));
                            }
                            assert(self@ =~= before.nack(id));
                            lemma_released(before, id);
                        }
                    }
                },
                None => {},
            }
            i += 1;
        }
        proof {
            assert(keys@.take(i as int) =~= keys@);
            assert forall|id: LeaseId| start.contains_key(id) implies keys@.contains(id) by {
                assert(keys@.to_set().contains(id));
            }
            assert(self.in_flight@ =~= Map::new(
                |id: LeaseId| start.contains_key(id) && bound <= start[id].offset,
                |id: LeaseId| start[id],
            ));
        }
    }

    /// Forgets the messages from `from` up to `first`, which are no longer retained.
    pub fn prune(&mut self, from: u64, first: u64)
        requires
            old(self).wf(),
            old(self)@.within(from as int, u64::MAX as int),
            from <= first,
        ensures
            final(self).wf(),
            final(self)@ == old(self)@.prune(first as int),
    {
        let ghost start = self@;
        let mut leased: bool = false;
        let mut o: u64 = from;
        while o < first
            invariant
                from <= o <= first,
                start.within(from as int, u64::MAX as int),
                self.ack_watermark == start.ack_watermark,
                self.poll_count == start.poll_count,
                self.in_flight == old(self).in_flight,
                self.leased_offsets == old(self).leased_offsets,
                self.acked_above@ == Set::new(|x: u64| start.acked_above.contains(x) && o <= x),
                leased || forall|x: u64|
                    from <= x < o ==> !(#[trigger] self.leased_offsets@.contains(x)),
            decreases first - o,
        {
            if self.leased_offsets.contains(&o) {
                leased = true;
            }
            self.acked_above.remove(&o);
            o += 1;
            proof {
                assert(self.acked_above@ =~= Set::new(
                    |x: u64| start.acked_above.contains(x) && o <= x,
                ));
            }
        }
        if leased {
            proof {
                assert forall|a: LeaseId, b: LeaseId|
                    #![trigger self.in_flight@.contains_key(a), self.in_flight@.contains_key(b)]
                    self.in_flight@.contains_key(a) && self.in_flight@.contains_key(b)
                        && self.in_flight@[a].offset == self.in_flight@[b].offset implies a == b by {
                    assert(start.in_flight.contains_key(a) && start.in_flight.contains_key(b));
                }
            }
            self.drop_leases_below(first);
        } else {
            proof {
                assert forall|id: LeaseId| #[trigger] start.in_flight.contains_key(id) implies first
                    <= start.in_flight[id].offset by {
                    assert(start.leased(start.in_flight[id].offset));
                    assert(self.leased_offsets@.contains(start.in_flight[id].offset));
                }
                assert(self.in_flight@ =~= start.prune(first as int).in_flight);
            }
        }
        proof {
            assert(self@ =~= start.prune(first as int));
            lemma_prune_tidy(start, first as int);
            if !leased {
                assert(self@.in_flight =~= start.in_flight);
            }
        }
    }

    /// Counts a poll.
    pub fn count_poll(&mut self)
        requires
            old(self).wf(),
            old(self)@.poll_count < u64::MAX,
        ensures
            final(self).wf(),
            final(self)@ == (GroupView {
                poll_count: (old(self)@.poll_count + 1) as u64,
                ..old(self)@
            }),
    {
        self.poll_count = self.poll_count + 1;
    }

    /// Hands out a lease on a message that is neither done nor leased.
    pub fn lease(&mut self, lease_id: LeaseId, offset: Offset, deadline_ms: u64)
        requires
            old(self).wf(),
            !old(self)@.in_flight.contains_key(lease_id),
            !old(self)@.done(offset),
            !old(self)@.leased(offset),
            offset < u64::MAX,
        ensures
            final(self).wf(),
            final(self)@ == (GroupView {
                in_flight: old(self)@.in_flight.insert(lease_id, Lease { offset, deadline_ms }),
                ..old(self)@
            }),
    {
        self.in_flight.insert(lease_id, Lease { offset, deadline_ms });
        self.leased_offsets.insert(offset);
        proof {
            let before = old(self)@;
            assert forall|x: u64| #[trigger] self.leased_offsets@.contains(x) <==> self@.leased(x) by {
                if x == offset {
                    assert(self@.in_flight.contains_key(lease_id));
                } else if before.leased(x) {
                    let id = choose|id: LeaseId| #[trigger]
                        before.in_flight.contains_key(id) && before.in_flight[id].offset == x;
                    assert(self@.in_flight.contains_key(id));
                } else if self@.leased(x) {
                    let id = choose|id: LeaseId| #[trigger]
                        self@.in_flight.contains_key(id) && self@.in_flight[id].offset == x;
                    assert(before.in_flight.contains_key(id));
                }
            }
            assert forall|a: LeaseId, b: LeaseId|
                #![trigger self@.in_flight.contains_key(a), self@.in_flight.contains_key(b)]
                self@.in_flight.contains_key(a) && self@.in_flight.contains_key(b)
                    && self@.in_flight[a].offset == self@.in_flight[b].offset implies a == b by {
                if a != lease_id {
                    assert(before.in_flight.contains_key(a));
                }
                if b != lease_id {
                    assert(before.in_flight.contains_key(b));
                }
            }
        }
    }
}

impl GroupState {
    /// The group as plain data.
    pub fn snapshot(&self) -> (r: GroupData)
        requires
            self.wf(),
        ensures
            r.describes(self@),
    {
        let acked_above = members_below(&self.acked_above, u64::MAX);
        let keys = sorted_keys(&self.in_flight);
        let mut in_flight: Vec<(LeaseId, Lease)> = Vec::new();
        let mut i: usize = 0;
        while i < keys.len()
            invariant
                i <= keys@.len(),
                keys@.no_duplicates(),
                keys@.to_set() == self@.in_flight.dom(),
                in_flight@.len() == i,
                forall|j: int|
                    0 <= j < i ==> (#[trigger] in_flight@[j]).0 == keys@[j] && in_flight@[j].1
                        == self@.in_flight[keys@[j]],
            decreases keys@.len() - i,
        {
            let id: u64 = keys[i];
            assert(keys@.to_set().contains(id));
            match self.in_flight.get(&id) {
                Some(lease) => {
                    in_flight.push((id, *lease));
                },
                None => {},
            }
            i += 1;
        }
        proof {
            let list = in_flight@;
            assert forall|i: int| 0 <= i < list.len() implies self@.in_flight.contains_key(
                (#[trigger] list[i]).0,
            ) by {
                assert(keys@.to_set().contains(keys@[i]));
            }
            assert forall|id: LeaseId| #[trigger] self@.in_flight.contains_key(id) implies exists|
                i: int,
            |
                0 <= i < list.len() && (#[trigger] list[i]).0 == id by {
                assert(keys@.to_set().contains(id));
                let i = choose|i: int| 0 <= i < keys@.len() && keys@[i] == id;
                assert(list[i].0 == id);
            }
        }
        GroupData {
            ack_watermark: self.ack_watermark,
            acked_above,
            in_flight,
            poll_count: self.poll_count,
        }
    }

    /// The group of plain data, over a log of the offsets from `first` up to `next` and
    /// with leases below `next_lease`; none where the data is that of no such group.
    pub fn restore(d: &GroupData, first: u64, next: u64, next_lease: u64) -> (r: Option<Self>)
        ensures
            match r {
                Some(g) => {
                    &&& g.wf()
                    &&& d.describes(g@)
                    &&& g@.wf(first as int, next as int)
                    &&& g@.leases_below(next_lease)
                },
                None => forall|v: GroupView| #[trigger]
                    d.describes(v) ==> !(v.wf(first as int, next as int) && v.leases_below(
                        next_lease,
                    )),
            },
    {
        let mut g = GroupState::new();
        g.ack_watermark = d.ack_watermark;
        g.poll_count = d.poll_count;
        let mut i: usize = 0;
        while i < d.acked_above.len()
            invariant
                i <= d.acked_above@.len(),
                g.ack_watermark == d.ack_watermark,
                g.poll_count == d.poll_count,
                g.in_flight@ == Map::<LeaseId, Lease>::empty(),
                g.leased_offsets@ == Set::<u64>::empty(),
                forall|o: u64| #[trigger]
                    g.acked_above@.contains(o) <==> d.acked_above@.take(i as int).contains(o),
                forall|o: u64| #[trigger]
                    g.acked_above@.contains(o) ==> d.ack_watermark < o < u64::MAX && first <= o
                        < next,
            decreases d.acked_above@.len() - i,
        {
            let o: u64 = d.acked_above[i];
            proof {
                lemma_take_push(d.acked_above@, i as int);
            }
            if o <= d.ack_watermark || o == u64::MAX || o < first || o >= next {
                proof {
                    assert forall|v: GroupView| #[trigger] d.describes(v) implies !(v.wf(
                        first as int,
                        next as int,
                    ) && v.leases_below(next_lease)) by {
                        assert(d.acked_above@.contains(o));
                        assert(v.acked_above.contains(o));
                    }
                }
                return None;
            }
            g.acked_above.insert(o);
            i += 1;
        }
        assert(d.acked_above@.take(i as int) =~= d.acked_above@);
        proof {
            assert(!exists|id: LeaseId| g@.in_flight.contains_key(id));
            assert(g.wf());
        }
        let mut k: usize = 0;
        while k < d.in_flight.len()
            invariant
                k <= d.in_flight@.len(),
                g.wf(),
                g@.ack_watermark == d.ack_watermark,
                g@.poll_count == d.poll_count,
                forall|o: u64| #[trigger]
                    d.acked_above@.contains(o) <==> g@.acked_above.contains(o),
                g@.wf(first as int, next as int),
                g@.leases_below(next_lease),
                lists_leases(d.in_flight@.take(k as int), g@.in_flight),
            decreases d.in_flight@.len() - k,
        {
            let id: u64 = d.in_flight[k].0;
            let lease: Lease = d.in_flight[k].1;
            let ghost list = d.in_flight@;
            let taken: bool = g.in_flight.contains_key(&id);
            let o: u64 = lease.offset;
            if taken || id >= next_lease || o < first || o >= next || o == u64::MAX || g.is_done(o)
                || g.is_leased(o) {
                proof {
                    lemma_no_such_group(
                        *d,
                        g@,
                        k as int,
                        first as int,
                        next as int,
                        next_lease,
                    );
                }
                return None;
            }
            let ghost before = g@;
            g.lease(id, o, lease.deadline_ms);
            k += 1;
            proof {
                lemma_listed(list, k - 1, before.in_flight, g@.in_flight);
                assert forall|x: LeaseId| #[trigger] g@.in_flight.contains_key(x) implies first
                    <= g@.in_flight[x].offset < next && x < next_lease by {
                    if x != id {
                        assert(before.in_flight.contains_key(x));
                    }
                }
                g.lemma_tidy();
            }
        }
        assert(d.in_flight@.take(k as int) =~= d.in_flight@);
        Some(g)
    }
}

/// One more lease that is not yet in the list.
proof fn lemma_listed(
    list: Seq<(LeaseId, Lease)>,
    k: int,
    before: Map<LeaseId, Lease>,
    after: Map<LeaseId, Lease>,
)
    requires
        0 <= k < list.len(),
        lists_leases(list.take(k), before),
        !before.contains_key(list[k].0),
        after == before.insert(list[k].0, list[k].1),
    ensures
        lists_leases(list.take(k + 1), after),
{
    let (a, b) = (list.take(k), list.take(k + 1));
    assert forall|i: int| 0 <= i < k implies before.contains_key((#[trigger] b[i]).0)
        && before[b[i].0] == b[i].1 by {
        assert(a[i] == b[i]);
    }
    assert forall|i: int, j: int| 0 <= i < b.len() && 0 <= j < b.len() && (#[trigger] b[i]).0 == (
    #[trigger] b[j]).0 implies i == j by {
        if i < k && j < k {
            assert(a[i] == b[i] && a[j] == b[j]);
        }
    }
    assert forall|id: LeaseId| #[trigger] after.contains_key(id) implies exists|i: int|
        0 <= i < b.len() && (#[trigger] b[i]).0 == id by {
        if before.contains_key(id) {
            let i = choose|i: int| 0 <= i < a.len() && (#[trigger] a[i]).0 == id;
            assert(b[i].0 == id);
        } else {
            assert(b[k].0 == id);
        }
    }
}

/// A lease that does not fit the ones before it fits no group.
proof fn lemma_no_such_group(
    d: GroupData,
    g: GroupView,
    k: int,
    first: int,
    next: int,
    next_lease: u64,
)
    requires
        0 <= k < d.in_flight@.len(),
        g.ack_watermark == d.ack_watermark,
        forall|o: u64| #[trigger] d.acked_above@.contains(o) <==> g.acked_above.contains(o),
        lists_leases(d.in_flight@.take(k), g.in_flight),
        ({
            let (id, lease) = d.in_flight@[k];
            let o = lease.offset;
            ||| g.in_flight.contains_key(id)
            ||| id >= next_lease
            ||| o < first
            ||| o >= next
            ||| o == u64::MAX
            ||| g.done(o)
            ||| g.leased(o)
        }),
    ensures
        forall|v: GroupView| #[trigger]
            d.describes(v) ==> !(v.wf(first, next) && v.leases_below(next_lease)),
{
    let list = d.in_flight@;
    let (id, lease) = list[k];
    assert forall|v: GroupView| #[trigger] d.describes(v) implies !(v.wf(first, next)
        && v.leases_below(next_lease)) by {
        assert(v.in_flight.contains_key(list[k].0));
        assert(v.in_flight[id] == lease);
        if g.in_flight.contains_key(id) {
            let i = choose|i: int| 0 <= i < k && (#[trigger] list.take(k)[i]).0 == id;
            assert(list.take(k)[i] == list[i]);
            assert(list[i].0 == list[k].0);
        }
        if g.done(lease.offset) {
            assert(d.acked_above@.contains(lease.offset) <==> v.acked_above.contains(
                lease.offset,
            ));
            assert(v.done(lease.offset));
        }
        if g.leased(lease.offset) {
            let other = choose|other: LeaseId| #[trigger]
                g.in_flight.contains_key(other) && g.in_flight[other].offset == lease.offset;
            let i = choose|i: int| 0 <= i < k && (#[trigger] list.take(k)[i]).0 == other;
            assert(list.take(k)[i] == list[i]);
            assert(v.in_flight.contains_key(list[i].0));
            assert(list[i].0 == other);
            assert(g.in_flight[list.take(k)[i].0] == list[i].1);
            assert(v.in_flight.contains_key(other) && v.in_flight.contains_key(id));
        }
    }
}

/// Forgetting what is no longer retained keeps the group tidy.
pub proof fn lemma_prune_tidy(g: GroupView, first: int)
    requires
        g.tidy(),
    ensures
        g.prune(first).tidy(),
        forall|o: u64| first <= o ==> (#[trigger] g.prune(first).done(o) <==> g.done(o)),
        forall|o: u64| first <= o ==> (#[trigger] g.prune(first).leased(o) <==> g.leased(o)),
{
    let r = g.prune(first);
    assert forall|id: LeaseId| #[trigger] r.in_flight.contains_key(id) implies !r.done(
        r.in_flight[id].offset,
    ) && r.in_flight[id].offset < u64::MAX by {
        assert(g.in_flight.contains_key(id));
    }
    assert forall|a: LeaseId, b: LeaseId|
        #![trigger r.in_flight.contains_key(a), r.in_flight.contains_key(b)]
        r.in_flight.contains_key(a) && r.in_flight.contains_key(b) && r.in_flight[a].offset
            == r.in_flight[b].offset implies a == b by {
        assert(g.in_flight.contains_key(a) && g.in_flight.contains_key(b));
    }
    assert forall|o: u64| first <= o implies (#[trigger] r.leased(o) <==> g.leased(o)) by {
        if g.leased(o) {
            let id = choose|id: LeaseId| #[trigger]
                g.in_flight.contains_key(id) && g.in_flight[id].offset == o;
            assert(r.in_flight.contains_key(id));
        }
        if r.leased(o) {
            let id = choose|id: LeaseId| #[trigger]
                r.in_flight.contains_key(id) && r.in_flight[id].offset == o;
            assert(g.in_flight.contains_key(id));
        }
    }
}

/// Giving up a lease frees its message and no other.
proof fn lemma_released(g: GroupView, lease_id: LeaseId)
    requires
        g.in_flight.contains_key(lease_id),
        forall|a: LeaseId, b: LeaseId|
            #![trigger g.in_flight.contains_key(a), g.in_flight.contains_key(b)]
            g.in_flight.contains_key(a) && g.in_flight.contains_key(b) && g.in_flight[a].offset
                == g.in_flight[b].offset ==> a == b,
    ensures
        forall|o: u64| #[trigger]
            g.nack(lease_id).leased(o) <==> g.leased(o) && o != g.in_flight[lease_id].offset,
{
    let r = g.nack(lease_id);
    assert forall|o: u64| #[trigger] r.leased(o) <==> g.leased(o) && o
        != g.in_flight[lease_id].offset by {
        if r.leased(o) {
            let id = choose|id: LeaseId| #[trigger]
                r.in_flight.contains_key(id) && r.in_flight[id].offset == o;
            assert(g.in_flight.contains_key(id));
        }
        if g.leased(o) && o != g.in_flight[lease_id].offset {
            let id = choose|id: LeaseId| #[trigger]
                g.in_flight.contains_key(id) && g.in_flight[id].offset == o;
            assert(r.in_flight.contains_key(id));
        }
    }
}

/// Taking one more element adds that element.
pub proof fn lemma_take_push(s: Seq<u64>, i: int)
    requires
        0 <= i < s.len(),
    ensures
        s.take(i + 1) == s.take(i).push(s[i]),
        forall|x: u64| #[trigger]
            s.take(i + 1).contains(x) <==> s.take(i).contains(x) || x == s[i],
        s.no_duplicates() ==> !s.take(i).contains(s[i]),
{
    assert(s.take(i + 1) =~= s.take(i).push(s[i]));
    assert forall|x: u64| #[trigger] s.take(i + 1).contains(x) <==> s.take(i).contains(x) || x
        == s[i] by {
        if s.take(i).contains(x) {
            let k = choose|k: int| 0 <= k < i && s.take(i)[k] == x;
            assert(s.take(i + 1)[k] == x);
        }
        if x == s[i] {
            assert(s.take(i + 1)[i] == x);
        }
    }
}

} // verus!
