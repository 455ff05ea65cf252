//! A topic: an ordered log of messages and the groups that consume it.
use crate::command::{delivered_views, Delivered, ProduceItem};
use crate::group::GroupState;
use crate::model::{
    candidates_in, lemma_prefix_len_unique, Candidate, GroupView, Lease, TopicView, DEDUP_CAPACITY,
    DEFAULT_RETAIN_MESSAGES,
};
use crate::names::NameMap;
use crate::select::choose_candidates;
use crate::seqs::{lemma_filter_all, lemma_filter_take};
use crate::snapshot::{
    dedup_key, dedup_keys, lemma_one_dedup, lists_dedup, lists_groups, DedupData, GroupData,
    TopicData,
};
use crate::topic_lemmas::{
    lemma_ack, lemma_append, lemma_candidates, lemma_commit, lemma_drop_front,
    lemma_drop_keeps_leases, lemma_drop_nothing,
    lemma_nack, lemma_poll, lemma_polled, lemma_produce, lemma_reclaim, lemma_remember,
    lemma_settings, lemma_unconsumed, lemma_unretained,
};
use crate::totals::{capped, lemma_total_of, total_of};
use crate::types::{LeaseId, Message, MessageView, Offset};
use std::collections::{BTreeMap, VecDeque};
use vstd::prelude::*;

verus! {

/// A topic: its log, the producers it remembers, its groups and its settings.
#[derive(Debug)]
pub struct TopicState {
    created: bool,
    next_offset: Offset,
    log: VecDeque<Message>,
    producers: NameMap<BTreeMap<u64, Offset>>,
    dedup_order: VecDeque<(String, u64)>,
    groups: NameMap<GroupState>,
    rate_milli_per_sec: u64,
    burst: u32,
    retain_max_messages: u64,
    retain_max_age_ms: u64,
}

/// The values of a log.
pub open spec fn log_view(log: Seq<Message>) -> Seq<MessageView> {
    Seq::new(log.len(), |i: int| log[i]@)
}

/// The offsets remembered for the producers, by producer and sequence number.
pub open spec fn dedup_view(producers: Map<Seq<char>, BTreeMap<u64, Offset>>) -> Map<
    (Seq<char>, u64),
    u64,
> {
    Map::new(
        |k: (Seq<char>, u64)| producers.contains_key(k.0) && producers[k.0]@.contains_key(k.1),
        |k: (Seq<char>, u64)| producers[k.0]@[k.1],
    )
}

/// The order in which the sequence numbers were remembered.
pub open spec fn order_view(order: Seq<(String, u64)>) -> Seq<(Seq<char>, u64)> {
    Seq::new(order.len(), |i: int| (order[i].0@, order[i].1))
}

/// The values of the groups.
pub open spec fn groups_view(groups: Map<Seq<char>, GroupState>) -> Map<Seq<char>, GroupView> {
    groups.map_values(|g: GroupState| g@)
}

impl View for TopicState {
    type V = TopicView;

    closed spec fn view(&self) -> TopicView {
        TopicView {
            created: self.created,
            next_offset: self.next_offset,
            log: log_view(self.log@),
            dedup: dedup_view(self.producers@),
            dedup_order: order_view(self.dedup_order@),
            groups: groups_view(self.groups@),
            rate_milli_per_sec: self.rate_milli_per_sec,
            burst: self.burst,
            retain_max_messages: self.retain_max_messages,
            retain_max_age_ms: self.retain_max_age_ms,
        }
    }
}

impl TopicState {
    /// The parts of the topic are well-formed, each for itself.
    closed spec fn parts_wf(&self) -> bool {
        &&& self.producers.wf()
        &&& self.groups.wf()
        &&& forall|g: Seq<char>| #[trigger] self.groups@.contains_key(g) ==> self.groups@[g].wf()
    }

    /// The topic is well-formed.
    pub closed spec fn wf(&self) -> bool {
        self.parts_wf() && self@.wf()
    }

    /// A well-formed topic has a well-formed value.
    pub proof fn lemma_wf(&self)
        requires
            self.wf(),
        ensures
            self@.wf(),
    {
    }

    /// A topic of which nothing is known.
    pub fn new() -> (r: Self)
        ensures
            r.wf(),
            r@ == TopicView::fresh(),
    {
        let r = TopicState {
            created: false,
            next_offset: 0,
            log: VecDeque::new(),
            producers: NameMap::new(),
            dedup_order: VecDeque::new(),
            groups: NameMap::new(),
            rate_milli_per_sec: 0,
            burst: 0,
            retain_max_messages: 0,
            retain_max_age_ms: 0,
        };
        proof {
            assert(r@ =~= TopicView::fresh());
            assert(r@.dedup_order.to_set() =~= r@.dedup.dom());
        }
        r
    }

    /// Drops the `n` oldest messages and what the groups noted of them.
    fn drop_front(&mut self, n: usize)
        requires
            old(self).parts_wf(),
            old(self)@.sound(),
            n <= old(self)@.log.len(),
        ensures
            final(self).parts_wf(),
            final(self)@ == old(self)@.drop_front(n as nat),
    {
        let ghost start = self@;
        if n == 0 {
            proof {
                lemma_drop_nothing(start);
            }
            return;
        }
        let from: u64 = self.next_offset - self.log.len() as u64;
        let first: u64 = from + n as u64;
        let mut k: usize = 0;
        while k < n
            invariant
                k <= n <= start.log.len(),
                self.parts_wf(),
                self@ == (TopicView { log: start.log.skip(k as int), ..start }),
            decreases n - k,
        {
            let ghost before = self.log@;
            self.log.pop_front();
            k += 1;
            proof {
                assert(log_view(before) == start.log.skip(k - 1));
                assert(log_view(self.log@) =~= log_view(before).skip(1));
                assert(self@.log =~= start.log.skip(k as int));
                assert(self@ =~= (TopicView { log: start.log.skip(k as int), ..start }));
            }
        }
        let ghost names = self.groups.names();
        let ghost log = self@.log;
        let mut i: usize = 0;
        proof {
            self.groups.lemma_names();
            assert(self@.groups =~= start.groups);
        }
        while i < self.groups.len()
            invariant
                i <= names.len(),
                names == self.groups.names(),
                names.no_duplicates(),
                names.to_set() == start.groups.dom(),
                self.parts_wf(),
                start.sound(),
                from == start.first_offset(),
                first == from + n,
                self@.log == log,
                self@.groups.dom() == start.groups.dom(),
                self@ == (TopicView { log, groups: self@.groups, ..start }),
                forall|j: int|
                    i <= j < names.len() ==> self@.groups[#[trigger] names[j]]
                        == start.groups[names[j]],
                forall|j: int|
                    0 <= j < i ==> self@.groups[#[trigger] names[j]]
                        == start.groups[names[j]].prune(first as int),
            decreases names.len() - i,
        {
            let ghost before = *self;
            let ghost name = names[i as int];
            proof {
                assert(names.to_set().contains(name));
                assert(start.groups.contains_key(name));
                assert(self@.groups[name] == start.groups[name]);
            }
            let g = self.groups.value_at_mut(i);
            g.prune(from, first);
            i += 1;
            proof {
                assert(self.groups@ == before.groups@.insert(name, self.groups@[name]));
                assert(self@.groups =~= before@.groups.insert(
                    name,
                    start.groups[name].prune(first as int),
                ));
                assert(self@.groups.dom() =~= start.groups.dom());
            }
        }
        proof {
            let goal = start.drop_front(n as nat);
            assert forall|g: Seq<char>| #[trigger] start.groups.contains_key(g) implies self@.groups[g]
                == goal.groups[g] by {
                assert(names.to_set().contains(g));
                let j = choose|j: int| 0 <= j < names.len() && names[j] == g;
                assert(names[j] == g);
            }
            assert(self@.groups =~= goal.groups);
            assert(self@ =~= goal);
        }
    }

    /// Whether every group is done with `offset`.
    fn is_done_by_all(&self, offset: Offset) -> (r: bool)
        requires
            self.parts_wf(),
        ensures
            r == self@.done_by_all(offset),
    {
        let ghost names = self.groups.names();
        proof {
            self.groups.lemma_names();
        }
        let mut i: usize = 0;
        while i < self.groups.len()
            invariant
                i <= names.len(),
                names == self.groups.names(),
                names.to_set() == self@.groups.dom(),
                self.parts_wf(),
                forall|j: int| 0 <= j < i ==> self@.groups[#[trigger] names[j]].done(offset),
            decreases names.len() - i,
        {
            let ghost name = names[i as int];
            assert(names.to_set().contains(name));
            if !self.groups.value_at(i).is_done(offset) {
                assert(self@.groups.contains_key(name));
                return false;
            }
            i += 1;
        }
        proof {
            assert forall|g: Seq<char>| #[trigger] self@.groups.contains_key(g) implies self@.groups[g].done(
                offset,
            ) by {
                assert(names.to_set().contains(g));
                let j = choose|j: int| 0 <= j < names.len() && names[j] == g;
                assert(names[j] == g);
            }
        }
        true
    }

    /// Drops the messages that every group has acked past.
    fn reclaim(&mut self)
        requires
            old(self).parts_wf(),
            old(self)@.sound(),
        ensures
            final(self).wf(),
            final(self)@ == old(self)@.reclaim(),
    {
        let ghost start = self@;
        let ghost p = |m: MessageView| start.done_by_all(m.offset);
        let mut n: usize = 0;
        proof {
            self.groups.lemma_names();
            assert(self@.groups.dom() =~= self.groups@.dom());
            lemma_reclaim(start);
        }
        if self.groups.len() > 0 {
            while n < self.log.len() && self.is_done_by_all(self.log[n].offset)
                invariant
                    n <= start.log.len(),
                    self.parts_wf(),
                    self@ == start,
                    p == (|m: MessageView| start.done_by_all(m.offset)),
                    forall|i: int| 0 <= i < n ==> p(#[trigger] start.log[i]),
                ensures
                    n <= start.log.len(),
                    n < start.log.len() ==> !p(start.log[n as int]),
                decreases start.log.len() - n,
            {
                n += 1;
            }
            proof {
                lemma_prefix_len_unique(start.log, p, n as nat);
            }
        }
        self.drop_front(n);
    }

    /// Drops the messages that are too old or too many.
    fn purge_retained(&mut self, now_ms: u64)
        requires
            old(self).parts_wf(),
            old(self)@.sound(),
        ensures
            final(self).parts_wf(),
            final(self)@ == old(self)@.purge_retained(now_ms),
            final(self)@.sound(),
    {
        let ghost start = self@;
        let ghost p = |m: MessageView| start.too_old(m, now_ms);
        proof {
            lemma_unretained(start, now_ms);
            lemma_drop_front(start, start.unretained(now_ms));
        }
        let mut n: usize = 0;
        if self.retain_max_age_ms > 0 {
            while n < self.log.len() && now_ms.saturating_sub(self.log[n].ts_ms)
                > self.retain_max_age_ms
                invariant
                    n <= start.log.len(),
                    self@ == start,
                    start.retain_max_age_ms > 0,
                    p == (|m: MessageView| start.too_old(m, now_ms)),
                    forall|i: int| 0 <= i < n ==> p(#[trigger] start.log[i]),
                ensures
                    n <= start.log.len(),
                    n < start.log.len() ==> !p(start.log[n as int]),
                decreases start.log.len() - n,
            {
                n += 1;
            }
        }
        proof {
            lemma_prefix_len_unique(start.log, p, n as nat);
        }
        let capped: bool = self.retain_max_messages > 0 || self.retain_max_age_ms == 0;
        if capped {
            let cap: u64 = if self.retain_max_messages > 0 {
                self.retain_max_messages
            } else {
                DEFAULT_RETAIN_MESSAGES
            };
            let kept: usize = self.log.len() - n;
            if kept as u64 > cap {
                n = self.log.len() - cap as usize;
            }
        }
        self.drop_front(n);
    }

    /// Remembers the offset of a sequence number, and forgets the oldest one when
    /// there are too many.
    fn remember(&mut self, producer_id: String, seq: u64, offset: Offset)
        requires
            old(self).parts_wf(),
            old(self)@.sound(),
            !old(self)@.dedup.contains_key((producer_id@, seq)),
        ensures
            final(self).parts_wf(),
            final(self)@ == old(self)@.remember((producer_id@, seq), offset),
    {
        let ghost start = self@;
        let ghost key = (producer_id@, seq);
        let ghost order = start.dedup_order.push(key);
        let mut seen: BTreeMap<u64, Offset> = match self.producers.remove(producer_id.as_str()) {
            Some(m) => m,
            None => BTreeMap::new(),
        };
        seen.insert(seq, offset);
        let name = producer_id.clone();
        self.producers.insert(name, seen);
        self.dedup_order.push_back((producer_id, seq));
        proof {
            assert(self@.dedup =~= start.dedup.insert(key, offset));
            assert(self@.dedup_order =~= order);
        }
        if self.dedup_order.len() > DEDUP_CAPACITY {
            let ghost before = self@;
            match self.dedup_order.pop_front() {
                Some((name, seq)) => {
                    let ghost dropped = (name@, seq);
                    assert(order_view(self.dedup_order@) =~= order.skip(1));
                    match self.producers.remove(name.as_str()) {
                        Some(mut m) => {
                            m.remove(&seq);
                            if m.len() > 0 {
                                self.producers.insert(name, m);
                            } else {
                                assert(m@ =~= Map::<u64, Offset>::empty()) by {
                                    if exists|k: u64| m@.contains_key(k) {
                                        let k = choose|k: u64| m@.contains_key(k);
                                        assert(m@.dom().contains(k));
                                        assert(m@.dom().len() > 0);
                                    }
                                }
                            }
                            assert(dedup_view(self.producers@) =~= before.dedup.remove(dropped));
                        },
                        None => {
                            assert(dedup_view(self.producers@) =~= before.dedup.remove(dropped));
                        },
                    }
                },
                None => {},
            }
        }
        assert(self@ =~= start.remember(key, offset));
    }

    /// The offset that was given to a sequence number of a producer.
    fn remembered(&self, producer_id: &str, seq: u64) -> (r: Option<Offset>)
        requires
            self.parts_wf(),
        ensures
            match r {
                Some(o) => self@.dedup.contains_key((producer_id@, seq)) && o
                    == self@.dedup[(producer_id@, seq)],
                None => !self@.dedup.contains_key((producer_id@, seq)),
            },
    {
        match self.producers.get(producer_id) {
            Some(m) => match m.get(&seq) {
                Some(o) => Some(*o),
                None => None,
            },
            None => None,
        }
    }

    /// Appends a message, unless its producer has sent it before; answers with its offset.
    pub fn produce(&mut self, item: ProduceItem) -> (offset: Offset)
        requires
            old(self).wf(),
            old(self)@.has_room(item@),
        ensures
            final(self).wf(),
            (final(self)@, offset) == old(self)@.produce(item@),
    {
        let ghost start = self@;
        let ghost c = TopicView { created: true, ..start };
        proof {
            lemma_produce(start, item@);
            lemma_unconsumed(start);
            lemma_unconsumed(c);
            assert(forall|o: u64| start.done_by_all(o) == c.done_by_all(o));
        }
        self.created = true;
        assert(self@ =~= c);
        let dedup: bool = item.producer_id.as_str().as_bytes().len() > 0;
        proof {
            lemma_empty_bytes(item.producer_id@);
        }
        if dedup {
            match self.remembered(item.producer_id.as_str(), item.seq) {
                Some(o) => {
                    return o;
                },
                None => {},
            }
        }
        let offset: u64 = self.next_offset;
        let ghost view = item@;
        proof {
            lemma_append(c, view);
        }
        self.next_offset = offset + 1;
        self.log.push_back(
            Message {
                offset,
                priority: item.priority,
                content_type: item.content_type,
                payload: item.payload,
                ts_ms: item.ts_ms,
            },
        );
        assert(self@ =~= c.append(view));
        if dedup {
            proof {
                lemma_remember(c.append(view), (view.producer_id, view.seq), offset);
            }
            self.remember(item.producer_id, item.seq, offset);
        }
        self.purge_retained(item.ts_ms);
        self.reclaim();
        offset
    }

    /// Leases up to `max` messages to the group, under the lease numbers from
    /// `next_lease` on.
    pub fn poll(
        &mut self,
        group: &str,
        max: u32,
        visibility_timeout_ms: u64,
        ts_ms: u64,
        next_lease: LeaseId,
    ) -> (items: Vec<Delivered>)
        requires
            old(self).wf(),
            old(self)@.leases_below(next_lease),
            old(self)@.room_to_poll(group@, max, visibility_timeout_ms, ts_ms, next_lease),
        ensures
            final(self).wf(),
            final(self)@ == old(self)@.poll(
                group@,
                max,
                visibility_timeout_ms,
                ts_ms,
                next_lease,
            ),
            delivered_views(items@) == old(self)@.poll_items(group@, max, ts_ms, next_lease),
    {
        let ghost start = self@;
        let ghost seen = start.group(group@).expire(ts_ms);
        proof {
            lemma_poll(start, group@, max, visibility_timeout_ms, ts_ms, next_lease);
            lemma_polled(start, group@, max, ts_ms);
            lemma_candidates(start, seen);
        }
        let mut g = match self.groups.remove(group) {
            Some(g) => g,
            None => GroupState::new(),
        };
        assert(g@ == start.group(group@));
        g.expire(ts_ms);
        let candidates = collect_candidates(&self.log, &g);
        let polls: u64 = g.polls();
        g.count_poll();
        let chosen = choose_candidates(&candidates, max, polls);
        assert(chosen@ == start.polled(group@, max, ts_ms));
        let ghost log = self.log@;
        let held: usize = self.log.len();
        let first: u64 = self.next_offset - held as u64;
        let ghost deadline_ms = (ts_ms + visibility_timeout_ms) as u64;
        let mut items: Vec<Delivered> = Vec::new();
        let mut i: usize = 0;
        assert(g@.in_flight =~= granted(seen.in_flight, chosen@, 0, next_lease, deadline_ms));
        while i < chosen.len()
            invariant
                i <= chosen.len(),
                next_lease + chosen.len() <= u64::MAX,
                chosen.len() > 0 ==> ts_ms + visibility_timeout_ms <= u64::MAX,
                deadline_ms == (ts_ms + visibility_timeout_ms) as u64,
                g.wf(),
                self.log@ == log,
                log.len() == held,
                log_view(log) == start.log,
                start.sound(),
                first == start.first_offset(),
                forall|id: LeaseId| #[trigger] seen.in_flight.contains_key(id) ==> id < next_lease,
                g@ == (GroupView {
                    in_flight: granted(
                        seen.in_flight,
                        chosen@,
                        i as int,
                        next_lease,
                        deadline_ms,
                    ),
                    poll_count: (seen.poll_count + 1) as u64,
                    ..seen
                }),
                forall|j: int|
                    0 <= j < chosen.len() ==> {
                        let x = #[trigger] chosen@[j];
                        &&& start.first_offset() <= x.offset < start.next_offset
                        &&& !seen.done(x.offset)
                        &&& !seen.leased(x.offset)
                    },
                forall|j: int, k: int|
                    0 <= j < chosen.len() && 0 <= k < chosen.len() && j != k ==> (
                    #[trigger] chosen@[j]).offset != (#[trigger] chosen@[k]).offset,
                items.len() == i,
                forall|j: int|
                    0 <= j < i ==> (#[trigger] items@[j])@ == start.delivery(
                        chosen@[j].offset,
                        (next_lease + j) as u64,
                    ),
            decreases chosen.len() - i,
        {
            let offset: u64 = chosen[i].offset;
            let lease_id: u64 = next_lease + i as u64;
            let ghost before = g@;
            proof {
                assert(!before.in_flight.contains_key(lease_id));
                if before.leased(offset) {
                    let id = choose|id: LeaseId| #[trigger]
                        before.in_flight.contains_key(id) && before.in_flight[id].offset == offset;
                    if next_lease <= id {
                        assert(chosen@[id - next_lease].offset == chosen@[i as int].offset);
                    } else {
                        assert(seen.in_flight.contains_key(id));
                        assert(seen.leased(offset));
                    }
                }
            }
            g.lease(lease_id, offset, ts_ms + visibility_timeout_ms);
            let at: usize = (offset - first) as usize;
            let message = &self.log[at];
            proof {
                assert(at == offset - start.first_offset());
                assert(log_view(log)[at as int] == log[at as int]@);
                assert(start.log[offset - first] == message@);
            }
            let d = Delivered {
                lease_id,
                offset,
                priority: message.priority,
                content_type: message.content_type,
                payload: message.payload.clone(),
                ts_ms: message.ts_ms,
            };
            proof {
                assert(d.payload@ =~= message.payload@);
                assert(d@ == start.delivery(offset, lease_id));
                assert(g@.in_flight =~= granted(
                    seen.in_flight,
                    chosen@,
                    i + 1,
                    next_lease,
                    deadline_ms,
                ));
            }
            items.push(d);
            i += 1;
        }
        self.groups.insert(group.to_owned(), g);
        proof {
            let goal = start.poll(group@, max, visibility_timeout_ms, ts_ms, next_lease);
            assert(g@.in_flight =~= goal.groups[group@].in_flight);
            assert(g@ =~= goal.groups[group@]);
            assert(self@.groups =~= goal.groups);
            assert(self@ =~= goal);
            assert(delivered_views(items@) =~= start.poll_items(group@, max, ts_ms, next_lease));
        }
        items
    }

    /// Gives up a lease of the group; its message is done.
    pub fn ack(&mut self, group: &str, lease_id: LeaseId)
        requires
            old(self).wf(),
        ensures
            final(self).wf(),
            final(self)@ == old(self)@.ack(group@, lease_id),
    {
        let ghost start = self@;
        proof {
            lemma_ack(start, group@, lease_id);
        }
        match self.groups.get_mut(group) {
            Some(g) => {
                g.ack(lease_id);
            },
            None => {
                return;
            },
        }
        proof {
            assert(self@.groups =~= start.groups.insert(
                group@,
                start.groups[group@].ack(lease_id),
            ));
            assert(self@ =~= start.with_group(group@, start.groups[group@].ack(lease_id)));
        }
        self.reclaim();
    }

    /// Gives up a lease of the group; its message may be delivered again.
    pub fn nack(&mut self, group: &str, lease_id: LeaseId)
        requires
            old(self).wf(),
        ensures
            final(self).wf(),
            final(self)@ == old(self)@.nack(group@, lease_id),
    {
        let ghost start = self@;
        proof {
            lemma_nack(start, group@, lease_id);
        }
        match self.groups.get_mut(group) {
            Some(g) => {
                g.nack(lease_id);
            },
            None => {
                return;
            },
        }
        proof {
            assert(self@.groups =~= start.groups.insert(
                group@,
                start.groups[group@].nack(lease_id),
            ));
            assert(self@ =~= start.with_group(group@, start.groups[group@].nack(lease_id)));
        }
    }

    /// Lets everything below `offset` be done for the group.
    pub fn commit(&mut self, group: &str, offset: Offset)
        requires
            old(self).wf(),
        ensures
            final(self).wf(),
            final(self)@ == old(self)@.commit(group@, offset),
    {
        let ghost start = self@;
        proof {
            lemma_commit(start, group@, offset);
        }
        let mut g = match self.groups.remove(group) {
            Some(g) => g,
            None => GroupState::new(),
        };
        assert(g@ == start.group(group@));
        g.commit(offset);
        self.groups.insert(group.to_owned(), g);
        proof {
            assert(self@.groups =~= start.groups.insert(
                group@,
                start.group(group@).commit(offset),
            ));
            assert(self@ =~= start.with_group(group@, start.group(group@).commit(offset)));
        }
        self.reclaim();
    }

    /// Whether a poll at `now_ms` would find a message for the group.
    pub fn has_deliverable(&self, group: &str, now_ms: u64) -> (r: bool)
        requires
            self.wf(),
        ensures
            r == (self@.candidates(self@.group(group@).expire(now_ms)).len() > 0),
    {
        let ghost later = self@.group(group@).expire(now_ms);
        proof {
            lemma_candidates(self@, later);
        }
        match self.groups.get(group) {
            None => {
                let r: bool = self.log.len() > 0;
                proof {
                    assert(later =~= GroupView::fresh());
                    if r {
                        let m = self@.log[0];
                        assert(!later.done(m.offset) && !later.leased(m.offset));
                    }
                }
                r
            },
            Some(g) => {
                let mut i: usize = 0;
                while i < self.log.len()
                    invariant
                        i <= self.log@.len(),
                        g.wf(),
                        later == g@.expire(now_ms),
                        later == self@.group(group@).expire(now_ms),
                        forall|j: int|
                            0 <= j < i ==> later.done((#[trigger] self@.log[j]).offset)
                                || later.leased(self@.log[j].offset),
                        forall|k: int|
                            0 <= k < self@.log.len() && !later.done(
                                (#[trigger] self@.log[k]).offset,
                            ) && !later.leased(self@.log[k].offset) ==> self@.candidates(
                                later,
                            ).contains(
                                Candidate {
                                    priority: self@.log[k].priority.0,
                                    offset: self@.log[k].offset,
                                },
                            ),
                    decreases self.log@.len() - i,
                {
                    let offset: u64 = self.log[i].offset;
                    assert(self@.log[i as int].offset == offset);
                    assert(later.done(offset) == g@.done(offset));
                    if !g.is_done(offset) && !g.is_leased_at(offset, now_ms) {
                        return true;
                    }
                    i += 1;
                }
                proof {
                    let c = self@.candidates(later);
                    if c.len() > 0 {
                        let k = c[0].offset - self@.first_offset();
                        assert(self@.log[k].offset == c[0].offset);
                    }
                }
                false
            },
        }
    }

    /// Notes that the topic was created.
    pub fn create(&mut self)
        requires
            old(self).wf(),
        ensures
            final(self).wf(),
            final(self)@ == (TopicView { created: true, ..old(self)@ }),
    {
        self.created = true;
        proof {
            lemma_settings(old(self)@, self@);
        }
    }

    /// Sets the rate at which messages are handed out.
    pub fn set_rate_limit(&mut self, rate_milli_per_sec: u64, burst: u32)
        requires
            old(self).wf(),
        ensures
            final(self).wf(),
            final(self)@ == (TopicView { rate_milli_per_sec, burst, ..old(self)@ }),
    {
        self.rate_milli_per_sec = rate_milli_per_sec;
        self.burst = burst;
        proof {
            lemma_settings(old(self)@, self@);
        }
    }

    /// Sets how many messages are kept, and for how long.
    pub fn set_retention(&mut self, max_messages: u64, max_age_ms: u64)
        requires
            old(self).wf(),
        ensures
            final(self).wf(),
            final(self)@ == (TopicView {
                retain_max_messages: max_messages,
                retain_max_age_ms: max_age_ms,
                ..old(self)@
            }),
    {
        self.retain_max_messages = max_messages;
        self.retain_max_age_ms = max_age_ms;
        proof {
            lemma_settings(old(self)@, self@);
        }
    }

    /// The rate at which messages are handed out, and its burst.
    pub fn rate(&self) -> (r: (u64, u32))
        ensures
            r == (self@.rate_milli_per_sec, self@.burst),
    {
        (self.rate_milli_per_sec, self.burst)
    }

    /// The offset that the next message will get.
    pub fn next_offset(&self) -> (r: Offset)
        ensures
            r == self@.next_offset,
    {
        self.next_offset
    }

    /// How many messages are retained.
    pub fn len(&self) -> (r: usize)
        ensures
            r == self@.log.len(),
    {
        self.log.len()
    }

    /// How many leases are out, or the largest number there is.
    pub fn in_flight_len(&self) -> (r: u64)
        requires
            self.wf(),
        ensures
            r == capped(self@.in_flight_count()),
    {
        let ghost f = |g: GroupView| g.in_flight.len();
        let ghost names = self.groups.names();
        proof {
            self.groups.lemma_names();
            assert(self@.groups.dom() =~= self.groups@.dom());
        }
        let mut n: u64 = 0;
        let mut i: usize = 0;
        while i < self.groups.len()
            invariant
                i <= names.len(),
                names == self.groups.names(),
                self.parts_wf(),
                f == (|g: GroupView| g.in_flight.len()),
                n == capped(total_of(self@.groups, f, names, i as int)),
            decreases names.len() - i,
        {
            let len: usize = self.groups.value_at(i).in_flight_len();
            assert(f(self@.groups[names[i as int]]) == len);
            n = n.saturating_add(len as u64);
            i += 1;
        }
        proof {
            lemma_total_of(self@.groups, f, names);
        }
        n
    }

    /// Whether the offset counter has room for a message of the producer, if it needs any.
    pub fn can_produce(&self, producer_id: &str, seq: u64) -> (r: bool)
        requires
            self.wf(),
        ensures
            r == (producer_id@.len() > 0 && self@.dedup.contains_key((producer_id@, seq))
                || self@.next_offset < u64::MAX),
    {
        proof {
            lemma_empty_bytes(producer_id@);
        }
        if self.next_offset < u64::MAX {
            return true;
        }
        match self.remembered(producer_id, seq) {
            Some(_) => producer_id.as_bytes().len() > 0,
            None => false,
        }
    }

    /// A topic that holds nothing, but gives out the same offsets and remembers the same
    /// of the producers.
    pub fn outline(&self) -> (r: Self)
        requires
            self.wf(),
        ensures
            r.wf(),
            r@ == (TopicView {
                next_offset: self@.next_offset,
                dedup: self@.dedup,
                dedup_order: self@.dedup_order,
                ..TopicView::fresh()
            }),
    {
        let list = self.snapshot_dedup();
        let mut r = TopicState::new();
        let ghost fresh = r@;
        r.next_offset = self.next_offset;
        match restore_dedup(&list, self.next_offset) {
            Some((producers, order)) => {
                proof {
                    lemma_one_dedup(list@, dedup_view(producers@), self@.dedup);
                }
                r.producers = producers;
                r.dedup_order = order;
            },
            None => {
                proof {
                    assert(self@.dedup_wf());
                    assert(lists_dedup(list@, self@.dedup));
                }
            },
        }
        proof {
            assert(r@ =~= (TopicView {
                next_offset: self@.next_offset,
                dedup: self@.dedup,
                dedup_order: self@.dedup_order,
                ..fresh
            }));
            assert(r@.dedup_wf());
            lemma_unconsumed(r@);
        }
        r
    }

    /// How many messages a poll at `now_ms` would find for the group.
    fn count_deliverable(&self, group: &str, now_ms: u64) -> (r: usize)
        requires
            self.wf(),
        ensures
            r == self@.candidates(self@.group(group@).expire(now_ms)).len(),
    {
        let ghost later = self@.group(group@).expire(now_ms);
        let ghost p = |m: MessageView| !later.done(m.offset) && !later.leased(m.offset);
        let g = match self.groups.get(group) {
            Some(g) => g,
            None => {
                proof {
                    assert(later =~= GroupView::fresh());
                    lemma_filter_all(self@.log, p);
                }
                return self.log.len();
            },
        };
        let mut n: usize = 0;
        let mut i: usize = 0;
        proof {
            reveal(Seq::filter);
        }
        while i < self.log.len()
            invariant
                i <= self.log@.len(),
                n <= i,
                g.wf(),
                later == g@.expire(now_ms),
                p == (|m: MessageView| !later.done(m.offset) && !later.leased(m.offset)),
                n == self@.log.take(i as int).filter(p).len(),
            decreases self.log@.len() - i,
        {
            let offset: u64 = self.log[i].offset;
            proof {
                lemma_filter_take(self@.log, p, i as int);
                assert(self@.log[i as int].offset == offset);
                assert(later.done(offset) == g@.done(offset));
            }
            if !g.is_done(offset) && !g.is_leased_at(offset, now_ms) {
                n += 1;
            }
            i += 1;
        }
        assert(self@.log.take(i as int) =~= self@.log);
        n
    }

    /// Whether the counters that a poll moves have room, and so has the deadline of a
    /// lease.
    pub fn can_poll(
        &self,
        group: &str,
        max: u32,
        visibility_timeout_ms: u64,
        ts_ms: u64,
        next_lease: LeaseId,
    ) -> (r: bool)
        requires
            self.wf(),
        ensures
            r == self@.room_to_poll(group@, max, visibility_timeout_ms, ts_ms, next_lease),
    {
        proof {
            lemma_polled(self@, group@, max, ts_ms);
        }
        let polls: u64 = match self.groups.get(group) {
            Some(g) => g.polls(),
            None => 0,
        };
        if polls == u64::MAX {
            return false;
        }
        let leases_left: u64 = u64::MAX - next_lease;
        let deadline_fits: bool = visibility_timeout_ms <= u64::MAX - ts_ms;
        if deadline_fits && max as u64 <= leases_left {
            return true;
        }
        let found: usize = self.count_deliverable(group, ts_ms);
        let n: usize = if found < max as usize {
            found
        } else {
            max as usize
        };
        n as u64 <= leases_left && (n == 0 || deadline_fits)
    }
}

impl TopicState {
    /// The topic as plain data.
    pub fn snapshot(&self) -> (r: TopicData)
        requires
            self.wf(),
        ensures
            r.describes(self@),
    {
        let mut log: Vec<Message> = Vec::new();
        let mut i: usize = 0;
        while i < self.log.len()
            invariant
                i <= self.log@.len(),
                log@.len() == i,
                forall|j: int| 0 <= j < i ==> (#[trigger] log@[j])@ == self.log@[j]@,
            decreases self.log@.len() - i,
        {
            let m = &self.log[i];
            let copy = Message {
                offset: m.offset,
                priority: m.priority,
                content_type: m.content_type,
                payload: m.payload.clone(),
                ts_ms: m.ts_ms,
            };
            assert(copy.payload@ =~= m.payload@);
            log.push(copy);
            i += 1;
        }
        assert(log_view(log@) =~= self@.log);
        let dedup = self.snapshot_dedup();
        let groups = self.snapshot_groups();
        TopicData {
            created: self.created,
            next_offset: self.next_offset,
            log,
            dedup,
            groups,
            rate_milli_per_sec: self.rate_milli_per_sec,
            burst: self.burst,
            retain_max_messages: self.retain_max_messages,
            retain_max_age_ms: self.retain_max_age_ms,
        }
    }

    fn snapshot_dedup(&self) -> (r: Vec<DedupData>)
        requires
            self.wf(),
        ensures
            dedup_keys(r@) == self@.dedup_order,
            lists_dedup(r@, self@.dedup),
    {
        let mut r: Vec<DedupData> = Vec::new();
        let mut i: usize = 0;
        while i < self.dedup_order.len()
            invariant
                i <= self.dedup_order@.len(),
                self.parts_wf(),
                self@.dedup_wf(),
                r@.len() == i,
                forall|j: int|
                    0 <= j < i ==> dedup_key(#[trigger] r@[j]) == self@.dedup_order[j]
                        && self@.dedup.contains_key(self@.dedup_order[j]) && r@[j].offset
                        == self@.dedup[self@.dedup_order[j]],
            decreases self.dedup_order@.len() - i,
        {
            let (name, seq) = &self.dedup_order[i];
            let ghost key = self@.dedup_order[i as int];
            proof {
                assert(key == (name@, *seq));
                assert(self@.dedup_order.contains(key));
                assert(self@.dedup_order.to_set().contains(key));
                assert(self@.dedup.contains_key(key));
            }
            match self.remembered(name.as_str(), *seq) {
                Some(offset) => {
                    r.push(DedupData { producer_id: name.clone(), seq: *seq, offset });
                },
                None => {},
            }
            i += 1;
        }
        proof {
            assert(dedup_keys(r@) =~= self@.dedup_order);
            assert forall|k: (Seq<char>, u64)| #[trigger] self@.dedup.contains_key(
                k,
            ) implies exists|i: int| 0 <= i < r@.len() && dedup_key(#[trigger] r@[i]) == k by {
                assert(self@.dedup_order.to_set().contains(k));
                let j = choose|j: int|
                    0 <= j < self@.dedup_order.len() && self@.dedup_order[j] == k;
                assert(dedup_key(r@[j]) == k);
            }
        }
        r
    }

    fn snapshot_groups(&self) -> (r: Vec<(String, GroupData)>)
        requires
            self.wf(),
        ensures
            lists_groups(r@, self@.groups),
    {
        let ghost names = self.groups.names();
        proof {
            self.groups.lemma_names();
        }
        let mut r: Vec<(String, GroupData)> = Vec::new();
        let mut i: usize = 0;
        while i < self.groups.len()
            invariant
                i <= names.len(),
                names == self.groups.names(),
                names.to_set() == self@.groups.dom(),
                self.parts_wf(),
                r@.len() == i,
                forall|j: int|
                    0 <= j < i ==> (#[trigger] r@[j]).0@ == names[j] && r@[j].1.describes(
                        self@.groups[names[j]],
                    ),
            decreases names.len() - i,
        {
            assert(names.to_set().contains(names[i as int]));
            let name = self.groups.name_at(i).clone();
            let data = self.groups.value_at(i).snapshot();
            r.push((name, data));
            i += 1;
        }
        proof {
            assert forall|i: int| 0 <= i < r@.len() implies self@.groups.contains_key(
                (#[trigger] r@[i]).0@,
            ) && r@[i].1.describes(self@.groups[r@[i].0@]) by {
                assert(names.to_set().contains(names[i]));
            }
            assert forall|n: Seq<char>| #[trigger] self@.groups.contains_key(n) implies exists|
                i: int,
            |
                0 <= i < r@.len() && (#[trigger] r@[i]).0@ == n by {
                assert(names.to_set().contains(n));
                let j = choose|j: int| 0 <= j < names.len() && names[j] == n;
                assert(r@[j].0@ == n);
            }
        }
        r
    }

    /// The topic of plain data, with leases below `next_lease`, less what every group has
    /// acked past; none where the data is that of no sound topic.
    pub fn restore(d: TopicData, next_lease: u64) -> (r: Option<Self>)
        ensures
            match r {
                Some(t) => t.wf() && exists|v: TopicView| #[trigger]
                    d.describes(v) && v.sound() && v.leases_below(next_lease) && t@ == v.reclaim(),
                None => forall|v: TopicView| #[trigger]
                    d.describes(v) ==> !(v.sound() && v.leases_below(next_lease)),
            },
    {
        let ghost data = d;
        let held: usize = d.log.len();
        if held as u64 > d.next_offset {
            proof {
                assert forall|v: TopicView| #[trigger] d.describes(v) implies !v.sound() by {
                    assert(v.log.len() == held);
                }
            }
            return None;
        }
        let first: u64 = d.next_offset - held as u64;
        let mut i: usize = 0;
        while i < held
            invariant
                i <= held,
                held == d.log@.len(),
                first + held == d.next_offset,
                d == data,
                forall|j: int| 0 <= j < i ==> (#[trigger] d.log@[j]).offset == first + j,
            decreases held - i,
        {
            if d.log[i].offset != first + i as u64 {
                proof {
                    assert forall|v: TopicView| #[trigger] data.describes(v) implies !v.sound() by {
                        assert(v.log[i as int] == data.log@[i as int]@);
                        assert(v.first_offset() == first);
                    }
                }
                return None;
            }
            i += 1;
        }
        let (producers, dedup_order) = match restore_dedup(&d.dedup, d.next_offset) {
            Some(p) => p,
            None => {
                return None;
            },
        };
        let groups = match restore_groups(&d.groups, first, d.next_offset, next_lease) {
            Some(g) => g,
            None => {
                proof {
                    assert forall|v: TopicView| #[trigger] data.describes(v) implies !(v.sound()
                        && v.leases_below(next_lease)) by {
                        assert(v.first_offset() == first);
                        if v.sound() && v.leases_below(next_lease) {
                            assert forall|n: Seq<char>| #[trigger] v.groups.contains_key(
                                n,
                            ) implies v.groups[n].wf(first as int, data.next_offset as int)
                                && v.groups[n].leases_below(next_lease) by {}
                        }
                    }
                }
                return None;
            },
        };
        let ghost messages = d.log@;
        let mut log: VecDeque<Message> = VecDeque::new();
        assert(log@ =~= messages.take(0));
        let list = d.log;
        for m in it: list
            invariant
                it.seq() == messages,
                log@ == messages.take(it.index()),
        {
            let ghost n = it.index();
            log.push_back(m);
            assert(log@ =~= messages.take(n + 1));
        }
        assert(log@ =~= messages);
        let mut t = TopicState {
            created: d.created,
            next_offset: d.next_offset,
            log,
            producers,
            dedup_order,
            groups,
            rate_milli_per_sec: d.rate_milli_per_sec,
            burst: d.burst,
            retain_max_messages: d.retain_max_messages,
            retain_max_age_ms: d.retain_max_age_ms,
        };
        proof {
            t.groups.lemma_names();
            assert(t@.groups.dom() =~= t.groups@.dom());
            assert(data.describes(t@));
            assert forall|g: Seq<char>| #[trigger] t@.groups.contains_key(g) implies t@.groups[g].wf(
                t@.first_offset(),
                t@.next_offset as int,
            ) && t@.groups[g].leases_below(next_lease) by {}
            assert(t@.dedup_wf());
            assert(t@.sound());
            lemma_drop_keeps_leases(t@, t@.consumed(), next_lease);
        }
        t.reclaim();
        Some(t)
    }
}

/// The producers of plain data, and the order in which they are remembered; none where
/// the data fits no topic.
fn restore_dedup(list: &Vec<DedupData>, next_offset: u64) -> (r: Option<
    (NameMap<BTreeMap<u64, Offset>>, VecDeque<(String, u64)>),
>)
    ensures
        match r {
            Some((producers, order)) => {
                &&& producers.wf()
                &&& order_view(order@) == dedup_keys(list@)
                &&& lists_dedup(list@, dedup_view(producers@))
                &&& dedup_keys(list@).to_set() == dedup_view(producers@).dom()
                &&& list@.len() <= DEDUP_CAPACITY
                &&& forall|k: (Seq<char>, u64)| #[trigger]
                    dedup_view(producers@).contains_key(k) ==> dedup_view(producers@)[k]
                        < next_offset
            },
            None => forall|v: TopicView|
                dedup_keys(list@) == v.dedup_order && #[trigger] lists_dedup(list@, v.dedup)
                    && v.next_offset == next_offset ==> !v.dedup_wf(),
        },
{
    if list.len() > DEDUP_CAPACITY {
        return None;
    }
    let mut producers: NameMap<BTreeMap<u64, Offset>> = NameMap::new();
    let mut order: VecDeque<(String, u64)> = VecDeque::new();
    let mut i: usize = 0;
    proof {
        assert(order_view(order@) =~= dedup_keys(list@.take(0)));
        assert(dedup_keys(list@.take(0)).to_set() =~= dedup_view(producers@).dom());
    }
    while i < list.len()
        invariant
            i <= list@.len(),
            producers.wf(),
            order_view(order@) == dedup_keys(list@.take(i as int)),
            lists_dedup(list@.take(i as int), dedup_view(producers@)),
            dedup_keys(list@.take(i as int)).to_set() == dedup_view(producers@).dom(),
            forall|k: (Seq<char>, u64)| #[trigger]
                dedup_view(producers@).contains_key(k) ==> dedup_view(producers@)[k] < next_offset,
        decreases list@.len() - i,
    {
        let d = &list[i];
        let ghost key = dedup_key(*d);
        let ghost before = dedup_view(producers@);
        let mut seen: BTreeMap<u64, Offset> = match producers.remove(d.producer_id.as_str()) {
            Some(m) => m,
            None => BTreeMap::new(),
        };
        let known: bool = seen.contains_key(&d.seq);
        assert(known == before.contains_key(key));
        if known || d.offset >= next_offset {
            proof {
                lemma_no_such_dedup(list@, i as int, before, next_offset);
            }
            return None;
        }
        seen.insert(d.seq, d.offset);
        producers.insert(d.producer_id.clone(), seen);
        let ghost start = order@;
        order.push_back((d.producer_id.clone(), d.seq));
        i += 1;
        proof {
            assert(dedup_view(producers@) =~= before.insert(key, d.offset));
            lemma_dedup_listed(list@, i - 1, before, dedup_view(producers@));
            assert(order_view(order@) =~= order_view(start).push(key));
            assert(dedup_keys(list@.take(i as int)) =~= dedup_keys(list@.take(i - 1)).push(key));
            assert(dedup_keys(list@.take(i as int)).to_set() =~= dedup_view(producers@).dom()) by {
                let (a, b) = (dedup_keys(list@.take(i - 1)), dedup_keys(list@.take(i as int)));
                assert forall|k: (Seq<char>, u64)| b.contains(k) <==> a.contains(k) || k
                    == key by {
                    broadcast use vstd::seq_lib::group_seq_properties;

                }
                assert forall|k: (Seq<char>, u64)| a.to_set().contains(k) <==> a.contains(k) by {}
            }
        }
    }
    assert(list@.take(i as int) =~= list@);
    Some((producers, order))
}

/// One more sequence number that is not yet in the list.
proof fn lemma_dedup_listed(
    list: Seq<DedupData>,
    k: int,
    before: Map<(Seq<char>, u64), u64>,
    after: Map<(Seq<char>, u64), u64>,
)
    requires
        0 <= k < list.len(),
        lists_dedup(list.take(k), before),
        !before.contains_key(dedup_key(list[k])),
        after == before.insert(dedup_key(list[k]), list[k].offset),
    ensures
        lists_dedup(list.take(k + 1), after),
{
    let (a, b) = (list.take(k), list.take(k + 1));
    let (x, y) = (dedup_keys(a), dedup_keys(b));
    assert(y =~= x.push(dedup_key(list[k])));
    assert forall|i: int| 0 <= i < k implies before.contains_key(dedup_key(#[trigger] b[i]))
        && before[dedup_key(b[i])] == b[i].offset by {
        assert(a[i] == b[i]);
    }
    assert(y.no_duplicates()) by {
        assert forall|i: int, j: int| 0 <= i < y.len() && 0 <= j < y.len() && i != j implies y[i]
            != y[j] by {
            if i < k {
                assert(y[i] == dedup_key(b[i]));
                assert(x[i] == y[i]);
            }
            if j < k {
                assert(y[j] == dedup_key(b[j]));
                assert(x[j] == y[j]);
            }
        }
    }
    assert forall|key: (Seq<char>, u64)| #[trigger] after.contains_key(key) implies exists|i: int|
        0 <= i < b.len() && dedup_key(#[trigger] b[i]) == key by {
        if before.contains_key(key) {
            let i = choose|i: int| 0 <= i < a.len() && dedup_key(#[trigger] a[i]) == key;
            assert(dedup_key(b[i]) == key);
        } else {
            assert(dedup_key(b[k]) == key);
        }
    }
}

/// A sequence number that occurs twice, or whose offset was never given out, fits no
/// topic.
proof fn lemma_no_such_dedup(
    list: Seq<DedupData>,
    k: int,
    before: Map<(Seq<char>, u64), u64>,
    next_offset: u64,
)
    requires
        0 <= k < list.len(),
        lists_dedup(list.take(k), before),
        before.contains_key(dedup_key(list[k])) || list[k].offset >= next_offset,
    ensures
        forall|v: TopicView|
            dedup_keys(list) == v.dedup_order && #[trigger] lists_dedup(list, v.dedup)
                && v.next_offset == next_offset ==> !v.dedup_wf(),
{
    assert forall|v: TopicView|
        dedup_keys(list) == v.dedup_order && #[trigger] lists_dedup(list, v.dedup) && v.next_offset
            == next_offset implies !v.dedup_wf() by {
        let key = dedup_key(list[k]);
        assert(v.dedup.contains_key(key));
        if before.contains_key(key) {
            let i = choose|i: int| 0 <= i < k && dedup_key(#[trigger] list.take(k)[i]) == key;
            assert(list.take(k)[i] == list[i]);
            assert(dedup_keys(list)[i] == dedup_keys(list)[k]);
        }
    }
}

/// The groups of plain data, over a log of the offsets from `first` up to `next` and
/// with leases below `next_lease`; none where the data fits no topic.
fn restore_groups(
    list: &Vec<(String, GroupData)>,
    first: u64,
    next: u64,
    next_lease: u64,
) -> (r: Option<NameMap<GroupState>>)
    ensures
        match r {
            Some(groups) => {
                &&& groups.wf()
                &&& lists_groups(list@, groups_view(groups@))
                &&& forall|n: Seq<char>| #[trigger]
                    groups@.contains_key(n) ==> groups@[n].wf() && groups@[n]@.wf(
                        first as int,
                        next as int,
                    ) && groups@[n]@.leases_below(next_lease)
            },
            None => forall|v: Map<Seq<char>, GroupView>| #[trigger]
                lists_groups(list@, v) ==> !(forall|n: Seq<char>| #[trigger]
                    v.contains_key(n) ==> v[n].wf(first as int, next as int) && v[n].leases_below(
                        next_lease,
                    )),
        },
{
    let mut groups: NameMap<GroupState> = NameMap::new();
    let mut i: usize = 0;
    while i < list.len()
        invariant
            i <= list@.len(),
            groups.wf(),
            lists_groups(list@.take(i as int), groups_view(groups@)),
            forall|n: Seq<char>| #[trigger]
                groups@.contains_key(n) ==> groups@[n].wf() && groups@[n]@.wf(
                    first as int,
                    next as int,
                ) && groups@[n]@.leases_below(next_lease),
        decreases list@.len() - i,
    {
        let (name, data) = &list[i];
        let ghost before = groups_view(groups@);
        match groups.get(name.as_str()) {
            Some(_) => {
                proof {
                    assert forall|v: Map<Seq<char>, GroupView>| #[trigger] lists_groups(
                        list@,
                        v,
                    ) implies false by {
                        assert(before.contains_key(name@));
                        let j = choose|j: int|
                            0 <= j < i && (#[trigger] list@.take(i as int)[j]).0@ == name@;
                        assert(list@.take(i as int)[j] == list@[j]);
                        assert(list@[j].0@ == list@[i as int].0@);
                    }
                }
                return None;
            },
            None => {},
        }
        let g = match GroupState::restore(data, first, next, next_lease) {
            Some(g) => g,
            None => {
                proof {
                    assert forall|v: Map<Seq<char>, GroupView>| #[trigger] lists_groups(
                        list@,
                        v,
                    ) implies !(forall|n: Seq<char>| #[trigger]
                        v.contains_key(n) ==> v[n].wf(first as int, next as int)
                            && v[n].leases_below(next_lease)) by {
                        assert(list@[i as int].1.describes(v[list@[i as int].0@]));
                        assert(v.contains_key(list@[i as int].0@));
                    }
                }
                return None;
            },
        };
        let ghost value = g@;
        groups.insert(name.clone(), g);
        i += 1;
        proof {
            assert(groups_view(groups@) =~= before.insert(name@, value));
            lemma_groups_listed(list@, i - 1, before, groups_view(groups@), value);
        }
    }
    assert(list@.take(i as int) =~= list@);
    Some(groups)
}

/// One more group that is not yet in the list.
proof fn lemma_groups_listed(
    list: Seq<(String, GroupData)>,
    k: int,
    before: Map<Seq<char>, GroupView>,
    after: Map<Seq<char>, GroupView>,
    value: GroupView,
)
    requires
        0 <= k < list.len(),
        lists_groups(list.take(k), before),
        !before.contains_key(list[k].0@),
        list[k].1.describes(value),
        after == before.insert(list[k].0@, value),
    ensures
        lists_groups(list.take(k + 1), after),
{
    let (a, b) = (list.take(k), list.take(k + 1));
    assert forall|i: int| 0 <= i < k implies before.contains_key((#[trigger] b[i]).0@)
        && b[i].1.describes(before[b[i].0@]) by {
        assert(a[i] == b[i]);
    }
    assert forall|i: int, j: int| 0 <= i < b.len() && 0 <= j < b.len() && (#[trigger] b[i]).0@ == (
    #[trigger] b[j]).0@ implies i == j by {
        if i < k && j < k {
            assert(a[i] == b[i] && a[j] == b[j]);
        }
    }
    assert forall|n: Seq<char>| #[trigger] after.contains_key(n) implies exists|i: int|
        0 <= i < b.len() && (#[trigger] b[i]).0@ == n by {
        if before.contains_key(n) {
            let i = choose|i: int| 0 <= i < a.len() && (#[trigger] a[i]).0@ == n;
            assert(b[i].0@ == n);
        } else {
            assert(b[k].0@ == n);
        }
    }
}

/// The leases of a group after the first `n` of the chosen messages were handed out.
pub open spec fn granted(
    leases: Map<LeaseId, Lease>,
    chosen: Seq<Candidate>,
    n: int,
    next_lease: u64,
    deadline_ms: u64,
) -> Map<LeaseId, Lease> {
    Map::new(
        |id: LeaseId| leases.contains_key(id) || next_lease <= id < next_lease + n,
        |id: LeaseId|
            if next_lease <= id < next_lease + n {
                Lease { offset: chosen[id - next_lease].offset, deadline_ms }
            } else {
                leases[id]
            },
    )
}

/// The messages of a log that a group may be given, oldest first.
fn collect_candidates(log: &VecDeque<Message>, g: &GroupState) -> (r: Vec<Candidate>)
    requires
        g.wf(),
    ensures
        r@ == candidates_in(log_view(log@), g@),
{
    let ghost all = log_view(log@);
    let ghost p = |m: MessageView| !g@.done(m.offset) && !g@.leased(m.offset);
    let ghost f = |m: MessageView| Candidate { priority: m.priority.0, offset: m.offset };
    let mut r: Vec<Candidate> = Vec::new();
    let mut i: usize = 0;
    proof {
        reveal(Seq::filter);
        assert(r@ =~= all.take(0).filter(p).map_values(f));
    }
    while i < log.len()
        invariant
            i <= log@.len(),
            g.wf(),
            all == log_view(log@),
            p == (|m: MessageView| !g@.done(m.offset) && !g@.leased(m.offset)),
            f == (|m: MessageView| Candidate { priority: m.priority.0, offset: m.offset }),
            r@ == all.take(i as int).filter(p).map_values(f),
        decreases log@.len() - i,
    {
        let m = &log[i];
        proof {
            lemma_filter_take(all, p, i as int);
        }
        if !g.is_done(m.offset) && !g.is_leased(m.offset) {
            let c = Candidate { priority: m.priority.0, offset: m.offset };
            r.push(c);
            proof {
                assert(f(all[i as int]) == c);
                assert(all.take(i + 1).filter(p).map_values(f) =~= all.take(i as int).filter(
                    p,
                ).map_values(f).push(c));
            }
        }
        i += 1;
    }
    assert(all.take(i as int) =~= all);
    r
}

/// Only the empty name is encoded without a byte.
proof fn lemma_empty_bytes(s: Seq<char>)
    ensures
        vstd::utf8::encode_utf8(s).len() == 0 <==> s.len() == 0,
{
    reveal_with_fuel(vstd::utf8::encode_utf8, 2);
}

} // verus!
