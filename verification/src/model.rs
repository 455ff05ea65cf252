//! What the queue is, as mathematics: the values of groups, topics and queues,
//! and what each command makes of them.
use crate::command::{item_views, AppRequest, AppResponseView, DeliveredView, ProduceItemView};
use crate::totals::total;
use crate::types::{LeaseId, MessageView, Offset};
use vstd::prelude::*;

verus! {

/// How many producer sequence numbers a topic remembers.
pub const DEDUP_CAPACITY: usize = 100_000;

/// One slot in this many is kept for the oldest messages.
pub const RESERVED_DEN: u64 = 4;

/// The cap on the messages of a topic for which no retention is set.
pub const DEFAULT_RETAIN_MESSAGES: u64 = 1_000_000;

/// A message held by a consumer until its deadline.
#[derive(Debug, Clone, Copy, PartialEq, Eq)]
pub struct Lease {
    pub offset: Offset,
    pub deadline_ms: u64,
}

/// The length of the longest prefix of `s` on which `p` holds throughout.
pub open spec fn prefix_len<A>(s: Seq<A>, p: spec_fn(A) -> bool) -> nat
    decreases s.len(),
{
    if s.len() == 0 || !p(s[0]) {
        0
    } else {
        1 + prefix_len(s.skip(1), p)
    }
}

/// `prefix_len` is the position at which `p` first fails.
pub proof fn lemma_prefix_len<A>(s: Seq<A>, p: spec_fn(A) -> bool)
    ensures
        prefix_len(s, p) <= s.len(),
        forall|i: int| 0 <= i < prefix_len(s, p) ==> p(#[trigger] s[i]),
        prefix_len(s, p) < s.len() ==> !p(s[prefix_len(s, p) as int]),
    decreases s.len(),
{
    if s.len() > 0 && p(s[0]) {
        lemma_prefix_len(s.skip(1), p);
        assert forall|i: int| 0 <= i < prefix_len(s, p) implies p(#[trigger] s[i]) by {
            if i > 0 {
                assert(s.skip(1)[i - 1] == s[i]);
            }
        }
    }
}

/// The position at which `p` first fails is `prefix_len`.
pub proof fn lemma_prefix_len_unique<A>(s: Seq<A>, p: spec_fn(A) -> bool, n: nat)
    requires
        n <= s.len(),
        forall|i: int| 0 <= i < n ==> p(#[trigger] s[i]),
        n < s.len() ==> !p(s[n as int]),
    ensures
        prefix_len(s, p) == n,
{
    lemma_prefix_len(s, p);
    let k = prefix_len(s, p);
    if k < n {
        assert(p(s[k as int]));
    }
    if n < k {
        assert(p(s[n as int]));
    }
}

/// The first offset at or above `watermark` that `above` does not hold.
pub open spec fn run_end(watermark: u64, above: Set<u64>) -> u64
    decreases u64::MAX - watermark,
{
    if watermark < u64::MAX && above.contains(watermark) {
        run_end((watermark + 1) as u64, above)
    } else {
        watermark
    }
}

/// `run_end` closes the run of offsets that starts at the watermark.
pub proof fn lemma_run_end(watermark: u64, above: Set<u64>)
    ensures
        watermark <= run_end(watermark, above),
        forall|o: u64| watermark <= o < run_end(watermark, above) ==> above.contains(o),
        run_end(watermark, above) < u64::MAX ==> !above.contains(run_end(watermark, above)),
    decreases u64::MAX - watermark,
{
    if watermark < u64::MAX && above.contains(watermark) {
        lemma_run_end((watermark + 1) as u64, above);
    }
}

/// Some of the leases holds `offset`.
pub open spec fn held(leases: Map<LeaseId, Lease>, offset: u64) -> bool {
    exists|id: LeaseId| #[trigger] leases.contains_key(id) && leases[id].offset == offset
}

/// What a consumer group has done with the messages of its topic.
#[verifier::ext_equal]
pub struct GroupView {
    /// Everything below is done.
    pub ack_watermark: u64,
    /// The offsets above the watermark that are done.
    pub acked_above: Set<u64>,
    /// The leases that are out.
    pub in_flight: Map<LeaseId, Lease>,
    /// How often the group has polled.
    pub poll_count: u64,
}

impl GroupView {
    /// A group that has not polled yet.
    pub open spec fn fresh() -> GroupView {
        GroupView {
            ack_watermark: 0,
            acked_above: Set::empty(),
            in_flight: Map::empty(),
            poll_count: 0,
        }
    }

    /// The group has finished with `offset`.
    pub open spec fn done(self, offset: u64) -> bool {
        offset < self.ack_watermark || self.acked_above.contains(offset)
    }

    /// Some lease of the group holds `offset`.
    pub open spec fn leased(self, offset: u64) -> bool {
        held(self.in_flight, offset)
    }

    /// What is done above the watermark is apart from it: the watermark is the lowest
    /// offset that is not done.
    pub open spec fn acks_apart(self) -> bool {
        forall|o: u64| #[trigger]
            self.acked_above.contains(o) ==> self.ack_watermark < o < u64::MAX
    }

    /// What is done above the watermark is apart from it, no lease holds what is
    /// done, and no two leases hold the same message.
    pub open spec fn tidy(self) -> bool {
        &&& self.acks_apart()
        &&& forall|id: LeaseId| #[trigger]
            self.in_flight.contains_key(id) ==> !self.done(self.in_flight[id].offset)
                && self.in_flight[id].offset < u64::MAX
        &&& forall|a: LeaseId, b: LeaseId|
            #![trigger self.in_flight.contains_key(a), self.in_flight.contains_key(b)]
            self.in_flight.contains_key(a) && self.in_flight.contains_key(b)
                && self.in_flight[a].offset == self.in_flight[b].offset ==> a == b
    }

    /// The group notes and leases only offsets from `first` up to `next`.
    pub open spec fn within(self, first: int, next: int) -> bool {
        &&& forall|o: u64| #[trigger] self.acked_above.contains(o) ==> first <= o < next
        &&& forall|id: LeaseId| #[trigger]
            self.in_flight.contains_key(id) ==> first <= self.in_flight[id].offset < next
    }

    /// The group as it stands over a log of the offsets from `first` up to `next`.
    pub open spec fn wf(self, first: int, next: int) -> bool {
        self.tidy() && self.within(first, next)
    }

    /// Every lease of the group is older than `next_lease`.
    pub open spec fn leases_below(self, next_lease: u64) -> bool {
        forall|id: LeaseId| #[trigger] self.in_flight.contains_key(id) ==> id < next_lease
    }

    /// `offset` becomes done; the watermark moves up over whatever is done.
    pub open spec fn mark_acked(self, offset: u64) -> GroupView {
        if offset < self.ack_watermark {
            self
        } else {
            let above = self.acked_above.insert(offset);
            let end = run_end(self.ack_watermark, above);
            GroupView {
                ack_watermark: end,
                acked_above: Set::new(|o: u64| above.contains(o) && end <= o),
                ..self
            }
        }
    }

    /// The leases whose deadline has come are given up.
    pub open spec fn expire(self, now_ms: u64) -> GroupView {
        GroupView {
            in_flight: Map::new(
                |id: LeaseId|
                    self.in_flight.contains_key(id) && self.in_flight[id].deadline_ms > now_ms,
                |id: LeaseId| self.in_flight[id],
            ),
            ..self
        }
    }

    /// The lease is given up.
    pub open spec fn nack(self, lease_id: LeaseId) -> GroupView {
        GroupView { in_flight: self.in_flight.remove(lease_id), ..self }
    }

    /// The lease is given up and its message is done.
    pub open spec fn ack(self, lease_id: LeaseId) -> GroupView {
        if self.in_flight.contains_key(lease_id) {
            self.nack(lease_id).mark_acked(self.in_flight[lease_id].offset)
        } else {
            self
        }
    }

    /// Everything below `offset` becomes done, and is no longer leased.
    pub open spec fn commit(self, offset: u64) -> GroupView {
        let watermark = if offset > self.ack_watermark {
            offset
        } else {
            self.ack_watermark
        };
        let above = Set::new(|o: u64| self.acked_above.contains(o) && watermark <= o);
        let end = run_end(watermark, above);
        GroupView {
            ack_watermark: end,
            acked_above: Set::new(|o: u64| above.contains(o) && end <= o),
            in_flight: Map::new(
                |id: LeaseId|
                    self.in_flight.contains_key(id) && watermark <= self.in_flight[id].offset,
                |id: LeaseId| self.in_flight[id],
            ),
            ..self
        }
    }

    /// Nothing below `first` is leased or noted as done above the watermark.
    pub open spec fn prune(self, first: int) -> GroupView {
        GroupView {
            acked_above: Set::new(|o: u64| self.acked_above.contains(o) && first <= o),
            in_flight: Map::new(
                |id: LeaseId|
                    self.in_flight.contains_key(id) && first <= self.in_flight[id].offset,
                |id: LeaseId| self.in_flight[id],
            ),
            ..self
        }
    }
}

/// A message that a group may be given: its priority and its offset.
#[derive(Debug, Clone, Copy, PartialEq, Eq)]
pub struct Candidate {
    pub priority: u8,
    pub offset: Offset,
}

/// The candidates of one priority, in the order in which they stand.
pub open spec fn of_priority(c: Seq<Candidate>, p: int) -> Seq<Candidate> {
    c.filter(|x: Candidate| x.priority as int == p)
}

/// The candidates of priority `p` and below, the highest priority first.
pub open spec fn by_rank_from(c: Seq<Candidate>, p: int) -> Seq<Candidate>
    decreases p + 1,
{
    if p < 0 {
        Seq::empty()
    } else {
        of_priority(c, p) + by_rank_from(c, p - 1)
    }
}

/// The candidates in the order of delivery: the highest priority first, and
/// among equals in the order in which they stand.
pub open spec fn by_rank(c: Seq<Candidate>) -> Seq<Candidate> {
    by_rank_from(c, 255)
}

/// How many of `max` slots are kept for the oldest messages: one in four, and in
/// every fourth poll one more.
pub open spec fn reserved_slots(max: nat, poll_count: nat) -> nat {
    let bonus: nat = if (poll_count + 1) % RESERVED_DEN as nat == 0 {
        1
    } else {
        0
    };
    let reserved = max / RESERVED_DEN as nat + bonus;
    if reserved < max {
        reserved
    } else {
        max
    }
}

pub open spec fn take_up_to(c: Seq<Candidate>, n: int) -> Seq<Candidate> {
    if n < c.len() {
        c.take(n)
    } else {
        c
    }
}

/// The candidates that get the slots that go by priority.
pub open spec fn head_of(c: Seq<Candidate>, max: nat, poll_count: nat) -> Seq<Candidate> {
    take_up_to(by_rank(c), max - reserved_slots(max, poll_count))
}

/// The candidates that get the slots that are left: the oldest ones not yet chosen.
pub open spec fn rest_of(c: Seq<Candidate>, head: Seq<Candidate>, max: nat) -> Seq<Candidate> {
    take_up_to(c.filter(|x: Candidate| !head.contains(x)), max - head.len())
}

/// The candidates that a poll chooses, in the order of delivery.
pub open spec fn choose_from(c: Seq<Candidate>, max: nat, poll_count: nat) -> Seq<Candidate> {
    let head = head_of(c, max, poll_count);
    let rest = rest_of(c, head, max);
    by_rank(c.filter(|x: Candidate| head.contains(x) || rest.contains(x)))
}

/// The messages of a log that a group is neither done with nor holds a lease on.
pub open spec fn candidates_in(log: Seq<MessageView>, g: GroupView) -> Seq<Candidate> {
    log.filter(|m: MessageView| !g.done(m.offset) && !g.leased(m.offset)).map_values(
        |m: MessageView| Candidate { priority: m.priority.0, offset: m.offset },
    )
}

/// A topic: its log, the producers it remembers, its groups and its settings.
#[verifier::ext_equal]
pub struct TopicView {
    pub created: bool,
    pub next_offset: u64,
    /// The messages that are retained, oldest first.
    pub log: Seq<MessageView>,
    /// The offset that was given to a producer's sequence number.
    pub dedup: Map<(Seq<char>, u64), u64>,
    /// The remembered sequence numbers, oldest first.
    pub dedup_order: Seq<(Seq<char>, u64)>,
    pub groups: Map<Seq<char>, GroupView>,
    pub rate_milli_per_sec: u64,
    pub burst: u32,
    pub retain_max_messages: u64,
    pub retain_max_age_ms: u64,
}

impl TopicView {
    /// A topic of which nothing is known.
    pub open spec fn fresh() -> TopicView {
        TopicView {
            created: false,
            next_offset: 0,
            log: Seq::empty(),
            dedup: Map::empty(),
            dedup_order: Seq::empty(),
            groups: Map::empty(),
            rate_milli_per_sec: 0,
            burst: 0,
            retain_max_messages: 0,
            retain_max_age_ms: 0,
        }
    }

    /// The offset of the oldest retained message.
    pub open spec fn first_offset(self) -> int {
        self.next_offset - self.log.len()
    }

    /// Every group is done with `offset`.
    pub open spec fn done_by_all(self, offset: u64) -> bool {
        forall|g: Seq<char>| #[trigger] self.groups.contains_key(g) ==> self.groups[g].done(offset)
    }

    /// How many messages at the front of the log every group has acked past.
    pub open spec fn consumed(self) -> nat {
        if self.groups.dom().len() == 0 {
            0
        } else {
            prefix_len(self.log, |m: MessageView| self.done_by_all(m.offset))
        }
    }

    /// The log is the run of offsets that ends at `next_offset`, every group is
    /// well-formed over it, and what is remembered of the producers agrees with the
    /// order in which it is forgotten.
    pub open spec fn sound(self) -> bool {
        &&& self.log.len() <= self.next_offset
        &&& forall|i: int|
            0 <= i < self.log.len() ==> (#[trigger] self.log[i]).offset == self.first_offset() + i
        &&& self.groups_wf()
        &&& self.groups.dom().finite()
        &&& self.dedup_wf()
    }

    /// The topic is sound and keeps nothing that was consumed.
    pub open spec fn wf(self) -> bool {
        self.sound() && self.consumed() == 0
    }

    pub open spec fn groups_wf(self) -> bool {
        forall|g: Seq<char>| #[trigger]
            self.groups.contains_key(g) ==> self.groups[g].wf(
                self.first_offset(),
                self.next_offset as int,
            )
    }

    pub open spec fn dedup_wf(self) -> bool {
        &&& self.dedup_order.no_duplicates()
        &&& self.dedup_order.to_set() == self.dedup.dom()
        &&& self.dedup_order.len() <= DEDUP_CAPACITY
        &&& forall|k: (Seq<char>, u64)| #[trigger]
            self.dedup.contains_key(k) ==> self.dedup[k] < self.next_offset
    }

    /// Every lease of every group is older than `next_lease`.
    pub open spec fn leases_below(self, next_lease: u64) -> bool {
        forall|g: Seq<char>| #[trigger]
            self.groups.contains_key(g) ==> self.groups[g].leases_below(next_lease)
    }

    /// The group of that name, or a fresh one.
    pub open spec fn group(self, name: Seq<char>) -> GroupView {
        if self.groups.contains_key(name) {
            self.groups[name]
        } else {
            GroupView::fresh()
        }
    }

    pub open spec fn with_group(self, name: Seq<char>, g: GroupView) -> TopicView {
        TopicView { groups: self.groups.insert(name, g), ..self }
    }

    /// How many leases are out, over all groups.
    pub open spec fn in_flight_count(self) -> nat {
        total(self.groups, |g: GroupView| g.in_flight.len())
    }

    /// The `n` oldest messages go, and with them what the groups noted of them.
    pub open spec fn drop_front(self, n: nat) -> TopicView {
        let log = self.log.skip(n as int);
        TopicView {
            log,
            groups: self.groups.map_values(|g: GroupView| g.prune(self.next_offset - log.len())),
            ..self
        }
    }

    /// The messages that every group has acked past go.
    pub open spec fn reclaim(self) -> TopicView {
        self.drop_front(self.consumed())
    }

    /// How many messages the topic may keep.
    pub open spec fn message_cap(self) -> Option<u64> {
        if self.retain_max_messages > 0 {
            Some(self.retain_max_messages)
        } else if self.retain_max_age_ms == 0 {
            Some(DEFAULT_RETAIN_MESSAGES)
        } else {
            None
        }
    }

    /// The message is older than the topic keeps messages.
    pub open spec fn too_old(self, m: MessageView, now_ms: u64) -> bool {
        self.retain_max_age_ms > 0 && now_ms - m.ts_ms > self.retain_max_age_ms
    }

    /// How many of the oldest messages retention takes away.
    pub open spec fn unretained(self, now_ms: u64) -> nat {
        let aged = prefix_len(self.log, |m: MessageView| self.too_old(m, now_ms));
        match self.message_cap() {
            Some(cap) => if self.log.len() > aged + cap {
                (self.log.len() - cap) as nat
            } else {
                aged
            },
            None => aged,
        }
    }

    /// Retention takes away the messages that are too old or too many.
    pub open spec fn purge_retained(self, now_ms: u64) -> TopicView {
        self.drop_front(self.unretained(now_ms))
    }

    /// The sequence number `key` is remembered with its offset; the oldest one is
    /// forgotten when there are too many.
    pub open spec fn remember(self, key: (Seq<char>, u64), offset: u64) -> TopicView {
        let order = self.dedup_order.push(key);
        let dedup = self.dedup.insert(key, offset);
        if order.len() > DEDUP_CAPACITY {
            TopicView { dedup: dedup.remove(order[0]), dedup_order: order.skip(1), ..self }
        } else {
            TopicView { dedup, dedup_order: order, ..self }
        }
    }

    /// The message is added to the log, whatever was produced before.
    pub open spec fn append(self, item: ProduceItemView) -> TopicView {
        TopicView {
            next_offset: (self.next_offset + 1) as u64,
            log: self.log.push(
                MessageView {
                    offset: self.next_offset,
                    priority: item.priority,
                    content_type: item.content_type,
                    payload: item.payload,
                    ts_ms: item.ts_ms,
                },
            ),
            ..self
        }
    }

    /// The producer has already sent this sequence number.
    pub open spec fn is_resend(self, item: ProduceItemView) -> bool {
        item.producer_id.len() > 0 && self.dedup.contains_key((item.producer_id, item.seq))
    }

    /// The offset counter has room for the item, or the item is a resend.
    pub open spec fn has_room(self, item: ProduceItemView) -> bool {
        self.is_resend(item) || self.next_offset < u64::MAX
    }

    /// What producing `item` makes of the topic, and the offset it answers with.
    pub open spec fn produce(self, item: ProduceItemView) -> (TopicView, u64) {
        let t = TopicView { created: true, ..self };
        if t.is_resend(item) {
            (t, t.dedup[(item.producer_id, item.seq)])
        } else {
            let appended = t.append(item);
            let noted = if item.producer_id.len() > 0 {
                appended.remember((item.producer_id, item.seq), t.next_offset)
            } else {
                appended
            };
            (noted.purge_retained(item.ts_ms).reclaim(), t.next_offset)
        }
    }

    /// The messages that may be given to a group, oldest first.
    pub open spec fn candidates(self, g: GroupView) -> Seq<Candidate> {
        candidates_in(self.log, g)
    }

    /// The messages that a poll at `ts_ms` chooses for the group, in the order of delivery.
    pub open spec fn polled(self, group: Seq<char>, max: u32, ts_ms: u64) -> Seq<Candidate> {
        let g = self.group(group).expire(ts_ms);
        choose_from(self.candidates(g), max as nat, g.poll_count as nat)
    }

    /// The delivery of a message under a lease.
    pub open spec fn delivery(self, offset: u64, lease_id: LeaseId) -> DeliveredView {
        let m = self.log[offset - self.first_offset()];
        DeliveredView {
            lease_id,
            offset,
            priority: m.priority,
            content_type: m.content_type,
            payload: m.payload,
            ts_ms: m.ts_ms,
        }
    }

    /// What a poll makes of the topic: the chosen messages are leased under the
    /// lease numbers from `next_lease` on.
    pub open spec fn poll(
        self,
        group: Seq<char>,
        max: u32,
        visibility_timeout_ms: u64,
        ts_ms: u64,
        next_lease: u64,
    ) -> TopicView {
        let g = self.group(group).expire(ts_ms);
        let chosen = self.polled(group, max, ts_ms);
        self.with_group(
            group,
            GroupView {
                in_flight: Map::new(
                    |id: LeaseId|
                        g.in_flight.contains_key(id) || next_lease <= id < next_lease
                            + chosen.len(),
                    |id: LeaseId|
                        if next_lease <= id < next_lease + chosen.len() {
                            Lease {
                                offset: chosen[id - next_lease].offset,
                                deadline_ms: (ts_ms + visibility_timeout_ms) as u64,
                            }
                        } else {
                            g.in_flight[id]
                        },
                ),
                poll_count: (g.poll_count + 1) as u64,
                ..g
            },
        )
    }

    /// The counters that a poll moves have room, and so has the deadline of a lease.
    pub open spec fn room_to_poll(
        self,
        group: Seq<char>,
        max: u32,
        visibility_timeout_ms: u64,
        ts_ms: u64,
        next_lease: u64,
    ) -> bool {
        &&& self.group(group).poll_count < u64::MAX
        &&& next_lease + self.polled(group, max, ts_ms).len() <= u64::MAX
        &&& self.polled(group, max, ts_ms).len() > 0 ==> ts_ms + visibility_timeout_ms <= u64::MAX
    }

    /// What a poll hands out.
    pub open spec fn poll_items(
        self,
        group: Seq<char>,
        max: u32,
        ts_ms: u64,
        next_lease: u64,
    ) -> Seq<DeliveredView> {
        let chosen = self.polled(group, max, ts_ms);
        Seq::new(
            chosen.len(),
            |i: int| self.delivery(chosen[i].offset, (next_lease + i) as u64),
        )
    }

    pub open spec fn ack(self, group: Seq<char>, lease_id: LeaseId) -> TopicView {
        if self.groups.contains_key(group) {
            self.with_group(group, self.groups[group].ack(lease_id)).reclaim()
        } else {
            self
        }
    }

    pub open spec fn nack(self, group: Seq<char>, lease_id: LeaseId) -> TopicView {
        if self.groups.contains_key(group) {
            self.with_group(group, self.groups[group].nack(lease_id))
        } else {
            self
        }
    }

    pub open spec fn commit(self, group: Seq<char>, offset: u64) -> TopicView {
        self.with_group(group, self.group(group).commit(offset)).reclaim()
    }
}

/// All topics, and the next lease number.
#[verifier::ext_equal]
pub struct QueueView {
    pub topics: Map<Seq<char>, TopicView>,
    pub next_lease_id: u64,
}

impl QueueView {
    pub open spec fn fresh() -> QueueView {
        QueueView { topics: Map::empty(), next_lease_id: 0 }
    }

    pub open spec fn wf(self) -> bool {
        &&& forall|t: Seq<char>| #[trigger]
            self.topics.contains_key(t) ==> self.topics[t].wf() && self.topics[t].leases_below(
                self.next_lease_id,
            )
        &&& self.topics.dom().finite()
    }

    /// Every topic is sound, whether or not it keeps what was consumed.
    pub open spec fn sound(self) -> bool {
        &&& forall|t: Seq<char>| #[trigger]
            self.topics.contains_key(t) ==> self.topics[t].sound() && self.topics[t].leases_below(
                self.next_lease_id,
            )
        &&& self.topics.dom().finite()
    }

    /// In every topic the messages go that every group has acked past.
    pub open spec fn reclaim(self) -> QueueView {
        QueueView { topics: self.topics.map_values(|t: TopicView| t.reclaim()), ..self }
    }

    /// The topic of that name, or a fresh one.
    pub open spec fn topic(self, name: Seq<char>) -> TopicView {
        if self.topics.contains_key(name) {
            self.topics[name]
        } else {
            TopicView::fresh()
        }
    }

    pub open spec fn with_topic(self, name: Seq<char>, t: TopicView) -> QueueView {
        QueueView { topics: self.topics.insert(name, t), ..self }
    }

    pub open spec fn produce(self, item: ProduceItemView) -> (QueueView, u64) {
        let (t, offset) = self.topic(item.topic).produce(item);
        (self.with_topic(item.topic, t), offset)
    }

    /// The items are produced one after the other.
    pub open spec fn produce_all(self, items: Seq<ProduceItemView>) -> (QueueView, Seq<u64>)
        decreases items.len(),
    {
        if items.len() == 0 {
            (self, Seq::empty())
        } else {
            let (before, offsets) = self.produce_all(items.drop_last());
            let (after, offset) = before.produce(items.last());
            (after, offsets.push(offset))
        }
    }

    pub open spec fn ack(self, topic: Seq<char>, group: Seq<char>, lease_id: LeaseId) -> QueueView {
        if self.topics.contains_key(topic) {
            self.with_topic(topic, self.topics[topic].ack(group, lease_id))
        } else {
            self
        }
    }

    /// The leases are acked one after the other.
    pub open spec fn ack_all(
        self,
        topic: Seq<char>,
        group: Seq<char>,
        lease_ids: Seq<LeaseId>,
    ) -> QueueView
        decreases lease_ids.len(),
    {
        if lease_ids.len() == 0 {
            self
        } else {
            self.ack_all(topic, group, lease_ids.drop_last()).ack(topic, group, lease_ids.last())
        }
    }

    pub open spec fn nack(
        self,
        topic: Seq<char>,
        group: Seq<char>,
        lease_id: LeaseId,
    ) -> QueueView {
        if self.topics.contains_key(topic) {
            self.with_topic(topic, self.topics[topic].nack(group, lease_id))
        } else {
            self
        }
    }

    /// The leases are nacked one after the other.
    pub open spec fn nack_all(
        self,
        topic: Seq<char>,
        group: Seq<char>,
        lease_ids: Seq<LeaseId>,
    ) -> QueueView
        decreases lease_ids.len(),
    {
        if lease_ids.len() == 0 {
            self
        } else {
            self.nack_all(topic, group, lease_ids.drop_last()).nack(
                topic,
                group,
                lease_ids.last(),
            )
        }
    }

    pub open spec fn commit(self, topic: Seq<char>, group: Seq<char>, offset: u64) -> QueueView {
        if self.topics.contains_key(topic) {
            self.with_topic(topic, self.topics[topic].commit(group, offset))
        } else {
            self
        }
    }

    pub open spec fn poll(
        self,
        topic: Seq<char>,
        group: Seq<char>,
        max: u32,
        visibility_timeout_ms: u64,
        ts_ms: u64,
    ) -> (QueueView, Seq<DeliveredView>) {
        if self.topics.contains_key(topic) {
            let t = self.topics[topic];
            let items = t.poll_items(group, max, ts_ms, self.next_lease_id);
            (
                QueueView {
                    topics: self.topics.insert(
                        topic,
                        t.poll(group, max, visibility_timeout_ms, ts_ms, self.next_lease_id),
                    ),
                    next_lease_id: (self.next_lease_id + items.len()) as u64,
                },
                items,
            )
        } else {
            (self, Seq::empty())
        }
    }

    /// What a command makes of the queue, and its answer: a function of the two.
    pub open spec fn step(self, req: AppRequest) -> (QueueView, AppResponseView) {
        match req {
            AppRequest::CreateTopic { topic } => (
                self.with_topic(
                    topic@,
                    TopicView { created: true, ..self.topic(topic@) },
                ),
                AppResponseView::TopicCreated,
            ),
            AppRequest::DeleteTopic { topic } => (
                QueueView { topics: self.topics.remove(topic@), ..self },
                AppResponseView::TopicDeleted,
            ),
            AppRequest::Produce {
                topic,
                priority,
                content_type,
                payload,
                producer_id,
                seq,
                ts_ms,
            } => {
                let (q, offset) = self.produce(
                    ProduceItemView {
                        topic: topic@,
                        priority,
                        content_type,
                        payload: payload@,
                        producer_id: producer_id@,
                        seq,
                        ts_ms,
                    },
                );
                (q, AppResponseView::Produced { offset })
            },
            AppRequest::ProduceMany { items } => {
                let (q, offsets) = self.produce_all(item_views(items@));
                (q, AppResponseView::ProducedMany { offsets })
            },
            AppRequest::Poll { topic, group, max, visibility_timeout_ms, ts_ms } => {
                let (q, items) = self.poll(topic@, group@, max, visibility_timeout_ms, ts_ms);
                (q, AppResponseView::Polled { items })
            },
            AppRequest::Ack { topic, group, lease_id } => (
                self.ack(topic@, group@, lease_id),
                AppResponseView::Acked,
            ),
            AppRequest::AckMany { topic, group, lease_ids } => (
                self.ack_all(topic@, group@, lease_ids@),
                AppResponseView::Acked,
            ),
            AppRequest::Nack { topic, group, lease_id } => (
                self.nack(topic@, group@, lease_id),
                AppResponseView::Nacked,
            ),
            AppRequest::NackMany { topic, group, lease_ids } => (
                self.nack_all(topic@, group@, lease_ids@),
                AppResponseView::Nacked,
            ),
            AppRequest::CommitOffset { topic, group, offset } => (
                self.commit(topic@, group@, offset),
                AppResponseView::Committed,
            ),
            AppRequest::SetRateLimit { topic, rate_milli_per_sec, burst } => (
                self.with_topic(
                    topic@,
                    TopicView { rate_milli_per_sec, burst, ..self.topic(topic@) },
                ),
                AppResponseView::RateLimitSet,
            ),
            AppRequest::SetRetention { topic, max_messages, max_age_ms } => (
                self.with_topic(
                    topic@,
                    TopicView {
                        retain_max_messages: max_messages,
                        retain_max_age_ms: max_age_ms,
                        ..self.topic(topic@)
                    },
                ),
                AppResponseView::RetentionSet,
            ),
        }
    }

    /// The offset counter of the topic has room for the item, if it needs any.
    pub open spec fn room_to_produce(self, item: ProduceItemView) -> bool {
        self.topic(item.topic).has_room(item)
    }

    /// The offset counters have room for the items, one after the other.
    pub open spec fn room_to_produce_all(self, items: Seq<ProduceItemView>) -> bool
        decreases items.len(),
    {
        items.len() == 0 || {
            &&& self.room_to_produce_all(items.drop_last())
            &&& self.produce_all(items.drop_last()).0.room_to_produce(items.last())
        }
    }

    /// The counters that a poll moves have room, and so has the deadline of a lease.
    pub open spec fn room_to_poll(
        self,
        topic: Seq<char>,
        group: Seq<char>,
        max: u32,
        visibility_timeout_ms: u64,
        ts_ms: u64,
    ) -> bool {
        self.topics.contains_key(topic) ==> self.topics[topic].room_to_poll(
            group,
            max,
            visibility_timeout_ms,
            ts_ms,
            self.next_lease_id,
        )
    }

    /// No counter that `req` moves runs over.
    pub open spec fn has_room(self, req: AppRequest) -> bool {
        match req {
            AppRequest::Produce {
                topic,
                priority,
                content_type,
                payload,
                producer_id,
                seq,
                ts_ms,
            } => self.room_to_produce(
                ProduceItemView {
                    topic: topic@,
                    priority,
                    content_type,
                    payload: payload@,
                    producer_id: producer_id@,
                    seq,
                    ts_ms,
                },
            ),
            AppRequest::ProduceMany { items } => self.room_to_produce_all(item_views(items@)),
            AppRequest::Poll { topic, group, max, visibility_timeout_ms, ts_ms } =>
                self.room_to_poll(topic@, group@, max, visibility_timeout_ms, ts_ms),
            _ => true,
        }
    }

    /// The rate at which the topic hands out messages, and its burst, if it is limited.
    pub open spec fn rate_config(self, topic: Seq<char>) -> Option<(u64, u32)> {
        if self.topics.contains_key(topic) && self.topics[topic].rate_milli_per_sec > 0 {
            Some((self.topics[topic].rate_milli_per_sec, self.topics[topic].burst))
        } else {
            None
        }
    }

    /// How many messages all topics retain.
    pub open spec fn message_count(self) -> nat {
        total(self.topics, |t: TopicView| t.log.len())
    }

    /// How many leases are out, over all groups of all topics.
    pub open spec fn in_flight_count(self) -> nat {
        total(self.topics, |t: TopicView| t.in_flight_count())
    }

    /// A poll at `now_ms` would find a message for the group.
    pub open spec fn has_deliverable(
        self,
        topic: Seq<char>,
        group: Seq<char>,
        now_ms: u64,
    ) -> bool {
        self.topics.contains_key(topic) && {
            let t = self.topics[topic];
            t.candidates(t.group(group).expire(now_ms)).len() > 0
        }
    }
}

} // verus!
