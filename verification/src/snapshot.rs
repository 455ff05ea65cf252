//! The queue as plain data, in which it is stored and sent.
use crate::model::{GroupView, Lease, QueueView, TopicView};
use crate::queue_lemmas::lemma_queue_reclaim;
use crate::topic::log_view;
use crate::types::{LeaseId, Message, Offset};
use vstd::prelude::*;

verus! {

/// A consumer group as plain data.
#[derive(Debug, Clone, PartialEq, Eq)]
pub struct GroupData {
    pub ack_watermark: Offset,
    pub acked_above: Vec<Offset>,
    pub in_flight: Vec<(LeaseId, Lease)>,
    pub poll_count: u64,
}

/// A sequence number of a producer, and the offset it was given.
#[derive(Debug, Clone, PartialEq, Eq)]
pub struct DedupData {
    pub producer_id: String,
    pub seq: u64,
    pub offset: Offset,
}

/// A topic as plain data. What is remembered of the producers stands oldest first.
#[derive(Debug, Clone, PartialEq, Eq)]
pub struct TopicData {
    pub created: bool,
    pub next_offset: Offset,
    pub log: Vec<Message>,
    pub dedup: Vec<DedupData>,
    pub groups: Vec<(String, GroupData)>,
    pub rate_milli_per_sec: u64,
    pub burst: u32,
    pub retain_max_messages: u64,
    pub retain_max_age_ms: u64,
}

/// A queue as plain data.
#[derive(Debug, Clone, PartialEq, Eq)]
pub struct QueueData {
    pub topics: Vec<(String, TopicData)>,
    pub next_lease_id: LeaseId,
}

/// No two leases have the same number.
pub open spec fn distinct_leases(list: Seq<(LeaseId, Lease)>) -> bool {
    forall|i: int, j: int|
        0 <= i < list.len() && 0 <= j < list.len() && (#[trigger] list[i]).0 == (
        #[trigger] list[j]).0 ==> i == j
}

/// The list holds the leases, each once.
pub open spec fn lists_leases(list: Seq<(LeaseId, Lease)>, leases: Map<LeaseId, Lease>) -> bool {
    &&& distinct_leases(list)
    &&& forall|i: int|
        0 <= i < list.len() ==> leases.contains_key((#[trigger] list[i]).0) && leases[list[i].0]
            == list[i].1
    &&& forall|id: LeaseId| #[trigger]
        leases.contains_key(id) ==> exists|i: int|
            0 <= i < list.len() && (#[trigger] list[i]).0 == id
}

impl GroupData {
    /// The data is that of the group.
    pub open spec fn describes(self, g: GroupView) -> bool {
        &&& self.ack_watermark == g.ack_watermark
        &&& self.poll_count == g.poll_count
        &&& forall|o: u64| #[trigger] self.acked_above@.contains(o) <==> g.acked_above.contains(o)
        &&& lists_leases(self.in_flight@, g.in_flight)
    }
}

/// The key of a remembered sequence number.
pub open spec fn dedup_key(d: DedupData) -> (Seq<char>, u64) {
    (d.producer_id@, d.seq)
}

/// The keys of a list.
pub open spec fn dedup_keys(list: Seq<DedupData>) -> Seq<(Seq<char>, u64)> {
    Seq::new(list.len(), |i: int| dedup_key(list[i]))
}

/// The list holds what is remembered of the producers, each sequence number once.
pub open spec fn lists_dedup(list: Seq<DedupData>, dedup: Map<(Seq<char>, u64), u64>) -> bool {
    &&& dedup_keys(list).no_duplicates()
    &&& forall|i: int|
        0 <= i < list.len() ==> dedup.contains_key(dedup_key(#[trigger] list[i]))
            && dedup[dedup_key(list[i])] == list[i].offset
    &&& forall|k: (Seq<char>, u64)| #[trigger]
        dedup.contains_key(k) ==> exists|i: int|
            0 <= i < list.len() && dedup_key(#[trigger] list[i]) == k
}

/// No two groups have the same name.
pub open spec fn distinct_groups(list: Seq<(String, GroupData)>) -> bool {
    forall|i: int, j: int|
        0 <= i < list.len() && 0 <= j < list.len() && (#[trigger] list[i]).0@ == (
        #[trigger] list[j]).0@ ==> i == j
}

/// The list holds the groups, each once.
pub open spec fn lists_groups(
    list: Seq<(String, GroupData)>,
    groups: Map<Seq<char>, GroupView>,
) -> bool {
    &&& distinct_groups(list)
    &&& forall|i: int|
        0 <= i < list.len() ==> groups.contains_key((#[trigger] list[i]).0@)
            && list[i].1.describes(groups[list[i].0@])
    &&& forall|n: Seq<char>| #[trigger]
        groups.contains_key(n) ==> exists|i: int|
            0 <= i < list.len() && (#[trigger] list[i]).0@ == n
}

impl TopicData {
    /// The data is that of the topic.
    pub open spec fn describes(self, t: TopicView) -> bool {
        &&& self.created == t.created
        &&& self.next_offset == t.next_offset
        &&& log_view(self.log@) == t.log
        &&& dedup_keys(self.dedup@) == t.dedup_order
        &&& lists_dedup(self.dedup@, t.dedup)
        &&& lists_groups(self.groups@, t.groups)
        &&& self.rate_milli_per_sec == t.rate_milli_per_sec
        &&& self.burst == t.burst
        &&& self.retain_max_messages == t.retain_max_messages
        &&& self.retain_max_age_ms == t.retain_max_age_ms
    }
}

/// No two topics have the same name.
pub open spec fn distinct_topics(list: Seq<(String, TopicData)>) -> bool {
    forall|i: int, j: int|
        0 <= i < list.len() && 0 <= j < list.len() && (#[trigger] list[i]).0@ == (
        #[trigger] list[j]).0@ ==> i == j
}

/// The list holds the topics, each once.
pub open spec fn lists_topics(
    list: Seq<(String, TopicData)>,
    topics: Map<Seq<char>, TopicView>,
) -> bool {
    &&& distinct_topics(list)
    &&& forall|i: int|
        0 <= i < list.len() ==> topics.contains_key((#[trigger] list[i]).0@)
            && list[i].1.describes(topics[list[i].0@])
    &&& forall|n: Seq<char>| #[trigger]
        topics.contains_key(n) ==> exists|i: int|
            0 <= i < list.len() && (#[trigger] list[i]).0@ == n
}

impl QueueData {
    /// The data is that of the queue.
    pub open spec fn describes(self, q: QueueView) -> bool {
        &&& lists_topics(self.topics@, q.topics)
        &&& self.next_lease_id == q.next_lease_id
    }
}

/// The data of a group is that of one group only.
pub proof fn lemma_one_group(d: GroupData, a: GroupView, b: GroupView)
    requires
        d.describes(a),
        d.describes(b),
    ensures
        a == b,
{
    let list = d.in_flight@;
    assert forall|o: u64| a.acked_above.contains(o) <==> b.acked_above.contains(o) by {
        assert(d.acked_above@.contains(o) <==> a.acked_above.contains(o));
    }
    assert(a.acked_above =~= b.acked_above);
    assert forall|id: LeaseId| a.in_flight.contains_key(id) <==> b.in_flight.contains_key(id) by {
        if a.in_flight.contains_key(id) {
            let i = choose|i: int| 0 <= i < list.len() && (#[trigger] list[i]).0 == id;
            assert(b.in_flight.contains_key(list[i].0));
        }
        if b.in_flight.contains_key(id) {
            let i = choose|i: int| 0 <= i < list.len() && (#[trigger] list[i]).0 == id;
            assert(a.in_flight.contains_key(list[i].0));
        }
    }
    assert forall|id: LeaseId| a.in_flight.contains_key(id) implies a.in_flight[id]
        == b.in_flight[id] by {
        let i = choose|i: int| 0 <= i < list.len() && (#[trigger] list[i]).0 == id;
        assert(a.in_flight[list[i].0] == b.in_flight[list[i].0]);
    }
    assert(a.in_flight =~= b.in_flight);
}

/// A list holds what is remembered in one way only.
pub proof fn lemma_one_dedup(
    list: Seq<DedupData>,
    a: Map<(Seq<char>, u64), u64>,
    b: Map<(Seq<char>, u64), u64>,
)
    requires
        lists_dedup(list, a),
        lists_dedup(list, b),
    ensures
        a == b,
{
    assert forall|k: (Seq<char>, u64)| a.contains_key(k) <==> b.contains_key(k) by {
        if a.contains_key(k) {
            let i = choose|i: int| 0 <= i < list.len() && dedup_key(#[trigger] list[i]) == k;
            assert(b.contains_key(dedup_key(list[i])));
        }
        if b.contains_key(k) {
            let i = choose|i: int| 0 <= i < list.len() && dedup_key(#[trigger] list[i]) == k;
            assert(a.contains_key(dedup_key(list[i])));
        }
    }
    assert forall|k: (Seq<char>, u64)| a.contains_key(k) implies a[k] == b[k] by {
        let i = choose|i: int| 0 <= i < list.len() && dedup_key(#[trigger] list[i]) == k;
        assert(a[dedup_key(list[i])] == b[dedup_key(list[i])]);
    }
    assert(a =~= b);
}

/// The data of a topic is that of one topic only.
pub proof fn lemma_one_topic(d: TopicData, a: TopicView, b: TopicView)
    requires
        d.describes(a),
        d.describes(b),
    ensures
        a == b,
{
    let groups = d.groups@;
    lemma_one_dedup(d.dedup@, a.dedup, b.dedup);
    assert forall|n: Seq<char>| a.groups.contains_key(n) <==> b.groups.contains_key(n) by {
        if a.groups.contains_key(n) {
            let i = choose|i: int| 0 <= i < groups.len() && (#[trigger] groups[i]).0@ == n;
            assert(b.groups.contains_key(groups[i].0@));
        }
        if b.groups.contains_key(n) {
            let i = choose|i: int| 0 <= i < groups.len() && (#[trigger] groups[i]).0@ == n;
            assert(a.groups.contains_key(groups[i].0@));
        }
    }
    assert forall|n: Seq<char>| a.groups.contains_key(n) implies a.groups[n] == b.groups[n] by {
        let i = choose|i: int| 0 <= i < groups.len() && (#[trigger] groups[i]).0@ == n;
        assert(groups[i].1.describes(a.groups[n]) && groups[i].1.describes(b.groups[n]));
        lemma_one_group(groups[i].1, a.groups[n], b.groups[n]);
    }
    assert(a.groups =~= b.groups);
}

/// The data of a queue is that of one queue only: a queue that is restored from the
/// data of another is equal to it.
pub proof fn data_determines_the_queue(d: QueueData, a: QueueView, b: QueueView)
    requires
        d.describes(a),
        d.describes(b),
    ensures
        a == b,
{
    let topics = d.topics@;
    assert forall|n: Seq<char>| a.topics.contains_key(n) <==> b.topics.contains_key(n) by {
        if a.topics.contains_key(n) {
            let i = choose|i: int| 0 <= i < topics.len() && (#[trigger] topics[i]).0@ == n;
            assert(b.topics.contains_key(topics[i].0@));
        }
        if b.topics.contains_key(n) {
            let i = choose|i: int| 0 <= i < topics.len() && (#[trigger] topics[i]).0@ == n;
            assert(a.topics.contains_key(topics[i].0@));
        }
    }
    assert forall|n: Seq<char>| a.topics.contains_key(n) implies a.topics[n] == b.topics[n] by {
        let i = choose|i: int| 0 <= i < topics.len() && (#[trigger] topics[i]).0@ == n;
        assert(topics[i].1.describes(a.topics[n]) && topics[i].1.describes(b.topics[n]));
        lemma_one_topic(topics[i].1, a.topics[n], b.topics[n]);
    }
    assert(a.topics =~= b.topics);
}

/// What the data is restored to: a sound queue, less what every group has acked past;
/// nothing where the data is that of no sound queue.
pub open spec fn restores_to(d: QueueData, r: Option<QueueView>) -> bool {
    match r {
        Some(v) => exists|q: QueueView| #[trigger] d.describes(q) && q.sound() && v == q.reclaim(),
        None => forall|q: QueueView| #[trigger] d.describes(q) ==> !q.sound(),
    }
}

/// A sound queue that is stored can be restored. It comes back without what every group
/// has acked past; a well-formed queue, which keeps nothing of that, comes back as it was.
pub proof fn snapshots_round_trip(d: QueueData, q: QueueView, r: Option<QueueView>)
    requires
        q.sound(),
        d.describes(q),
        restores_to(d, r),
    ensures
        r == Some(q.reclaim()),
        q.wf() ==> r == Some(q),
{
    if r is Some {
        let other = choose|other: QueueView| #[trigger]
            d.describes(other) && other.sound() && r->Some_0 == other.reclaim();
        data_determines_the_queue(d, q, other);
    }
    lemma_queue_reclaim(q);
}

} // verus!
