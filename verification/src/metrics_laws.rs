//! What the figures of the queue count.
use crate::model::{GroupView, QueueView, TopicView};
use crate::queue_lemmas::lemma_topic_of;
use crate::totals::{capped, lemma_total_remove, total};
use vstd::prelude::*;

verus! {

/// A total changes by what changes under one name.
proof fn lemma_total_insert<V>(m: Map<Seq<char>, V>, f: spec_fn(V) -> nat, k: Seq<char>, v: V)
    requires
        m.dom().finite(),
    ensures
        total(m.insert(k, v), f) + (if m.contains_key(k) {
            f(m[k])
        } else {
            0
        }) == total(m, f) + f(v),
{
    let r = m.insert(k, v);
    lemma_total_remove(r, f, k);
    if m.contains_key(k) {
        lemma_total_remove(m, f, k);
        assert(r.remove(k) =~= m.remove(k));
    } else {
        assert(r.remove(k) =~= m);
    }
}

/// The messages of a queue are those of all its topics: an empty queue has none, and when a
/// topic changes, the figure changes by as many messages as the topic has more or fewer.
pub proof fn messages_are_counted_topic_by_topic(q: QueueView, name: Seq<char>, t: TopicView)
    requires
        q.wf(),
    ensures
        QueueView::fresh().message_count() == 0,
        q.with_topic(name, t).message_count() + q.topic(name).log.len() == q.message_count()
            + t.log.len(),
{
    lemma_total_insert(q.topics, |x: TopicView| x.log.len(), name, t);
}

/// The leases of a queue are those of all groups of all its topics: an empty queue has none,
/// and when one group changes, the figure changes by as many leases as the group has more or
/// fewer.
pub proof fn leases_are_counted_group_by_group(
    q: QueueView,
    topic: Seq<char>,
    group: Seq<char>,
    g: GroupView,
)
    requires
        q.wf(),
    ensures
        QueueView::fresh().in_flight_count() == 0,
        q.with_topic(topic, q.topic(topic).with_group(group, g)).in_flight_count() + q.topic(
            topic,
        ).group(group).in_flight.len() == q.in_flight_count() + g.in_flight.len(),
{
    let t = q.topic(topic);
    let u = t.with_group(group, g);
    lemma_topic_of(q, topic);
    lemma_total_insert(t.groups, |x: GroupView| x.in_flight.len(), group, g);
    lemma_total_insert(q.topics, |x: TopicView| x.in_flight_count(), topic, u);
    if !q.topics.contains_key(topic) {
        assert(t.in_flight_count() == 0);
    }
}

/// A figure is exact as long as it fits, and the largest one that fits where it does not.
pub proof fn a_figure_is_exact_while_it_fits(n: nat)
    ensures
        n <= u64::MAX ==> capped(n) == n,
        n > u64::MAX ==> capped(n) == u64::MAX,
{
}

} // verus!
