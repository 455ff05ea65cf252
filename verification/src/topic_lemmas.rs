//! What the steps of a topic keep.
use crate::command::ProduceItemView;
use crate::group::{lemma_commit_tidy, lemma_mark_acked_tidy, lemma_prune_tidy};
use crate::model::{lemma_prefix_len, Candidate, GroupView, TopicView, DEDUP_CAPACITY};
use crate::select::{in_delivery_order, lemma_choose_from, oldest_first};
use crate::seqs::{lemma_filter, lemma_filter_ordered};
use crate::types::{LeaseId, MessageView};
use vstd::prelude::*;

verus! {

/// Nothing that is kept was consumed if and only if some group still wants the
/// oldest message, or there is no message, or no group.
pub proof fn lemma_unconsumed(t: TopicView)
    ensures
        t.consumed() == 0 <==> t.log.len() == 0 || t.groups.dom().len() == 0 || !t.done_by_all(
            t.log[0].offset,
        ),
{
}

/// Settings do not matter to the log and the groups.
pub proof fn lemma_settings(t: TopicView, r: TopicView)
    requires
        t.wf(),
        r.next_offset == t.next_offset,
        r.log == t.log,
        r.dedup == t.dedup,
        r.dedup_order == t.dedup_order,
        r.groups == t.groups,
    ensures
        r.wf(),
        forall|next: u64|
            #![trigger t.leases_below(next)]
            t.leases_below(next) ==> r.leases_below(next),
{
    lemma_unconsumed(t);
    lemma_unconsumed(r);
    assert(forall|o: u64| t.done_by_all(o) == r.done_by_all(o));
}

/// A group over a log of the offsets from `first` on has nothing to forget below it.
pub proof fn lemma_prune_nothing(g: GroupView, first: int, next: int)
    requires
        g.within(first, next),
    ensures
        g.prune(first) == g,
{
    assert(g.prune(first) =~= g);
}

/// Dropping nothing changes nothing.
pub proof fn lemma_drop_nothing(t: TopicView)
    requires
        t.sound(),
    ensures
        t.drop_front(0) == t,
{
    assert(t.log.skip(0) =~= t.log);
    let r = t.drop_front(0);
    assert forall|g: Seq<char>| #[trigger] t.groups.contains_key(g) implies r.groups[g]
        == t.groups[g] by {
        lemma_prune_nothing(t.groups[g], t.first_offset(), t.next_offset as int);
    }
    assert(r.groups =~= t.groups);
}

/// Dropping the oldest messages keeps the topic sound.
pub proof fn lemma_drop_front(t: TopicView, n: nat)
    requires
        t.sound(),
        n <= t.log.len(),
    ensures
        t.drop_front(n).sound(),
        t.drop_front(n).groups.dom() == t.groups.dom(),
        t.drop_front(n).first_offset() == t.first_offset() + n,
        forall|o: u64|
            t.first_offset() + n <= o ==> (#[trigger] t.drop_front(n).done_by_all(o)
                <==> t.done_by_all(o)),
{
    let r = t.drop_front(n);
    assert(r.groups.dom() =~= t.groups.dom());
    assert forall|g: Seq<char>| #[trigger] r.groups.contains_key(g) implies r.groups[g].wf(
        r.first_offset(),
        r.next_offset as int,
    ) by {
        assert(t.groups.contains_key(g));
        lemma_prune_tidy(t.groups[g], r.first_offset());
        let (a, b) = (t.groups[g], r.groups[g]);
        assert forall|id: LeaseId| #[trigger] b.in_flight.contains_key(id) implies r.first_offset()
            <= b.in_flight[id].offset < r.next_offset by {
            assert(a.in_flight.contains_key(id));
        }
    }
    assert forall|o: u64| t.first_offset() + n <= o implies (#[trigger] r.done_by_all(o)
        <==> t.done_by_all(o)) by {
        assert forall|g: Seq<char>| #[trigger] t.groups.contains_key(g) implies (
        r.groups[g].done(o) <==> t.groups[g].done(o)) by {
            lemma_prune_tidy(t.groups[g], r.first_offset());
        }
        if r.done_by_all(o) {
            assert forall|g: Seq<char>| #[trigger] t.groups.contains_key(g) implies t.groups[g].done(
                o,
            ) by {
                assert(r.groups.contains_key(g));
            }
        }
        if t.done_by_all(o) {
            assert forall|g: Seq<char>| #[trigger] r.groups.contains_key(g) implies r.groups[g].done(
                o,
            ) by {
                assert(t.groups.contains_key(g));
            }
        }
    }
}

/// Dropping messages hands out no leases.
pub proof fn lemma_drop_keeps_leases(t: TopicView, n: nat, next_lease: u64)
    requires
        t.leases_below(next_lease),
    ensures
        t.drop_front(n).leases_below(next_lease),
{
    let r = t.drop_front(n);
    assert forall|g: Seq<char>| #[trigger] r.groups.contains_key(g) implies r.groups[g].leases_below(
        next_lease,
    ) by {
        assert(t.groups.contains_key(g));
        assert(t.groups[g].leases_below(next_lease));
    }
}

/// Reclaiming leaves a topic that keeps nothing that was consumed.
pub proof fn lemma_reclaim(t: TopicView)
    requires
        t.sound(),
    ensures
        t.reclaim().wf(),
        t.reclaim().groups.dom() == t.groups.dom(),
        t.consumed() <= t.log.len(),
{
    let p = |m: MessageView| t.done_by_all(m.offset);
    lemma_prefix_len(t.log, p);
    let n = t.consumed();
    lemma_drop_front(t, n);
    let r = t.reclaim();
    if r.log.len() > 0 && r.groups.dom().len() > 0 {
        assert(r.log[0] == t.log[n as int]);
        assert(!p(t.log[n as int]));
    }
    lemma_unconsumed(r);
}

/// Retention never takes away more than there is.
pub proof fn lemma_unretained(t: TopicView, now_ms: u64)
    ensures
        t.unretained(now_ms) <= t.log.len(),
        t.message_cap() matches Some(cap) ==> t.log.len() - t.unretained(now_ms) <= cap,
{
    lemma_prefix_len(t.log, |m: MessageView| t.too_old(m, now_ms));
}

/// A new message keeps the topic sound.
pub proof fn lemma_append(t: TopicView, item: ProduceItemView)
    requires
        t.sound(),
        t.next_offset < u64::MAX,
    ensures
        t.append(item).sound(),
{
    let r = t.append(item);
    assert forall|g: Seq<char>| #[trigger] r.groups.contains_key(g) implies r.groups[g].wf(
        r.first_offset(),
        r.next_offset as int,
    ) by {
        assert(t.groups.contains_key(g));
    }
}

/// Remembering a new sequence number keeps the topic sound.
pub proof fn lemma_remember(t: TopicView, key: (Seq<char>, u64), offset: u64)
    requires
        t.sound(),
        !t.dedup.contains_key(key),
        offset < t.next_offset,
    ensures
        t.remember(key, offset).sound(),
        t.remember(key, offset).dedup.contains_key(key),
        t.remember(key, offset).dedup[key] == offset,
{
    let r = t.remember(key, offset);
    let order = t.dedup_order.push(key);
    assert(!t.dedup_order.contains(key)) by {
        assert(t.dedup_order.to_set().contains(key) <==> t.dedup_order.contains(key));
    }
    assert(order.no_duplicates());
    assert(order.to_set() =~= t.dedup_order.to_set().insert(key)) by {
        assert forall|k: (Seq<char>, u64)| t.dedup_order.contains(k) implies order.contains(k) by {
            let i = choose|i: int| 0 <= i < t.dedup_order.len() && t.dedup_order[i] == k;
            assert(order[i] == k);
        }
        assert(order[t.dedup_order.len() as int] == key);
    }
    if order.len() > DEDUP_CAPACITY {
        let rest = order.skip(1);
        assert(rest.no_duplicates());
        assert(rest.to_set() =~= order.to_set().remove(order[0])) by {
            assert forall|k: (Seq<char>, u64)| order.contains(k) && k != order[0] implies rest.contains(
                k,
            ) by {
                let i = choose|i: int| 0 <= i < order.len() && order[i] == k;
                assert(rest[i - 1] == k);
            }
            assert forall|k: (Seq<char>, u64)| rest.contains(k) implies order.contains(k) && k
                != order[0] by {
                let i = choose|i: int| 0 <= i < rest.len() && rest[i] == k;
                assert(order[i + 1] == k);
            }
        }
        assert(r.dedup.dom() =~= r.dedup_order.to_set());
        assert(t.dedup_order.contains(t.dedup_order[0]));
        assert(order[0] == t.dedup_order[0]);
    } else {
        assert(r.dedup.dom() =~= r.dedup_order.to_set());
    }
}

/// Producing keeps the topic well-formed.
pub proof fn lemma_produce(t: TopicView, item: ProduceItemView)
    requires
        t.wf(),
        t.has_room(item),
    ensures
        t.produce(item).0.wf(),
        t.produce(item).0.next_offset <= t.next_offset + 1,
        t.produce(item).0.groups.dom() == t.groups.dom(),
        forall|next_lease: u64|
            #![trigger t.leases_below(next_lease)]
            t.leases_below(next_lease) ==> t.produce(item).0.leases_below(next_lease),
{
    let c = TopicView { created: true, ..t };
    lemma_unconsumed(t);
    lemma_unconsumed(c);
    assert(forall|o: u64| t.done_by_all(o) == c.done_by_all(o));
    assert(c.wf());
    if !c.is_resend(item) {
        let appended = c.append(item);
        lemma_append(c, item);
        let noted = if item.producer_id.len() > 0 {
            lemma_remember(appended, (item.producer_id, item.seq), c.next_offset);
            appended.remember((item.producer_id, item.seq), c.next_offset)
        } else {
            appended
        };
        assert(noted.sound());
        lemma_unretained(noted, item.ts_ms);
        lemma_drop_front(noted, noted.unretained(item.ts_ms));
        lemma_reclaim(noted.purge_retained(item.ts_ms));
    }
}

/// A topic one of whose groups has changed, with nothing more done, is well-formed.
pub proof fn lemma_with_group(t: TopicView, name: Seq<char>, g: GroupView)
    requires
        t.sound(),
        g.wf(t.first_offset(), t.next_offset as int),
    ensures
        t.with_group(name, g).sound(),
        t.wf() && (forall|o: u64| #[trigger] g.done(o) ==> t.group(name).done(o)) ==> t.with_group(
            name,
            g,
        ).wf(),
{
    let r = t.with_group(name, g);
    assert forall|n: Seq<char>| #[trigger] r.groups.contains_key(n) implies r.groups[n].wf(
        r.first_offset(),
        r.next_offset as int,
    ) by {
        if n != name {
            assert(t.groups.contains_key(n));
        }
    }
    if t.wf() && (forall|o: u64| #[trigger] g.done(o) ==> t.group(name).done(o)) {
        lemma_unconsumed(t);
        lemma_unconsumed(r);
        if t.log.len() > 0 {
            let o = t.log[0].offset;
            if r.done_by_all(o) {
                assert(r.groups.contains_key(name));
                assert(g.done(o));
                assert(t.group(name).done(o));
                assert(t.groups.contains_key(name));
                assert forall|n: Seq<char>| #[trigger] t.groups.contains_key(n) implies t.groups[n].done(
                    o,
                ) by {
                    assert(r.groups.contains_key(n));
                }
                assert(t.groups.dom().contains(name));
                assert(t.groups.dom().len() > 0);
            }
        }
    }
}

/// Acking keeps the topic well-formed.
pub proof fn lemma_ack(t: TopicView, group: Seq<char>, lease_id: LeaseId)
    requires
        t.wf(),
    ensures
        t.ack(group, lease_id).wf(),
        forall|next: u64|
            #![trigger t.leases_below(next)]
            t.leases_below(next) ==> t.ack(group, lease_id).leases_below(next),
        t.groups.contains_key(group) ==> t.with_group(
            group,
            t.groups[group].ack(lease_id),
        ).sound(),
{
    if t.groups.contains_key(group) {
        let g = t.groups[group];
        lemma_group_ack(g, lease_id, t.first_offset(), t.next_offset as int);
        lemma_with_group(t, group, g.ack(lease_id));
        lemma_reclaim(t.with_group(group, g.ack(lease_id)));
        assert forall|next: u64| #![trigger t.leases_below(next)] t.leases_below(
            next,
        ) implies t.with_group(group, g.ack(lease_id)).leases_below(next) by {
            assert(g.leases_below(next));
            assert(g.ack(lease_id).leases_below(next));
            assert forall|n: Seq<char>| #[trigger]
                t.with_group(group, g.ack(lease_id)).groups.contains_key(n) implies t.with_group(
                group,
                g.ack(lease_id),
            ).groups[n].leases_below(next) by {
                if n != group {
                    assert(t.groups.contains_key(n));
                }
            }
            lemma_drop_keeps_leases(
                t.with_group(group, g.ack(lease_id)),
                t.with_group(group, g.ack(lease_id)).consumed(),
                next,
            );
        }
    }
}

/// Acking a lease keeps the group well-formed, and its message is done.
pub proof fn lemma_group_ack(g: GroupView, lease_id: LeaseId, first: int, next: int)
    requires
        g.wf(first, next),
        next <= u64::MAX,
    ensures
        g.ack(lease_id).wf(first, next),
        forall|o: u64| #[trigger] g.done(o) ==> g.ack(lease_id).done(o),
        g.in_flight.contains_key(lease_id) ==> g.ack(lease_id).done(
            g.in_flight[lease_id].offset,
        ),
        g.ack(lease_id).in_flight == g.in_flight.remove(lease_id),
{
    if g.in_flight.contains_key(lease_id) {
        let r = g.nack(lease_id);
        let offset = g.in_flight[lease_id].offset;
        lemma_group_nack(g, lease_id, first, next);
        assert(!r.leased(offset)) by {
            if r.leased(offset) {
                let id = choose|id: LeaseId| #[trigger]
                    r.in_flight.contains_key(id) && r.in_flight[id].offset == offset;
                assert(g.in_flight.contains_key(id));
            }
        }
        lemma_mark_acked_tidy(r, offset);
        assert forall|o: u64| #[trigger] g.done(o) implies g.ack(lease_id).done(o) by {
            assert(r.done(o));
        }
        assert forall|o: u64| #[trigger] g.ack(lease_id).acked_above.contains(o) implies first <= o
            < next by {}
    } else {
        assert(g.in_flight.remove(lease_id) =~= g.in_flight);
    }
}

/// Giving up a lease keeps the group well-formed.
pub proof fn lemma_group_nack(g: GroupView, lease_id: LeaseId, first: int, next: int)
    requires
        g.wf(first, next),
    ensures
        g.nack(lease_id).wf(first, next),
{
    let r = g.nack(lease_id);
    assert forall|id: LeaseId| #[trigger] r.in_flight.contains_key(id) implies !r.done(
        r.in_flight[id].offset,
    ) && r.in_flight[id].offset < u64::MAX && first <= r.in_flight[id].offset < next by {
        assert(g.in_flight.contains_key(id));
    }
    assert forall|a: LeaseId, b: LeaseId|
        #![trigger r.in_flight.contains_key(a), r.in_flight.contains_key(b)]
        r.in_flight.contains_key(a) && r.in_flight.contains_key(b) && r.in_flight[a].offset
            == r.in_flight[b].offset implies a == b by {
        assert(g.in_flight.contains_key(a) && g.in_flight.contains_key(b));
    }
}

/// Nacking keeps the topic well-formed.
pub proof fn lemma_nack(t: TopicView, group: Seq<char>, lease_id: LeaseId)
    requires
        t.wf(),
    ensures
        t.nack(group, lease_id).wf(),
        forall|next: u64|
            #![trigger t.leases_below(next)]
            t.leases_below(next) ==> t.nack(group, lease_id).leases_below(next),
{
    if t.groups.contains_key(group) {
        let g = t.groups[group];
        lemma_group_nack(g, lease_id, t.first_offset(), t.next_offset as int);
        assert forall|o: u64| #[trigger] g.nack(lease_id).done(o) implies t.group(group).done(
            o,
        ) by {}
        lemma_with_group(t, group, g.nack(lease_id));
        assert forall|next: u64| #![trigger t.leases_below(next)] t.leases_below(
            next,
        ) implies t.nack(group, lease_id).leases_below(next) by {
            assert(g.leases_below(next));
            assert forall|n: Seq<char>| #[trigger]
                t.nack(group, lease_id).groups.contains_key(n) implies t.nack(
                group,
                lease_id,
            ).groups[n].leases_below(next) by {
                if n != group {
                    assert(t.groups.contains_key(n));
                }
            }
        }
    }
}

/// A fresh group is well-formed over any log.
pub proof fn lemma_fresh_group(first: int, next: int)
    ensures
        GroupView::fresh().wf(first, next),
{
}

/// The group of a name, whether it exists yet or not, is well-formed.
pub proof fn lemma_group_of(t: TopicView, name: Seq<char>)
    requires
        t.sound(),
    ensures
        t.group(name).wf(t.first_offset(), t.next_offset as int),
{
    lemma_fresh_group(t.first_offset(), t.next_offset as int);
}

/// Committing an offset keeps the topic well-formed.
pub proof fn lemma_commit(t: TopicView, group: Seq<char>, offset: u64)
    requires
        t.wf(),
    ensures
        t.commit(group, offset).wf(),
        forall|next: u64|
            #![trigger t.leases_below(next)]
            t.leases_below(next) ==> t.commit(group, offset).leases_below(next),
        t.with_group(group, t.group(group).commit(offset)).sound(),
{
    lemma_group_of(t, group);
    let g = t.group(group);
    lemma_commit_tidy(g, offset);
    let r = g.commit(offset);
    assert forall|id: LeaseId| #[trigger] r.in_flight.contains_key(id) implies t.first_offset()
        <= r.in_flight[id].offset < t.next_offset by {
        assert(g.in_flight.contains_key(id));
    }
    lemma_with_group(t, group, r);
    lemma_reclaim(t.with_group(group, r));
    assert forall|next: u64| #![trigger t.leases_below(next)] t.leases_below(next) implies t.commit(
        group,
        offset,
    ).leases_below(next) by {
        let u = t.with_group(group, r);
        assert(g.leases_below(next));
        assert(r.leases_below(next));
        assert forall|n: Seq<char>| #[trigger] u.groups.contains_key(n) implies u.groups[n].leases_below(
            next,
        ) by {
            if n != group {
                assert(t.groups.contains_key(n));
            }
        }
        lemma_drop_keeps_leases(u, u.consumed(), next);
    }
}

/// Giving up what is due keeps the group well-formed.
pub proof fn lemma_expire(g: GroupView, now_ms: u64, first: int, next: int)
    requires
        g.wf(first, next),
    ensures
        g.expire(now_ms).wf(first, next),
        forall|o: u64| #[trigger] g.expire(now_ms).done(o) == g.done(o),
{
    let r = g.expire(now_ms);
    assert forall|id: LeaseId| #[trigger] r.in_flight.contains_key(id) implies !r.done(
        r.in_flight[id].offset,
    ) && r.in_flight[id].offset < u64::MAX && first <= r.in_flight[id].offset < next by {
        assert(g.in_flight.contains_key(id));
    }
    assert forall|a: LeaseId, b: LeaseId|
        #![trigger r.in_flight.contains_key(a), r.in_flight.contains_key(b)]
        r.in_flight.contains_key(a) && r.in_flight.contains_key(b) && r.in_flight[a].offset
            == r.in_flight[b].offset implies a == b by {
        assert(g.in_flight.contains_key(a) && g.in_flight.contains_key(b));
    }
}

/// The candidates of a group are the messages of the log that it is neither done
/// with nor holds a lease on, oldest first.
pub proof fn lemma_candidates(t: TopicView, g: GroupView)
    requires
        t.sound(),
    ensures
        oldest_first(t.candidates(g)),
        forall|i: int|
            0 <= i < t.candidates(g).len() ==> {
                let c = #[trigger] t.candidates(g)[i];
                &&& t.first_offset() <= c.offset < t.next_offset
                &&& !g.done(c.offset)
                &&& !g.leased(c.offset)
                &&& c.priority == t.log[c.offset - t.first_offset()].priority.0
            },
        forall|i: int|
            0 <= i < t.log.len() && !g.done((#[trigger] t.log[i]).offset) && !g.leased(
                t.log[i].offset,
            ) ==> t.candidates(g).contains(
                Candidate { priority: t.log[i].priority.0, offset: t.log[i].offset },
            ),
        t.candidates(g).len() <= t.log.len(),
{
    let p = |m: MessageView| !g.done(m.offset) && !g.leased(m.offset);
    let f = |m: MessageView| Candidate { priority: m.priority.0, offset: m.offset };
    let kept = t.log.filter(p);
    let c = t.candidates(g);
    lemma_filter(t.log, p);
    lemma_filter_ordered(t.log, p, |a: MessageView, b: MessageView| a.offset < b.offset);
    assert(c == kept.map_values(f));
    assert forall|i: int, j: int| 0 <= i < j < c.len() implies (#[trigger] c[i]).offset < (
    #[trigger] c[j]).offset by {
        assert(c[i] == f(kept[i]) && c[j] == f(kept[j]));
    }
    assert forall|i: int| 0 <= i < c.len() implies {
        let x = #[trigger] c[i];
        &&& t.first_offset() <= x.offset < t.next_offset
        &&& !g.done(x.offset)
        &&& !g.leased(x.offset)
        &&& x.priority == t.log[x.offset - t.first_offset()].priority.0
    } by {
        assert(c[i] == f(kept[i]));
        assert(kept.contains(kept[i]));
        let k = choose|k: int| 0 <= k < t.log.len() && t.log[k] == kept[i];
        assert(t.log[k].offset == t.first_offset() + k);
    }
    assert forall|i: int|
        0 <= i < t.log.len() && !g.done((#[trigger] t.log[i]).offset) && !g.leased(
            t.log[i].offset,
        ) implies c.contains(
        Candidate { priority: t.log[i].priority.0, offset: t.log[i].offset },
    ) by {
        assert(t.log.contains(t.log[i]));
        assert(kept.contains(t.log[i]));
        let k = choose|k: int| 0 <= k < kept.len() && kept[k] == t.log[i];
        assert(c[k] == f(kept[k]));
    }
}

/// What a poll chooses are distinct messages of the log that the group is neither
/// done with nor holds a live lease on.
pub proof fn lemma_polled(t: TopicView, group: Seq<char>, max: u32, ts_ms: u64)
    requires
        t.sound(),
    ensures
        ({
            let g = t.group(group).expire(ts_ms);
            let c = t.candidates(g);
            let chosen = t.polled(group, max, ts_ms);
            &&& oldest_first(c)
            &&& in_delivery_order(chosen)
            &&& chosen.len() == if c.len() < max {
                c.len() as int
            } else {
                max as int
            }
            &&& forall|i: int|
                0 <= i < chosen.len() ==> {
                    let x = #[trigger] chosen[i];
                    &&& t.first_offset() <= x.offset < t.next_offset
                    &&& !g.done(x.offset)
                    &&& !g.leased(x.offset)
                    &&& x.priority == t.log[x.offset - t.first_offset()].priority.0
                }
            &&& forall|i: int, j: int|
                0 <= i < chosen.len() && 0 <= j < chosen.len() && i != j ==> (
                #[trigger] chosen[i]).offset != (#[trigger] chosen[j]).offset
        }),
{
    let g = t.group(group).expire(ts_ms);
    let c = t.candidates(g);
    let chosen = t.polled(group, max, ts_ms);
    lemma_candidates(t, g);
    lemma_choose_from(c, max as nat, g.poll_count as nat);
    assert forall|i: int| 0 <= i < chosen.len() implies {
        let x = #[trigger] chosen[i];
        &&& t.first_offset() <= x.offset < t.next_offset
        &&& !g.done(x.offset)
        &&& !g.leased(x.offset)
        &&& x.priority == t.log[x.offset - t.first_offset()].priority.0
    } by {
        assert(chosen.contains(chosen[i]));
        let k = choose|k: int| 0 <= k < c.len() && c[k] == chosen[i];
        assert(c[k] == chosen[i]);
    }
    assert forall|i: int, j: int|
        0 <= i < chosen.len() && 0 <= j < chosen.len() && i != j implies (#[trigger] chosen[i]).offset
        != (#[trigger] chosen[j]).offset by {
        let (a, b) = if i < j {
            (i, j)
        } else {
            (j, i)
        };
        if chosen[a].offset == chosen[b].offset {
            assert(chosen[a].priority == chosen[b].priority);
            assert(crate::select::outranks(chosen[a], chosen[b]));
        }
    }
}

/// Polling keeps the topic well-formed, and its leases below the next number.
pub proof fn lemma_poll(
    t: TopicView,
    group: Seq<char>,
    max: u32,
    visibility_timeout_ms: u64,
    ts_ms: u64,
    next_lease: u64,
)
    requires
        t.wf(),
        t.leases_below(next_lease),
        next_lease + t.polled(group, max, ts_ms).len() <= u64::MAX,
    ensures
        t.poll(group, max, visibility_timeout_ms, ts_ms, next_lease).wf(),
        t.poll(group, max, visibility_timeout_ms, ts_ms, next_lease).leases_below(
            (next_lease + t.polled(group, max, ts_ms).len()) as u64,
        ),
        t.polled(group, max, ts_ms).len() <= max,
{
    let (first, next) = (t.first_offset(), t.next_offset as int);
    lemma_group_of(t, group);
    lemma_expire(t.group(group), ts_ms, first, next);
    lemma_polled(t, group, max, ts_ms);
    let g = t.group(group).expire(ts_ms);
    let chosen = t.polled(group, max, ts_ms);
    let r = t.poll(group, max, visibility_timeout_ms, ts_ms, next_lease);
    let h = r.groups[group];
    assert(h == r.group(group));
    assert(g.leases_below(next_lease)) by {
        assert forall|id: LeaseId| #[trigger] g.in_flight.contains_key(id) implies id
            < next_lease by {
            assert(t.group(group).in_flight.contains_key(id));
        }
    }
    assert forall|id: LeaseId| #[trigger] h.in_flight.contains_key(id) implies !h.done(
        h.in_flight[id].offset,
    ) && h.in_flight[id].offset < u64::MAX && first <= h.in_flight[id].offset < next by {
        if next_lease <= id < next_lease + chosen.len() {
            let x = chosen[id - next_lease];
            assert(!g.done(x.offset));
        } else {
            assert(g.in_flight.contains_key(id));
        }
    }
    assert forall|a: LeaseId, b: LeaseId|
        #![trigger h.in_flight.contains_key(a), h.in_flight.contains_key(b)]
        h.in_flight.contains_key(a) && h.in_flight.contains_key(b) && h.in_flight[a].offset
            == h.in_flight[b].offset implies a == b by {
        let fresh_a = next_lease <= a < next_lease + chosen.len();
        let fresh_b = next_lease <= b < next_lease + chosen.len();
        if fresh_a && fresh_b {
            assert(chosen[a - next_lease].offset == chosen[b - next_lease].offset);
        } else if fresh_a {
            assert(g.in_flight.contains_key(b));
            assert(g.leased(chosen[a - next_lease].offset));
        } else if fresh_b {
            assert(g.in_flight.contains_key(a));
            assert(g.leased(chosen[b - next_lease].offset));
        } else {
            assert(g.in_flight.contains_key(a) && g.in_flight.contains_key(b));
        }
    }
    assert(h.wf(first, next));
    assert forall|o: u64| #[trigger] h.done(o) implies t.group(group).done(o) by {
        assert(g.done(o));
    }
    lemma_with_group(t, group, h);
    assert forall|n: Seq<char>| #[trigger] r.groups.contains_key(n) implies r.groups[n].leases_below(
        (next_lease + chosen.len()) as u64,
    ) by {
        if n == group {
            assert forall|id: LeaseId| #[trigger] h.in_flight.contains_key(id) implies id < (
            next_lease + chosen.len()) as u64 by {
                if !(next_lease <= id < next_lease + chosen.len()) {
                    assert(g.in_flight.contains_key(id));
                }
            }
        } else {
            assert(t.groups.contains_key(n));
            assert(t.groups[n].leases_below(next_lease));
        }
    }
}

} // verus!
