//! What the queue promises its consumers over any history of commands.
use crate::command::{item_views, AppRequest, AppResponseView, ProduceItemView};
use crate::delivery_laws::{
    candidates_are_deliverable, deliverable, delivers, poll_delivers_only_deliverable,
    reserved_slot_serves_the_oldest,
};
use crate::group::{lemma_commit_tidy, lemma_prune_tidy};
use crate::group_laws::stale_nack_changes_nothing;
use crate::history_laws::{every_history_keeps_wf, item_of, keeps_topic, room_for, run};
use crate::lifecycle_laws::{
    acked_is_settled, committed_is_settled, deletes, lease_numbers_are_never_reused, settled,
    settled_is_never_delivered, settled_stays_settled, stale_ack_changes_nothing,
};
use crate::model::{reserved_slots, Candidate, GroupView, Lease, QueueView, TopicView, RESERVED_DEN};
use crate::queue_lemmas::{
    lemma_queue_ack_all, lemma_queue_produce_all, lemma_topic_of, step_keeps_wf,
};
use crate::topic_lemmas::{
    lemma_append, lemma_commit, lemma_drop_front, lemma_group_ack, lemma_group_of, lemma_reclaim,
    lemma_remember, lemma_settings, lemma_unretained, lemma_with_group,
};
use crate::types::LeaseId;
use vstd::prelude::*;

verus! {

/// The command is a poll of the group on the topic.
pub open spec fn polls(req: AppRequest, topic: Seq<char>, group: Seq<char>) -> bool {
    req matches AppRequest::Poll { topic: t, group: g, .. } && t@ == topic && g@ == group
}

/// How many of the commands are polls of the group on the topic.
pub open spec fn polls_in(reqs: Seq<AppRequest>, topic: Seq<char>, group: Seq<char>) -> nat
    decreases reqs.len(),
{
    if reqs.len() == 0 {
        0
    } else {
        polls_in(reqs.drop_last(), topic, group) + if polls(reqs.last(), topic, group) {
            1nat
        } else {
            0nat
        }
    }
}

proof fn lemma_produce_all_polls(
    q: QueueView,
    items: Seq<ProduceItemView>,
    topic: Seq<char>,
    group: Seq<char>,
)
    ensures
        q.produce_all(items).0.topic(topic).group(group).poll_count == q.topic(topic).group(
            group,
        ).poll_count,
        q.topics.contains_key(topic) ==> q.produce_all(items).0.topics.contains_key(topic),
    decreases items.len(),
{
    if items.len() > 0 {
        lemma_produce_all_polls(q, items.drop_last(), topic, group);
        lemma_produce_polls(q.produce_all(items.drop_last()).0, items.last(), topic, group);
    }
}

proof fn lemma_produce_polls(
    q: QueueView,
    item: ProduceItemView,
    topic: Seq<char>,
    group: Seq<char>,
)
    ensures
        q.produce(item).0.topic(topic).group(group).poll_count == q.topic(topic).group(
            group,
        ).poll_count,
{
    if item.topic == topic {
        let t = q.topic(topic);
        let r = t.produce(item).0;
        assert(r == q.produce(item).0.topic(topic));
        assert(r.groups.contains_key(group) == t.groups.contains_key(group));
    }
}

proof fn lemma_ack_all_polls(
    q: QueueView,
    topic: Seq<char>,
    group: Seq<char>,
    lease_ids: Seq<LeaseId>,
    name: Seq<char>,
    other: Seq<char>,
)
    ensures
        q.ack_all(topic, group, lease_ids).topic(name).group(other).poll_count == q.topic(
            name,
        ).group(other).poll_count,
        q.ack_all(topic, group, lease_ids).topics.contains_key(name) == q.topics.contains_key(name),
    decreases lease_ids.len(),
{
    if lease_ids.len() > 0 {
        lemma_ack_all_polls(q, topic, group, lease_ids.drop_last(), name, other);
        lemma_ack_polls(
            q.ack_all(topic, group, lease_ids.drop_last()),
            topic,
            group,
            lease_ids.last(),
            name,
            other,
        );
    }
}

proof fn lemma_ack_polls(
    q: QueueView,
    topic: Seq<char>,
    group: Seq<char>,
    lease_id: LeaseId,
    name: Seq<char>,
    other: Seq<char>,
)
    ensures
        q.ack(topic, group, lease_id).topic(name).group(other).poll_count == q.topic(name).group(
            other,
        ).poll_count,
{
    let (t, r) = (q.topic(name), q.ack(topic, group, lease_id).topic(name));
    if name == topic && q.topics.contains_key(topic) {
        assert(r == t.ack(group, lease_id));
        assert(r.groups.contains_key(other) == t.groups.contains_key(other));
    }
}

proof fn lemma_nack_all_polls(
    q: QueueView,
    topic: Seq<char>,
    group: Seq<char>,
    lease_ids: Seq<LeaseId>,
    name: Seq<char>,
    other: Seq<char>,
)
    ensures
        q.nack_all(topic, group, lease_ids).topic(name).group(other).poll_count == q.topic(
            name,
        ).group(other).poll_count,
        q.nack_all(topic, group, lease_ids).topics.contains_key(name) == q.topics.contains_key(
            name,
        ),
    decreases lease_ids.len(),
{
    if lease_ids.len() > 0 {
        lemma_nack_all_polls(q, topic, group, lease_ids.drop_last(), name, other);
    }
}

/// A command moves the poll counter of a group by one where it is a poll of the group, and
/// leaves it otherwise.
proof fn lemma_step_polls(q: QueueView, req: AppRequest, topic: Seq<char>, group: Seq<char>)
    requires
        q.wf(),
        q.has_room(req),
        !deletes(req, topic),
        q.topics.contains_key(topic),
    ensures
        q.step(req).0.topics.contains_key(topic),
        q.step(req).0.topic(topic).group(group).poll_count == q.topic(topic).group(
            group,
        ).poll_count + if polls(req, topic, group) {
            1int
        } else {
            0int
        },
{
    match req {
        AppRequest::Produce { .. } => {
            lemma_produce_polls(q, item_of(req), topic, group);
        },
        AppRequest::ProduceMany { items } => {
            lemma_produce_all_polls(q, item_views(items@), topic, group);
        },
        AppRequest::Ack { topic: t, group: g, lease_id } => {
            lemma_ack_polls(q, t@, g@, lease_id, topic, group);
        },
        AppRequest::AckMany { topic: t, group: g, lease_ids } => {
            lemma_ack_all_polls(q, t@, g@, lease_ids@, topic, group);
        },
        AppRequest::NackMany { topic: t, group: g, lease_ids } => {
            lemma_nack_all_polls(q, t@, g@, lease_ids@, topic, group);
        },
        AppRequest::CommitOffset { topic: t, group: g, offset } => {
            if t@ == topic {
                let (a, r) = (q.topic(topic), q.step(req).0.topic(topic));
                assert(r == a.commit(g@, offset));
                assert(r.groups.contains_key(group) == (a.groups.contains_key(group) || group
                    == g@));
            }
        },
        _ => {},
    }
}

/// Through any history the poll counter of a group counts its polls on a topic that exists
/// and is not deleted.
pub proof fn polls_are_counted(
    q: QueueView,
    reqs: Seq<AppRequest>,
    topic: Seq<char>,
    group: Seq<char>,
)
    requires
        q.wf(),
        room_for(q, reqs),
        keeps_topic(reqs, topic),
        q.topics.contains_key(topic),
    ensures
        run(q, reqs).topics.contains_key(topic),
        run(q, reqs).topic(topic).group(group).poll_count == q.topic(topic).group(
            group,
        ).poll_count + polls_in(reqs, topic, group),
    decreases reqs.len(),
{
    if reqs.len() > 0 {
        let front = reqs.drop_last();
        assert(reqs.last() == reqs[reqs.len() - 1]);
        lemma_front_keeps(reqs, topic);
        polls_are_counted(q, front, topic, group);
        every_history_keeps_wf(q, front);
        lemma_step_polls(run(q, front), reqs.last(), topic, group);
    }
}

proof fn lemma_front_keeps(reqs: Seq<AppRequest>, topic: Seq<char>)
    requires
        keeps_topic(reqs, topic),
        reqs.len() > 0,
    ensures
        keeps_topic(reqs.drop_last(), topic),
{
    let front = reqs.drop_last();
    assert forall|i: int| 0 <= i < front.len() implies !deletes(#[trigger] front[i], topic) by {
        assert(front[i] == reqs[i]);
    }
}

/// Room for a history is room for its beginning, and then for the next command.
pub proof fn lemma_room_for_part(q: QueueView, reqs: Seq<AppRequest>, n: int)
    requires
        room_for(q, reqs),
        0 <= n <= reqs.len(),
    ensures
        room_for(q, reqs.take(n)),
        n < reqs.len() ==> run(q, reqs.take(n)).has_room(reqs[n]) && run(q, reqs.take(n + 1))
            == run(q, reqs.take(n)).step(reqs[n]).0,
    decreases reqs.len() - n,
{
    if n == reqs.len() {
        assert(reqs.take(n) =~= reqs);
    } else {
        lemma_room_for_part(q, reqs, n + 1);
        assert(reqs.take(n + 1).drop_last() =~= reqs.take(n));
        assert(reqs.take(n + 1).last() == reqs[n]);
    }
}

/// `offset` is the oldest message that the group may be given.
pub open spec fn oldest_deliverable(
    t: TopicView,
    group: Seq<char>,
    offset: u64,
    now_ms: u64,
) -> bool {
    &&& deliverable(t, group, offset, now_ms)
    &&& forall|o: u64| #[trigger] deliverable(t, group, o, now_ms) ==> offset <= o
}

/// A poll of the group hands out the oldest message, if there is any.
pub open spec fn serves_the_oldest(
    t: TopicView,
    group: Seq<char>,
    max: u32,
    ts_ms: u64,
) -> bool {
    forall|o: u64| #[trigger]
        oldest_deliverable(t, group, o, ts_ms) ==> delivers(t, group, max, ts_ms, o)
}

/// The poll that a group makes when it has polled three times since the last such poll
/// serves the oldest message, whatever its priority; a poll for four messages or more
/// always does.
pub proof fn every_fourth_poll_serves_the_oldest(
    t: TopicView,
    group: Seq<char>,
    max: u32,
    ts_ms: u64,
)
    requires
        t.wf(),
        max > 0,
        t.group(group).poll_count % 4 == 3 || max >= 4,
    ensures
        serves_the_oldest(t, group, max, ts_ms),
{
    let g = t.group(group).expire(ts_ms);
    let c = t.candidates(g);
    let chosen = t.polled(group, max, ts_ms);
    candidates_are_deliverable(t, group, ts_ms);
    assert forall|o: u64| #[trigger] oldest_deliverable(t, group, o, ts_ms) implies delivers(
        t,
        group,
        max,
        ts_ms,
        o,
    ) by {
        let x = Candidate { priority: t.log[o - t.first_offset()].priority.0, offset: o };
        assert(deliverable(t, group, o, ts_ms));
        assert(c.contains(x));
        let i = choose|i: int| 0 <= i < c.len() && c[i] == x;
        if i > 0 {
            assert(c[0].offset < c[i].offset);
            assert(deliverable(t, group, c[0].offset, ts_ms));
        }
        assert(c[0] == x);
        assert(RESERVED_DEN == 4);
        assert(reserved_slots(max as nat, g.poll_count as nat) > 0);
        reserved_slot_serves_the_oldest(c, max as nat, g.poll_count as nat);
        let j = choose|j: int| 0 <= j < chosen.len() && chosen[j] == x;
        assert(chosen[j].offset == o);
    }
}

/// The poll at position `i` of the history serves the oldest message of that moment.
pub open spec fn poll_serves_the_oldest(q: QueueView, reqs: Seq<AppRequest>, i: int) -> bool {
    reqs[i] matches AppRequest::Poll { topic, group, max, ts_ms, .. } ==> serves_the_oldest(
        run(q, reqs.take(i)).topic(topic@),
        group@,
        max,
        ts_ms,
    )
}

/// Of any four polls that a group makes one after the other, whatever is produced, acked
/// or nacked between them, one serves the oldest message of its moment. So no message is
/// overtaken by higher priorities for ever.
pub proof fn one_of_four_polls_serves_the_oldest(
    q: QueueView,
    reqs: Seq<AppRequest>,
    topic: Seq<char>,
    group: Seq<char>,
    at: Seq<int>,
)
    requires
        q.wf(),
        room_for(q, reqs),
        keeps_topic(reqs, topic),
        q.topics.contains_key(topic),
        at.len() == 4,
        forall|j: int|
            0 <= j < 4 ==> {
                &&& 0 <= #[trigger] at[j] < reqs.len()
                &&& polls(reqs[at[j]], topic, group)
                &&& (reqs[at[j]] matches AppRequest::Poll { max, .. } && max > 0)
                &&& polls_in(reqs.take(at[j]), topic, group) == polls_in(
                    reqs.take(at[0]),
                    topic,
                    group,
                ) + j
            },
    ensures
        exists|j: int| 0 <= j < 4 && poll_serves_the_oldest(q, reqs, #[trigger] at[j]),
{
    assert(0 <= at[0] < reqs.len());
    let count = q.topic(topic).group(group).poll_count + polls_in(
        reqs.take(at[0]),
        topic,
        group,
    );
    let j: int = 3 - count % 4;
    assert(0 <= j < 4);
    let i = at[j];
    let part = reqs.take(i);
    assert(polls(reqs[at[j]], topic, group));
    lemma_room_for_part(q, reqs, i);
    assert(keeps_topic(part, topic)) by {
        assert forall|k: int| 0 <= k < part.len() implies !deletes(#[trigger] part[k], topic) by {
            assert(part[k] == reqs[k]);
        }
    }
    polls_are_counted(q, part, topic, group);
    every_history_keeps_wf(q, part);
    let now = run(q, part);
    lemma_topic_of(now, topic);
    match reqs[i] {
        AppRequest::Poll { topic: t, group: g, max, visibility_timeout_ms, ts_ms } => {
            assert(now.topic(topic).group(group).poll_count == count + j);
            every_fourth_poll_serves_the_oldest(now.topic(topic), group, max, ts_ms);
        },
        _ => {},
    }
    assert(poll_serves_the_oldest(q, reqs, at[j]));
}

/// What the command at position `i` of the history hands out.
pub open spec fn handed_out_at(q: QueueView, reqs: Seq<AppRequest>, i: int) -> Seq<LeaseId> {
    match run(q, reqs.take(i)).step(reqs[i]).1 {
        AppResponseView::Polled { items } => Seq::new(items.len(), |k: int| items[k].lease_id),
        _ => Seq::empty(),
    }
}

proof fn lemma_lease_numbers_ascend(q: QueueView, reqs: Seq<AppRequest>, i: int, j: int)
    requires
        q.wf(),
        room_for(q, reqs),
        0 <= i <= j <= reqs.len(),
    ensures
        run(q, reqs.take(i)).next_lease_id <= run(q, reqs.take(j)).next_lease_id,
    decreases j - i,
{
    if i < j {
        lemma_lease_numbers_ascend(q, reqs, i, j - 1);
        lemma_room_for_part(q, reqs, j - 1);
        every_history_keeps_wf(q, reqs.take(j - 1));
        lease_numbers_are_never_reused(run(q, reqs.take(j - 1)), reqs[j - 1]);
    }
}

/// Through any history no lease number is handed out twice, in any topic and to any group:
/// those of a later poll are larger than those of an earlier one, and those of one poll
/// ascend.
pub proof fn no_lease_number_is_handed_out_twice(
    q: QueueView,
    reqs: Seq<AppRequest>,
    i: int,
    j: int,
    a: int,
    b: int,
)
    requires
        q.wf(),
        room_for(q, reqs),
        0 <= i <= j < reqs.len(),
        0 <= a < handed_out_at(q, reqs, i).len(),
        0 <= b < handed_out_at(q, reqs, j).len(),
        i < j || a < b,
    ensures
        handed_out_at(q, reqs, i)[a] < handed_out_at(q, reqs, j)[b],
{
    lemma_room_for_part(q, reqs, i);
    lemma_room_for_part(q, reqs, j);
    every_history_keeps_wf(q, reqs.take(i));
    every_history_keeps_wf(q, reqs.take(j));
    lease_numbers_are_never_reused(run(q, reqs.take(i)), reqs[i]);
    lease_numbers_are_never_reused(run(q, reqs.take(j)), reqs[j]);
    if i < j {
        lemma_lease_numbers_ascend(q, reqs, i + 1, j);
    }
}

/// The group holds the lease under that number.
pub open spec fn holds(t: TopicView, group: Seq<char>, id: LeaseId, lease: Lease) -> bool {
    &&& t.groups.contains_key(group)
    &&& t.groups[group].in_flight.contains_key(id)
    &&& t.groups[group].in_flight[id] == lease
}

/// The group holds the lease, or its message will not be given to the group any more.
pub open spec fn held_or_settled(t: TopicView, group: Seq<char>, id: LeaseId, lease: Lease) -> bool {
    holds(t, group, id, lease) || settled(t, group, lease.offset)
}

/// Dropping the oldest messages takes a lease away only with its message.
proof fn lemma_drop_held(t: TopicView, n: nat, group: Seq<char>, id: LeaseId, lease: Lease)
    requires
        t.sound(),
        n <= t.log.len(),
        held_or_settled(t, group, id, lease),
    ensures
        held_or_settled(t.drop_front(n), group, id, lease),
{
    let r = t.drop_front(n);
    lemma_drop_front(t, n);
    lemma_group_of(t, group);
    lemma_prune_tidy(t.group(group), r.first_offset());
    if r.first_offset() <= lease.offset {
        if holds(t, group, id, lease) {
            assert(r.groups[group] == t.groups[group].prune(r.first_offset()));
        } else if t.groups.contains_key(group) {
            assert(r.group(group) == t.group(group).prune(r.first_offset()));
        }
    }
}

proof fn lemma_produce_held(
    t: TopicView,
    item: ProduceItemView,
    group: Seq<char>,
    id: LeaseId,
    lease: Lease,
)
    requires
        t.wf(),
        t.has_room(item),
        held_or_settled(t, group, id, lease),
    ensures
        held_or_settled(t.produce(item).0, group, id, lease),
{
    let c = TopicView { created: true, ..t };
    lemma_settings(t, c);
    if !c.is_resend(item) {
        let appended = c.append(item);
        lemma_append(c, item);
        let noted = if item.producer_id.len() > 0 {
            lemma_remember(appended, (item.producer_id, item.seq), c.next_offset);
            appended.remember((item.producer_id, item.seq), c.next_offset)
        } else {
            appended
        };
        assert(held_or_settled(noted, group, id, lease)) by {
            assert(noted.first_offset() == t.first_offset());
            assert(noted.groups == t.groups);
        }
        lemma_unretained(noted, item.ts_ms);
        let purged = noted.purge_retained(item.ts_ms);
        lemma_drop_front(noted, noted.unretained(item.ts_ms));
        lemma_drop_held(noted, noted.unretained(item.ts_ms), group, id, lease);
        lemma_reclaim(purged);
        lemma_drop_held(purged, purged.consumed(), group, id, lease);
    }
}

proof fn lemma_produce_all_held(
    q: QueueView,
    items: Seq<ProduceItemView>,
    topic: Seq<char>,
    group: Seq<char>,
    id: LeaseId,
    lease: Lease,
)
    requires
        q.wf(),
        q.room_to_produce_all(items),
        held_or_settled(q.topic(topic), group, id, lease),
    ensures
        held_or_settled(q.produce_all(items).0.topic(topic), group, id, lease),
    decreases items.len(),
{
    if items.len() > 0 {
        let front = items.drop_last();
        lemma_produce_all_held(q, front, topic, group, id, lease);
        lemma_queue_produce_all(q, front);
        let before = q.produce_all(front).0;
        if items.last().topic == topic {
            lemma_topic_of(before, topic);
            lemma_produce_held(before.topic(topic), items.last(), group, id, lease);
        }
    }
}

proof fn lemma_ack_held(
    t: TopicView,
    by: Seq<char>,
    lease_id: LeaseId,
    group: Seq<char>,
    id: LeaseId,
    lease: Lease,
)
    requires
        t.wf(),
        holds(t, group, id, lease),
    ensures
        held_or_settled(t.ack(by, lease_id), group, id, lease),
{
    if by == group && lease_id == id {
        acked_is_settled(t, group, id);
    } else if t.groups.contains_key(by) {
        let g = t.groups[by];
        lemma_group_ack(g, lease_id, t.first_offset(), t.next_offset as int);
        let u = t.with_group(by, g.ack(lease_id));
        lemma_with_group(t, by, g.ack(lease_id));
        assert(holds(u, group, id, lease));
        lemma_reclaim(u);
        lemma_drop_held(u, u.consumed(), group, id, lease);
    }
}

proof fn lemma_ack_all_held(
    q: QueueView,
    name: Seq<char>,
    by: Seq<char>,
    lease_ids: Seq<LeaseId>,
    topic: Seq<char>,
    group: Seq<char>,
    id: LeaseId,
    lease: Lease,
)
    requires
        q.wf(),
        held_or_settled(q.topic(topic), group, id, lease),
    ensures
        held_or_settled(q.ack_all(name, by, lease_ids).topic(topic), group, id, lease),
    decreases lease_ids.len(),
{
    if lease_ids.len() > 0 {
        let front = lease_ids.drop_last();
        lemma_ack_all_held(q, name, by, front, topic, group, id, lease);
        lemma_queue_ack_all(q, name, by, front);
        let before = q.ack_all(name, by, front);
        let t = before.topic(topic);
        if name == topic && before.topics.contains_key(topic) {
            if holds(t, group, id, lease) {
                lemma_ack_held(t, by, lease_ids.last(), group, id, lease);
            } else {
                lemma_ack_keeps_settled(t, by, lease_ids.last(), group, lease.offset);
            }
        }
    }
}

proof fn lemma_ack_keeps_settled(
    t: TopicView,
    by: Seq<char>,
    lease_id: LeaseId,
    group: Seq<char>,
    offset: u64,
)
    requires
        t.wf(),
        settled(t, group, offset),
    ensures
        settled(t.ack(by, lease_id), group, offset),
{
    if t.groups.contains_key(by) {
        let g = t.groups[by];
        lemma_group_ack(g, lease_id, t.first_offset(), t.next_offset as int);
        let u = t.with_group(by, g.ack(lease_id));
        lemma_with_group(t, by, g.ack(lease_id));
        lemma_reclaim(u);
        let r = u.reclaim();
        lemma_drop_front(u, u.consumed());
        if r.first_offset() <= offset {
            assert(u.group(group).done(offset));
            lemma_group_of(u, group);
            lemma_prune_tidy(u.group(group), r.first_offset());
        }
    }
}

proof fn lemma_nack_all_held(
    q: QueueView,
    name: Seq<char>,
    by: Seq<char>,
    lease_ids: Seq<LeaseId>,
    topic: Seq<char>,
    group: Seq<char>,
    id: LeaseId,
    lease: Lease,
)
    requires
        held_or_settled(q.topic(topic), group, id, lease),
        name == topic && by == group ==> !lease_ids.contains(id),
    ensures
        held_or_settled(q.nack_all(name, by, lease_ids).topic(topic), group, id, lease),
    decreases lease_ids.len(),
{
    if lease_ids.len() > 0 {
        let front = lease_ids.drop_last();
        assert(lease_ids.last() == lease_ids[lease_ids.len() - 1]);
        assert forall|x: LeaseId| front.contains(x) implies lease_ids.contains(x) by {
            let k = choose|k: int| 0 <= k < front.len() && front[k] == x;
            assert(lease_ids[k] == x);
        }
        lemma_nack_all_held(q, name, by, front, topic, group, id, lease);
    }
}

/// The command gives the lease back.
pub open spec fn gives_back(
    req: AppRequest,
    topic: Seq<char>,
    group: Seq<char>,
    id: LeaseId,
) -> bool {
    match req {
        AppRequest::Nack { topic: t, group: g, lease_id } => t@ == topic && g@ == group && lease_id
            == id,
        AppRequest::NackMany { topic: t, group: g, lease_ids } => t@ == topic && g@ == group
            && lease_ids@.contains(id),
        _ => false,
    }
}

/// The command is a poll of the group at which the lease has run out.
pub open spec fn polls_late(
    req: AppRequest,
    topic: Seq<char>,
    group: Seq<char>,
    lease: Lease,
) -> bool {
    polls(req, topic, group) && (req matches AppRequest::Poll { ts_ms, .. } && lease.deadline_ms
        <= ts_ms)
}

proof fn lemma_step_held(
    q: QueueView,
    req: AppRequest,
    topic: Seq<char>,
    group: Seq<char>,
    id: LeaseId,
    lease: Lease,
)
    requires
        q.wf(),
        q.has_room(req),
        held_or_settled(q.topic(topic), group, id, lease),
        !deletes(req, topic),
        !gives_back(req, topic, group, id),
        !polls_late(req, topic, group, lease),
    ensures
        held_or_settled(q.step(req).0.topic(topic), group, id, lease),
{
    let t = q.topic(topic);
    if settled(t, group, lease.offset) {
        settled_stays_settled(q, req, topic, group, lease.offset);
    } else {
        assert(q.topics.contains_key(topic));
        match req {
            AppRequest::Produce { .. } => {
                if item_of(req).topic == topic {
                    lemma_produce_held(t, item_of(req), group, id, lease);
                }
            },
            AppRequest::ProduceMany { items } => {
                lemma_produce_all_held(q, item_views(items@), topic, group, id, lease);
            },
            AppRequest::Poll { topic: name, group: by, max, visibility_timeout_ms, ts_ms } => {
                if name@ == topic && by@ == group {
                    assert(t.leases_below(q.next_lease_id));
                    assert(t.groups[group].leases_below(q.next_lease_id));
                    assert(id < q.next_lease_id);
                    assert(t.group(group).expire(ts_ms).in_flight.contains_key(id));
                }
            },
            AppRequest::Ack { topic: name, group: by, lease_id } => {
                if name@ == topic {
                    lemma_ack_held(t, by@, lease_id, group, id, lease);
                }
            },
            AppRequest::AckMany { topic: name, group: by, lease_ids } => {
                lemma_ack_all_held(q, name@, by@, lease_ids@, topic, group, id, lease);
            },
            AppRequest::NackMany { topic: name, group: by, lease_ids } => {
                lemma_nack_all_held(q, name@, by@, lease_ids@, topic, group, id, lease);
            },
            AppRequest::CommitOffset { topic: name, group: by, offset } => {
                if name@ == topic {
                    lemma_commit_held(t, by@, offset, group, id, lease);
                }
            },
            _ => {},
        }
    }
}

proof fn lemma_commit_held(
    t: TopicView,
    by: Seq<char>,
    offset: u64,
    group: Seq<char>,
    id: LeaseId,
    lease: Lease,
)
    requires
        t.wf(),
        holds(t, group, id, lease),
    ensures
        held_or_settled(t.commit(by, offset), group, id, lease),
{
    lemma_commit(t, by, offset);
    lemma_group_of(t, by);
    let g = t.group(by);
    lemma_commit_tidy(g, offset);
    let u = t.with_group(by, g.commit(offset));
    if by == group {
        if lease.offset < offset {
            committed_is_settled(t, group, offset, lease.offset);
        } else {
            assert(!g.done(lease.offset));
            assert(g.commit(offset).in_flight.contains_key(id));
            assert(holds(u, group, id, lease));
        }
    } else {
        assert(holds(u, group, id, lease));
    }
    if holds(u, group, id, lease) {
        lemma_reclaim(u);
        lemma_drop_held(u, u.consumed(), group, id, lease);
    }
}

/// A message that a group holds under a lease is not handed to the group again through any
/// history in which the lease is not given back, the topic is not deleted, and no poll of
/// the group comes at or after the deadline.
pub proof fn a_leased_message_is_not_handed_out_again(
    q: QueueView,
    reqs: Seq<AppRequest>,
    topic: Seq<char>,
    group: Seq<char>,
    id: LeaseId,
    lease: Lease,
    max: u32,
    ts_ms: u64,
)
    requires
        q.wf(),
        room_for(q, reqs),
        holds(q.topic(topic), group, id, lease),
        keeps_topic(reqs, topic),
        forall|i: int| 0 <= i < reqs.len() ==> !gives_back(#[trigger] reqs[i], topic, group, id),
        forall|i: int|
            0 <= i < reqs.len() ==> !polls_late(#[trigger] reqs[i], topic, group, lease),
        ts_ms < lease.deadline_ms,
    ensures
        !delivers(run(q, reqs).topic(topic), group, max, ts_ms, lease.offset),
{
    lemma_run_held(q, reqs, topic, group, id, lease);
    every_history_keeps_wf(q, reqs);
    let r = run(q, reqs);
    lemma_topic_of(r, topic);
    let t = r.topic(topic);
    if settled(t, group, lease.offset) {
        settled_is_never_delivered(t, group, max, ts_ms, lease.offset);
    } else {
        assert(t.group(group).expire(ts_ms).in_flight.contains_key(id));
        assert(t.group(group).expire(ts_ms).leased(lease.offset));
        poll_delivers_only_deliverable(t, group, max, ts_ms);
    }
}

proof fn lemma_run_held(
    q: QueueView,
    reqs: Seq<AppRequest>,
    topic: Seq<char>,
    group: Seq<char>,
    id: LeaseId,
    lease: Lease,
)
    requires
        q.wf(),
        room_for(q, reqs),
        held_or_settled(q.topic(topic), group, id, lease),
        keeps_topic(reqs, topic),
        forall|i: int| 0 <= i < reqs.len() ==> !gives_back(#[trigger] reqs[i], topic, group, id),
        forall|i: int|
            0 <= i < reqs.len() ==> !polls_late(#[trigger] reqs[i], topic, group, lease),
    ensures
        held_or_settled(run(q, reqs).topic(topic), group, id, lease),
    decreases reqs.len(),
{
    if reqs.len() > 0 {
        let front = reqs.drop_last();
        assert(reqs.last() == reqs[reqs.len() - 1]);
        lemma_front_keeps(reqs, topic);
        assert forall|i: int| 0 <= i < front.len() implies !gives_back(
            #[trigger] front[i],
            topic,
            group,
            id,
        ) && !polls_late(front[i], topic, group, lease) by {
            assert(front[i] == reqs[i]);
        }
        lemma_run_held(q, front, topic, group, id, lease);
        every_history_keeps_wf(q, front);
        lemma_step_held(run(q, front), reqs.last(), topic, group, id, lease);
    }
}

/// Every lease of every group of the topic has a number from `first` on.
pub open spec fn leases_from(t: TopicView, first: u64) -> bool {
    forall|group: Seq<char>, id: LeaseId| #[trigger]
        t.group(group).in_flight.contains_key(id) ==> first <= id
}

/// The groups hold in `r` no lease that they did not hold in `t`.
spec fn leases_within(t: TopicView, r: TopicView) -> bool {
    forall|group: Seq<char>, id: LeaseId| #[trigger]
        r.group(group).in_flight.contains_key(id) ==> t.group(group).in_flight.contains_key(id)
}

proof fn lemma_drop_within(t: TopicView, n: nat)
    ensures
        leases_within(t, t.drop_front(n)),
{
    let r = t.drop_front(n);
    assert forall|group: Seq<char>, id: LeaseId| #[trigger]
        r.group(group).in_flight.contains_key(id) implies t.group(group).in_flight.contains_key(
        id,
    ) by {
        assert(r.groups.contains_key(group) == t.groups.contains_key(group));
    }
}

proof fn lemma_produce_within(t: TopicView, item: ProduceItemView)
    ensures
        leases_within(t, t.produce(item).0),
{
    let c = TopicView { created: true, ..t };
    if !c.is_resend(item) {
        let appended = c.append(item);
        let noted = if item.producer_id.len() > 0 {
            appended.remember((item.producer_id, item.seq), c.next_offset)
        } else {
            appended
        };
        let purged = noted.purge_retained(item.ts_ms);
        lemma_drop_within(noted, noted.unretained(item.ts_ms));
        lemma_drop_within(purged, purged.consumed());
        let r = purged.reclaim();
        assert forall|group: Seq<char>, id: LeaseId| #[trigger]
            r.group(group).in_flight.contains_key(id) implies t.group(group).in_flight.contains_key(
            id,
        ) by {
            assert(purged.group(group).in_flight.contains_key(id));
            assert(noted.group(group).in_flight.contains_key(id));
        }
    }
}

proof fn lemma_with_group_within(t: TopicView, group: Seq<char>, g: GroupView)
    requires
        forall|id: LeaseId| #[trigger]
            g.in_flight.contains_key(id) ==> t.group(group).in_flight.contains_key(id),
    ensures
        leases_within(t, t.with_group(group, g)),
        leases_within(t, t.with_group(group, g).reclaim()),
{
    let u = t.with_group(group, g);
    lemma_drop_within(u, u.consumed());
    assert forall|name: Seq<char>, id: LeaseId| #[trigger]
        u.group(name).in_flight.contains_key(id) implies t.group(name).in_flight.contains_key(
        id,
    ) by {
        if name != group {
            assert(u.group(name) == t.group(name));
        }
    }
    assert forall|name: Seq<char>, id: LeaseId| #[trigger]
        u.reclaim().group(name).in_flight.contains_key(id) implies t.group(
        name,
    ).in_flight.contains_key(id) by {
        assert(u.group(name).in_flight.contains_key(id));
    }
}

proof fn lemma_within_from(t: TopicView, r: TopicView, first: u64)
    requires
        leases_from(t, first),
        leases_within(t, r),
    ensures
        leases_from(r, first),
{
    assert forall|group: Seq<char>, id: LeaseId| #[trigger]
        r.group(group).in_flight.contains_key(id) implies first <= id by {
        assert(t.group(group).in_flight.contains_key(id));
    }
}

proof fn lemma_produce_all_from(
    q: QueueView,
    items: Seq<ProduceItemView>,
    topic: Seq<char>,
    first: u64,
)
    requires
        leases_from(q.topic(topic), first),
    ensures
        leases_from(q.produce_all(items).0.topic(topic), first),
    decreases items.len(),
{
    if items.len() > 0 {
        lemma_produce_all_from(q, items.drop_last(), topic, first);
        let before = q.produce_all(items.drop_last()).0;
        if items.last().topic == topic {
            lemma_produce_within(before.topic(topic), items.last());
            lemma_within_from(
                before.topic(topic),
                before.topic(topic).produce(items.last()).0,
                first,
            );
        }
    }
}

proof fn lemma_ack_from(
    q: QueueView,
    name: Seq<char>,
    group: Seq<char>,
    lease_id: LeaseId,
    topic: Seq<char>,
    first: u64,
)
    requires
        leases_from(q.topic(topic), first),
    ensures
        leases_from(q.ack(name, group, lease_id).topic(topic), first),
{
    if name == topic && q.topics.contains_key(topic) {
        let t = q.topics[topic];
        if t.groups.contains_key(group) {
            lemma_with_group_within(t, group, t.groups[group].ack(lease_id));
            lemma_within_from(t, t.ack(group, lease_id), first);
        }
    }
}

proof fn lemma_ack_all_from(
    q: QueueView,
    name: Seq<char>,
    group: Seq<char>,
    lease_ids: Seq<LeaseId>,
    topic: Seq<char>,
    first: u64,
)
    requires
        leases_from(q.topic(topic), first),
    ensures
        leases_from(q.ack_all(name, group, lease_ids).topic(topic), first),
    decreases lease_ids.len(),
{
    if lease_ids.len() > 0 {
        lemma_ack_all_from(q, name, group, lease_ids.drop_last(), topic, first);
        lemma_ack_from(
            q.ack_all(name, group, lease_ids.drop_last()),
            name,
            group,
            lease_ids.last(),
            topic,
            first,
        );
    }
}

proof fn lemma_nack_from(
    q: QueueView,
    name: Seq<char>,
    group: Seq<char>,
    lease_id: LeaseId,
    topic: Seq<char>,
    first: u64,
)
    requires
        leases_from(q.topic(topic), first),
    ensures
        leases_from(q.nack(name, group, lease_id).topic(topic), first),
{
    if name == topic && q.topics.contains_key(topic) {
        let t = q.topics[topic];
        if t.groups.contains_key(group) {
            lemma_with_group_within(t, group, t.groups[group].nack(lease_id));
            lemma_within_from(t, t.nack(group, lease_id), first);
        }
    }
}

proof fn lemma_nack_all_from(
    q: QueueView,
    name: Seq<char>,
    group: Seq<char>,
    lease_ids: Seq<LeaseId>,
    topic: Seq<char>,
    first: u64,
)
    requires
        leases_from(q.topic(topic), first),
    ensures
        leases_from(q.nack_all(name, group, lease_ids).topic(topic), first),
    decreases lease_ids.len(),
{
    if lease_ids.len() > 0 {
        lemma_nack_all_from(q, name, group, lease_ids.drop_last(), topic, first);
        lemma_nack_from(
            q.nack_all(name, group, lease_ids.drop_last()),
            name,
            group,
            lease_ids.last(),
            topic,
            first,
        );
    }
}

proof fn lemma_step_from(q: QueueView, req: AppRequest, topic: Seq<char>, first: u64)
    requires
        q.wf(),
        q.has_room(req),
        first <= q.next_lease_id,
        leases_from(q.topic(topic), first),
    ensures
        leases_from(q.step(req).0.topic(topic), first),
{
    let t = q.topic(topic);
    let r = q.step(req).0.topic(topic);
    match req {
        AppRequest::Produce { .. } => {
            if item_of(req).topic == topic {
                lemma_produce_within(t, item_of(req));
                lemma_within_from(t, r, first);
            }
        },
        AppRequest::ProduceMany { items } => {
            lemma_produce_all_from(q, item_views(items@), topic, first);
        },
        AppRequest::Poll { topic: name, group: by, max, visibility_timeout_ms, ts_ms } => {
            assert forall|group: Seq<char>, id: LeaseId| #[trigger]
                r.group(group).in_flight.contains_key(id) implies first <= id by {
                if id < q.next_lease_id {
                    assert(t.group(group).in_flight.contains_key(id));
                }
            }
        },
        AppRequest::Ack { topic: name, group: by, lease_id } => {
            lemma_ack_from(q, name@, by@, lease_id, topic, first);
        },
        AppRequest::AckMany { topic: name, group: by, lease_ids } => {
            lemma_ack_all_from(q, name@, by@, lease_ids@, topic, first);
        },
        AppRequest::Nack { topic: name, group: by, lease_id } => {
            lemma_nack_from(q, name@, by@, lease_id, topic, first);
        },
        AppRequest::NackMany { topic: name, group: by, lease_ids } => {
            lemma_nack_all_from(q, name@, by@, lease_ids@, topic, first);
        },
        AppRequest::CommitOffset { topic: name, group: by, offset } => {
            if name@ == topic && q.topics.contains_key(topic) {
                lemma_with_group_within(t, by@, t.group(by@).commit(offset));
                lemma_within_from(t, r, first);
            }
        },
        _ => {
            lemma_within_from(t, r, first);
        },
    }
}

/// After a topic was deleted, no group of that topic ever holds a lease from before the
/// deletion, whatever follows. So to ack or to give back such a lease changes nothing.
pub proof fn a_deleted_topic_takes_its_leases_with_it(
    q: QueueView,
    deletion: AppRequest,
    reqs: Seq<AppRequest>,
    topic: Seq<char>,
    group: Seq<char>,
    id: LeaseId,
)
    requires
        q.wf(),
        deletes(deletion, topic),
        room_for(q.step(deletion).0, reqs),
        id < q.next_lease_id,
    ensures
        ({
            let r = run(q.step(deletion).0, reqs);
            &&& !r.topic(topic).group(group).in_flight.contains_key(id)
            &&& r.ack(topic, group, id) == r
            &&& r.nack(topic, group, id) == r
        }),
{
    let start = q.step(deletion).0;
    step_keeps_wf(q, deletion);
    lemma_run_from(start, reqs, topic, q.next_lease_id);
    let r = run(start, reqs);
    every_history_keeps_wf(start, reqs);
    stale_nack_changes_nothing(r, topic, group, id);
    if r.topics.contains_key(topic) {
        stale_ack_changes_nothing(r.topics[topic], group, id);
        assert(r.topics.insert(topic, r.topics[topic]) =~= r.topics);
    }
}

proof fn lemma_run_from(q: QueueView, reqs: Seq<AppRequest>, topic: Seq<char>, first: u64)
    requires
        q.wf(),
        room_for(q, reqs),
        first <= q.next_lease_id,
        leases_from(q.topic(topic), first),
    ensures
        leases_from(run(q, reqs).topic(topic), first),
        first <= run(q, reqs).next_lease_id,
    decreases reqs.len(),
{
    if reqs.len() > 0 {
        let front = reqs.drop_last();
        lemma_run_from(q, front, topic, first);
        every_history_keeps_wf(q, front);
        lemma_step_from(run(q, front), reqs.last(), topic, first);
        lease_numbers_are_never_reused(run(q, front), reqs.last());
    }
}

} // verus!
