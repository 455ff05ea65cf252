//! What is promised to a consumer that acks on delivery: every message it is handed is
//! acked, and none comes back.
use crate::command::{delivered_views, AppRequest, AppResponseView, Delivered};
use crate::delivery_laws::{delivers, leases_fit};
use crate::drain_laws::{
    among, lemma_acked, lemma_acked_in_queue, lemma_polled_queue_wf, stands_after_acks,
};
use crate::group_laws::numbers_from;
use crate::history_laws::{every_history_keeps_wf, keeps_topic, room_for, run};
use crate::lifecycle_laws::{
    acked_is_settled, deletes, settled, settled_is_never_delivered, settled_stays_settled,
};
use crate::model::QueueView;
use crate::polling::acks_all;
use crate::priority_laws::hands_out;
use crate::queue_lemmas::{lemma_queue_ack_all, lemma_topic_of, step_keeps_wf};
use crate::topic_lemmas::lemma_polled;
use crate::types::LeaseId;
use vstd::prelude::*;

verus! {

/// The command that follows a poll acks every delivery: it goes to the topic and the group
/// that were polled, its list is as long as the list of deliveries, and the number at every
/// place is the lease of the delivery at that place.
pub proof fn the_command_acks_every_delivery(
    command: AppRequest,
    topic: Seq<char>,
    group: Seq<char>,
    items: Seq<Delivered>,
)
    requires
        acks_all(command, topic, group, items),
    ensures
        command matches AppRequest::AckMany { topic: t, group: g, lease_ids } && {
            &&& t@ == topic
            &&& g@ == group
            &&& lease_ids@.len() == items.len()
            &&& forall|i: int| 0 <= i < items.len() ==> #[trigger] lease_ids@[i] == items[i].lease_id
        },
{
}

/// What is settled for a group is never handed out to it again, whatever happens short of a
/// deletion of the topic.
pub proof fn what_is_settled_never_comes_back(
    q: QueueView,
    reqs: Seq<AppRequest>,
    topic: Seq<char>,
    group: Seq<char>,
    offset: u64,
    max: u32,
    visibility_timeout_ms: u64,
    ts_ms: u64,
)
    requires
        q.wf(),
        settled(q.topic(topic), group, offset),
        room_for(q, reqs),
        keeps_topic(reqs, topic),
    ensures
        settled(run(q, reqs).topic(topic), group, offset),
        !hands_out(
            run(q, reqs).poll(topic, group, max, visibility_timeout_ms, ts_ms).1,
            offset,
        ),
    decreases reqs.len(),
{
    if reqs.len() > 0 {
        let front = reqs.drop_last();
        assert(reqs.last() == reqs[reqs.len() - 1]);
        assert forall|i: int| 0 <= i < front.len() implies !deletes(#[trigger] front[i], topic) by {
            assert(front[i] == reqs[i]);
        }
        what_is_settled_never_comes_back(
            q,
            front,
            topic,
            group,
            offset,
            max,
            visibility_timeout_ms,
            ts_ms,
        );
        every_history_keeps_wf(q, front);
        settled_stays_settled(run(q, front), reqs.last(), topic, group, offset);
    }
    every_history_keeps_wf(q, reqs);
    let r = run(q, reqs);
    let items = r.poll(topic, group, max, visibility_timeout_ms, ts_ms).1;
    if hands_out(items, offset) {
        let i = choose|i: int| 0 <= i < items.len() && (#[trigger] items[i]).offset == offset;
        let t = r.topics[topic];
        let chosen = t.polled(group, max, ts_ms);
        assert(chosen[i].offset == offset);
        assert(delivers(t, group, max, ts_ms, offset));
        settled_is_never_delivered(t, group, max, ts_ms, offset);
    }
}

/// A message whose lease is acked never comes back to the group, whatever happens short of
/// a deletion of the topic.
pub proof fn an_acked_message_never_comes_back(
    q: QueueView,
    ack: AppRequest,
    reqs: Seq<AppRequest>,
    max: u32,
    visibility_timeout_ms: u64,
    ts_ms: u64,
)
    requires
        q.wf(),
        ack matches AppRequest::Ack { topic, group, lease_id } && q.topic(topic@).group(
            group@,
        ).in_flight.contains_key(lease_id) && keeps_topic(reqs, topic@),
        room_for(q.step(ack).0, reqs),
    ensures
        ack matches AppRequest::Ack { topic, group, lease_id } ==> !hands_out(
            run(q.step(ack).0, reqs).poll(
                topic@,
                group@,
                max,
                visibility_timeout_ms,
                ts_ms,
            ).1,
            q.topic(topic@).group(group@).in_flight[lease_id].offset,
        ),
{
    match ack {
        AppRequest::Ack { topic, group, lease_id } => {
            let t = q.topic(topic@);
            lemma_topic_of(q, topic@);
            assert(q.topics.contains_key(topic@));
            assert(t.groups.contains_key(group@));
            acked_is_settled(t, group@, lease_id);
            step_keeps_wf(q, ack);
            what_is_settled_never_comes_back(
                q.step(ack).0,
                reqs,
                topic@,
                group@,
                t.group(group@).in_flight[lease_id].offset,
                max,
                visibility_timeout_ms,
                ts_ms,
            );
        },
        _ => {},
    }
}

/// Once a poll and the command that acks its deliveries are applied, the group is done with
/// every message that was handed out: no later poll hands one out again, whatever happens
/// short of a deletion of the topic.
pub proof fn what_is_acked_on_delivery_never_comes_back(
    q: QueueView,
    poll: AppRequest,
    items: Seq<Delivered>,
    command: AppRequest,
    reqs: Seq<AppRequest>,
    max: u32,
    visibility_timeout_ms: u64,
    ts_ms: u64,
    i: int,
)
    requires
        q.wf(),
        q.has_room(poll),
        q.step(poll).1 == (AppResponseView::Polled { items: delivered_views(items) }),
        poll matches AppRequest::Poll { topic, group, .. } && acks_all(
            command,
            topic@,
            group@,
            items,
        ) && keeps_topic(reqs, topic@),
        room_for(q.step(poll).0.step(command).0, reqs),
        0 <= i < items.len(),
    ensures
        poll matches AppRequest::Poll { topic, group, .. } ==> {
            let after = q.step(poll).0.step(command).0;
            &&& settled(after.topic(topic@), group@, items[i].offset)
            &&& !hands_out(
                run(after, reqs).poll(topic@, group@, max, visibility_timeout_ms, ts_ms).1,
                items[i].offset,
            )
        },
{
    match poll {
        AppRequest::Poll { topic, group, max: m, visibility_timeout_ms: vis, ts_ms: ts } => {
            let (name, g) = (topic@, group@);
            let views = delivered_views(items);
            let polled = q.step(poll).0;
            let t = q.topic(name);
            let chosen = t.polled(g, m, ts);
            let n = chosen.len();
            assert(q.topics.contains_key(name)) by {
                if !q.topics.contains_key(name) {
                    assert(views.len() == 0);
                }
            }
            lemma_topic_of(q, name);
            assert(views == t.poll_items(g, m, ts, q.next_lease_id));
            assert(views.len() == n);
            assert(views[i] == items[i]@);
            the_command_acks_every_delivery(command, name, g, items);
            let ids: Seq<LeaseId> = command->AckMany_lease_ids@;
            assert(ids =~= numbers_from(q.next_lease_id, n)) by {
                assert forall|k: int| 0 <= k < n implies #[trigger] ids[k] == (q.next_lease_id
                    + k) as u64 by {
                    assert(views[k] == items[k]@);
                }
            }
            lemma_polled(t, g, m, ts);
            assert(leases_fit(t, g, m, ts, q.next_lease_id));
            lemma_acked_in_queue(polled, name, g, q.next_lease_id, n);
            lemma_acked(t, g, m, vis, ts, q.next_lease_id, n as int);
            assert(stands_after_acks(t, g, m, vis, ts, q.next_lease_id, n as int));
            let after = polled.step(command).0;
            let offset = items[i].offset;
            assert(chosen[i].offset == offset);
            assert(among(chosen, n as int, offset));
            assert(settled(after.topic(name), g, offset));
            lemma_polled_queue_wf(q, name, g, m, vis, ts);
            lemma_queue_ack_all(polled, name, g, ids);
            what_is_settled_never_comes_back(
                after,
                reqs,
                name,
                g,
                offset,
                max,
                visibility_timeout_ms,
                ts_ms,
            );
        },
        _ => {},
    }
}

} // verus!
