//! What becomes of the requests of clients: the limits that are put on them, and what they
//! do to the queue.
use crate::batching::payload_bytes;
use crate::command::AppRequest;
use crate::model::QueueView;
use crate::polling::{idles, lease_time, poll_max, polls_for, visibility_of, PollAction, PollRun};
use crate::protocol::{Node, Produce, Request, ResponseView};
use crate::requests::{members_of, plan_fits, Plan};
use crate::subscription::prefetch_of;
use crate::types::NodeId;
use vstd::prelude::*;

verus! {

/// A poll is for sixteen messages where it does not say, and never for more than a thousand
/// and twenty-four; a subscription has room for one message at least, and for no more than
/// that either. Within these limits a client gets what it asks for.
pub proof fn a_client_gets_the_number_it_asks_for(n: u32)
    ensures
        1 <= poll_max(n) <= 1024,
        1 <= n <= 1024 ==> poll_max(n) == n && prefetch_of(n) == n,
        n == 0 ==> poll_max(n) == 16 && prefetch_of(n) == 1,
        n > 1024 ==> poll_max(n) == 1024 && prefetch_of(n) == 1024,
{
}

/// A lease runs for thirty seconds where the client does not say, and else as long as it
/// says, but not past what the clock can show: its deadline always can be kept.
pub proof fn a_client_gets_the_time_it_asks_for(ms: u64, now_ms: u64)
    ensures
        ms == 0 ==> visibility_of(ms) == 30_000,
        ms > 0 ==> visibility_of(ms) == ms,
        now_ms + ms <= u64::MAX ==> lease_time(ms, now_ms) == ms,
        now_ms + ms > u64::MAX ==> now_ms + lease_time(ms, now_ms) == u64::MAX,
{
}

/// A poll that finds nothing waits no longer than it may: it ends empty-handed once its time
/// is up, or at once where it does not wait, and else it looks again a fifth of a second
/// later at the latest, and not after its time is up.
pub proof fn a_poll_waits_no_longer_than_it_may(action: PollAction, run: PollRun, now_ns: u64)
    requires
        idles(action, run, now_ns),
    ensures
        action is Reply || action is Park,
        action is Reply <==> !run.waits || now_ns >= run.deadline_ns,
        action matches PollAction::Reply(r) ==> (r@ matches ResponseView::Polled { items }
            && items.len() == 0),
        action matches PollAction::Park(ns) ==> {
            &&& 0 < ns <= 200_000_000
            &&& now_ns + ns <= run.deadline_ns
            &&& ns < 200_000_000 ==> now_ns + ns == run.deadline_ns
        },
{
}

/// The command of a poll asks for what the client asked for: it goes to its topic and its
/// group, for as many messages as were granted, at the time of the poll, and the leases it
/// takes run as long as the client said wherever the clock can show that.
pub proof fn a_poll_asks_for_what_the_client_asked(
    action: PollAction,
    run: PollRun,
    max: u32,
    now_ms: u64,
)
    requires
        polls_for(action, run, max, now_ms),
    ensures
        action matches PollAction::Write(command) && (command matches AppRequest::Poll {
            topic,
            group,
            max: m,
            visibility_timeout_ms,
            ts_ms,
        } && topic@ == run.topic@ && group@ == run.group@ && m == max && ts_ms == now_ms && (now_ms
            + run.visibility_ms <= u64::MAX ==> visibility_timeout_ms == run.visibility_ms)
            && now_ms + visibility_timeout_ms <= u64::MAX),
{
}

/// The bytes of a batch are those of all its messages.
pub proof fn the_bytes_of_a_batch_add_up(jobs: Seq<Produce>, more: Seq<Produce>)
    ensures
        payload_bytes(jobs + more) == payload_bytes(jobs) + payload_bytes(more),
        jobs.len() == 1 ==> payload_bytes(jobs) == jobs[0].payload@.len(),
    decreases more.len(),
{
    if jobs.len() == 1 {
        assert(payload_bytes(jobs.drop_last()) == 0);
    }
    if more.len() == 0 {
        assert(jobs + more =~= jobs);
    } else {
        the_bytes_of_a_batch_add_up(jobs, more.drop_last());
        assert((jobs + more).drop_last() =~= jobs + more.drop_last());
    }
}

/// The commands that a plan writes to the replicated log.
pub open spec fn command_of(plan: Plan) -> Option<AppRequest> {
    match plan {
        Plan::Write(command) => Some(command),
        Plan::Delete { command, .. } => Some(command),
        _ => None,
    }
}

/// A setting that a client asks for is, once its command is applied, the setting of the topic
/// it named: its rate and its burst, or its retention by number and by age.
pub proof fn a_setting_reaches_its_topic(req: Request, plan: Plan, q: QueueView)
    requires
        plan_fits(Some(req), plan),
    ensures
        req matches Request::SetRateLimit { topic, rate_milli_per_sec, burst } ==> (command_of(
            plan,
        ) matches Some(command) && {
            let t = q.step(command).0.topic(topic@);
            t.rate_milli_per_sec == rate_milli_per_sec && t.burst == burst
        }),
        req matches Request::SetRetention { topic, max_messages, max_age_ms } ==> (command_of(
            plan,
        ) matches Some(command) && {
            let t = q.step(command).0.topic(topic@);
            t.retain_max_messages == max_messages && t.retain_max_age_ms == max_age_ms
        }),
        req matches Request::CreateTopic { topic } ==> (command_of(plan) matches Some(command)
            && q.step(command).0.topics.contains_key(topic@) && q.step(command).0.topic(
            topic@,
        ).created),
        req matches Request::DeleteTopic { topic } ==> (plan matches Plan::Delete {
            topic: forgotten,
            command,
        } && forgotten@ == topic@ && !q.step(command).0.topics.contains_key(topic@)),
        req matches Request::Commit { topic, group, offset } ==> (command_of(
            plan,
        ) matches Some(command) && q.step(command).0 == q.commit(topic@, group@, offset)),
{
}

/// A message joins the batch as the client sent it, unless it is too large; a poll runs as it
/// was sent; an ack and a nack join their batch as such; and a request that cannot be handled
/// is turned away as a bad one, without a command.
pub proof fn a_request_is_handled_as_it_was_sent(req: Option<Request>, plan: Plan)
    requires
        plan_fits(req, plan),
    ensures
        req matches Some(Request::Produce(p)) ==> if p.payload@.len() <= 1_048_576 {
            plan == Plan::Produce(p)
        } else {
            plan matches Plan::Reply(answer) && (answer@ matches ResponseView::Error { code, .. }
                && code == "payload_too_large"@)
        },
        req matches Some(Request::Poll(p)) ==> plan == Plan::Poll(p),
        req matches Some(Request::Ack(a)) ==> plan == (Plan::Acknowledge { ack: a, nack: false }),
        req matches Some(Request::Nack(a)) ==> plan == (Plan::Acknowledge { ack: a, nack: true }),
        req matches Some(Request::Bootstrap { nodes: n }) ==> plan == (Plan::Bootstrap {
            nodes: n,
        }),
        req matches Some(Request::Stats) ==> plan is Stats,
        (req is None || req->Some_0 is Subscribe) ==> (plan matches Plan::Reply(answer) && (
        answer@ matches ResponseView::Error { code, .. } && code == "bad_request"@)),
{
}

/// The members of a cluster are the nodes that were named: each number once, with the
/// address that was given last.
pub proof fn every_named_node_is_a_member(nodes: Seq<Node>, id: NodeId, i: int)
    ensures
        members_of(nodes).contains_key(id) <==> exists|k: int|
            0 <= k < nodes.len() && (#[trigger] nodes[k]).id == id,
        (0 <= i < nodes.len() && nodes[i].id == id && forall|k: int|
            i < k < nodes.len() ==> (#[trigger] nodes[k]).id != id) ==> members_of(nodes)[id]
            == nodes[i].peer_addr,
    decreases nodes.len(),
{
    if nodes.len() > 0 {
        let front = nodes.drop_last();
        let last = nodes.len() - 1;
        every_named_node_is_a_member(front, id, i);
        assert(nodes.last() == nodes[last]);
        if members_of(front).contains_key(id) {
            let k = choose|k: int| 0 <= k < front.len() && (#[trigger] front[k]).id == id;
            assert(nodes[k].id == id);
        }
        if exists|k: int| 0 <= k < nodes.len() && (#[trigger] nodes[k]).id == id {
            let k = choose|k: int| 0 <= k < nodes.len() && (#[trigger] nodes[k]).id == id;
            if k < last {
                assert(front[k].id == id);
            }
        }
        if 0 <= i < last {
            assert(front[i] == nodes[i]);
            assert forall|k: int| i < k < front.len() implies #[trigger] front[k] == nodes[k] by {}
        }
    }
}

} // verus!
