//! What the node does with a request.
use crate::command::AppRequest;
use crate::protocol::{
    check_payload, failure, payload_refusal, resp_error, resp_ok, Ack, Node, Poll, Produce, Request,
    Response, ResponseView, Subscribe,
};
use crate::types::{GroupId, NodeId, TopicId};
use std::collections::BTreeMap;
use vstd::prelude::*;

verus! {

/// What is to be done with a request.
#[derive(Debug)]
pub enum Plan {
    /// It is answered at once.
    Reply(Response),
    /// The cluster is formed from the nodes.
    Bootstrap { nodes: Vec<Node> },
    /// It is answered with the node's figures.
    Stats,
    /// The message joins the next batch of produced messages.
    Produce(Produce),
    /// The poll is run.
    Poll(Poll),
    /// The lease joins the next batch of acks.
    Acknowledge { ack: Ack, nack: bool },
    /// The command is written to the replicated log.
    Write(AppRequest),
    /// The command, which deletes a topic, is written to the replicated log; once it
    /// is applied, the node forgets what it keeps for the topic.
    Delete { topic: String, command: AppRequest },
}

/// The plan is an answer at once.
pub open spec fn replies(plan: Plan, answer: ResponseView) -> bool {
    plan matches Plan::Reply(r) && r@ == answer
}

/// The plan is the right one for the request.
pub open spec fn plan_fits(req: Option<Request>, plan: Plan) -> bool {
    match req {
        None => replies(plan, failure("bad_request"@, "empty request"@)),
        Some(Request::Bootstrap { nodes }) => plan == (Plan::Bootstrap { nodes }),
        Some(Request::Stats) => plan == Plan::Stats,
        Some(Request::Produce(p)) => match payload_refusal(p.payload@.len()) {
            Some(answer) => replies(plan, answer),
            None => plan == Plan::Produce(p),
        },
        Some(Request::Poll(p)) => plan == Plan::Poll(p),
        Some(Request::SetRateLimit { topic, rate_milli_per_sec, burst }) => plan == Plan::Write(
            AppRequest::SetRateLimit { topic: TopicId(topic), rate_milli_per_sec, burst },
        ),
        Some(Request::SetRetention { topic, max_messages, max_age_ms }) => plan == Plan::Write(
            AppRequest::SetRetention { topic: TopicId(topic), max_messages, max_age_ms },
        ),
        Some(Request::Ack(ack)) => plan == (Plan::Acknowledge { ack, nack: false }),
        Some(Request::Nack(ack)) => plan == (Plan::Acknowledge { ack, nack: true }),
        Some(Request::Commit { topic, group, offset }) => plan == Plan::Write(
            AppRequest::CommitOffset { topic: TopicId(topic), group: GroupId(group), offset },
        ),
        Some(Request::CreateTopic { topic }) => plan == Plan::Write(
            AppRequest::CreateTopic { topic: TopicId(topic) },
        ),
        Some(Request::DeleteTopic { topic }) => plan matches Plan::Delete { topic: name, command }
            && name@ == topic@ && command == (AppRequest::DeleteTopic { topic: TopicId(topic) }),
        Some(Request::Subscribe(_)) => replies(
            plan,
            failure("bad_request"@, "subscribe takes over its connection"@),
        ),
    }
}

/// Decides what is to be done with a request.
pub fn handle_request(req: Option<Request>) -> (plan: Plan)
    ensures
        plan_fits(req, plan),
{
    let kind = match req {
        Some(kind) => kind,
        None => {
            return Plan::Reply(resp_error("bad_request", "empty request".to_owned()));
        },
    };
    match kind {
        Request::Bootstrap { nodes } => Plan::Bootstrap { nodes },
        Request::Stats => Plan::Stats,
        Request::Produce(p) => match check_payload(&p.payload) {
            Some(answer) => Plan::Reply(answer),
            None => Plan::Produce(p),
        },
        Request::Poll(p) => Plan::Poll(p),
        Request::SetRateLimit { topic, rate_milli_per_sec, burst } => Plan::Write(
            AppRequest::SetRateLimit { topic: TopicId(topic), rate_milli_per_sec, burst },
        ),
        Request::SetRetention { topic, max_messages, max_age_ms } => Plan::Write(
            AppRequest::SetRetention { topic: TopicId(topic), max_messages, max_age_ms },
        ),
        Request::Ack(ack) => Plan::Acknowledge { ack, nack: false },
        Request::Nack(ack) => Plan::Acknowledge { ack, nack: true },
        Request::Commit { topic, group, offset } => Plan::Write(
            AppRequest::CommitOffset { topic: TopicId(topic), group: GroupId(group), offset },
        ),
        Request::CreateTopic { topic } => Plan::Write(
            AppRequest::CreateTopic { topic: TopicId(topic) },
        ),
        Request::DeleteTopic { topic } => {
            let name = topic.clone();
            Plan::Delete { topic: name, command: AppRequest::DeleteTopic { topic: TopicId(topic) } }
        },
        Request::Subscribe(_) => Plan::Reply(
            resp_error("bad_request", "subscribe takes over its connection".to_owned()),
        ),
    }
}

/// Whether the node forgets what it keeps for a topic: the deletion succeeded.
pub fn deletion_succeeded(answer: &Response) -> (r: bool)
    ensures
        r == (answer@ is Done),
{
    match answer {
        Response::Done => true,
        _ => false,
    }
}

/// What is to be done with a frame of a client's connection.
#[derive(Debug)]
pub enum FrameAction {
    /// It is answered at once, in its turn.
    Reply(Response),
    /// The subscription takes the connection over once all answers are out.
    Subscribe(Subscribe),
    /// The request is handled.
    Handle(Option<Request>),
}

/// Decides what is to be done with a frame: `decoded` is the request it holds, or why
/// it holds none.
pub fn on_client_frame(decoded: Result<Option<Request>, String>) -> (r: FrameAction)
    ensures
        match decoded {
            Err(why) => r matches FrameAction::Reply(answer) && answer@ == failure(
                "bad_request"@,
                why@,
            ),
            Ok(Some(Request::Subscribe(sub))) => r == FrameAction::Subscribe(sub),
            Ok(req) => r == FrameAction::Handle(req),
        },
{
    match decoded {
        Err(why) => FrameAction::Reply(resp_error("bad_request", why)),
        Ok(Some(Request::Subscribe(sub))) => FrameAction::Subscribe(sub),
        Ok(req) => FrameAction::Handle(req),
    }
}

/// The members of the cluster that the nodes make: each number once, with the address
/// that is given last.
pub open spec fn members_of(nodes: Seq<Node>) -> Map<NodeId, String>
    decreases nodes.len(),
{
    if nodes.len() == 0 {
        Map::empty()
    } else {
        members_of(nodes.drop_last()).insert(nodes.last().id, nodes.last().peer_addr)
    }
}

/// The members of the cluster that the nodes make.
pub fn cluster_members(nodes: Vec<Node>) -> (r: BTreeMap<NodeId, String>)
    ensures
        r@ == members_of(nodes@),
{
    let ghost all = nodes@;
    let mut members: BTreeMap<NodeId, String> = BTreeMap::new();
    assert(all.take(0) =~= Seq::empty());
    for n in it: nodes
        invariant
            it.seq() == all,
            members@ == members_of(all.take(it.index())),
    {
        proof {
            assert(all.take(it.index() + 1).drop_last() =~= all.take(it.index()));
        }
        members.insert(n.id, n.peer_addr);
    }
    assert(all.take(all.len() as int) =~= all);
    members
}

/// How the attempt to form the cluster went.
#[derive(Debug)]
pub enum Initialized {
    Formed,
    /// The cluster exists already.
    NotAllowed,
    Failed { message: String },
}

/// The answer to a request to form the cluster; to form it again is no error.
pub fn bootstrap_response(outcome: Initialized) -> (r: Response)
    ensures
        r@ == match outcome {
            Initialized::Failed { message } => failure("bootstrap_failed"@, message@),
            _ => ResponseView::Done,
        },
{
    match outcome {
        Initialized::Formed => resp_ok(),
        Initialized::NotAllowed => resp_ok(),
        Initialized::Failed { message } => resp_error("bootstrap_failed", message),
    }
}

} // verus!
