//! The requests of clients and their answers.
use crate::command::{delivered_views, AppResponse, AppResponseView, Delivered, DeliveredView};
use crate::queue::QueueMetrics;
use crate::text::{append_decimal, decimal};
use crate::types::{ContentType, LeaseId, NodeId, Offset};
use vstd::prelude::*;
use vstd::string::StringExecFns;

verus! {

/// The largest payload that a produced message may have.
pub const MAX_PAYLOAD_BYTES: usize = 1_048_576;

/// A node of the cluster as a client names it.
#[derive(Debug, Clone, PartialEq, Eq)]
pub struct Node {
    pub id: NodeId,
    pub peer_addr: String,
}

/// A message to be produced.
#[derive(Debug, Clone, PartialEq, Eq)]
pub struct Produce {
    pub topic: String,
    pub priority: u32,
    pub content_type: u32,
    pub payload: Vec<u8>,
    pub producer_id: String,
    pub seq: u64,
}

/// A poll for messages.
#[derive(Debug, Clone, PartialEq, Eq)]
pub struct Poll {
    pub topic: String,
    pub group: String,
    pub max: u32,
    pub visibility_timeout_ms: u64,
    pub ack_mode: String,
    pub wait_ms: u64,
}

/// A subscription to a topic.
#[derive(Debug, Clone, PartialEq, Eq)]
pub struct Subscribe {
    pub topic: String,
    pub group: String,
    pub prefetch: u32,
    pub visibility_timeout_ms: u64,
    pub ack_mode: String,
}

/// An ack or a nack of a lease.
#[derive(Debug, Clone, PartialEq, Eq)]
pub struct Ack {
    pub topic: String,
    pub group: String,
    pub lease_id: LeaseId,
}

/// A request of a client. A rate is given in thousandths of a message per second.
#[derive(Debug, Clone, PartialEq, Eq)]
pub enum Request {
    Bootstrap { nodes: Vec<Node> },
    Stats,
    Produce(Produce),
    Poll(Poll),
    SetRateLimit { topic: String, rate_milli_per_sec: u64, burst: u32 },
    SetRetention { topic: String, max_messages: u64, max_age_ms: u64 },
    Ack(Ack),
    Nack(Ack),
    Commit { topic: String, group: String, offset: Offset },
    CreateTopic { topic: String },
    DeleteTopic { topic: String },
    Subscribe(Subscribe),
}

/// A delivered message as it goes out to a client.
#[derive(Debug, Clone, PartialEq, Eq)]
pub struct DeliveredItem {
    pub lease_id: LeaseId,
    pub offset: Offset,
    pub priority: u32,
    pub content_type: u32,
    pub payload: Vec<u8>,
    pub ts_ms: u64,
}

/// Why a request failed.
#[derive(Debug, Clone, PartialEq, Eq)]
pub struct ErrorReply {
    pub code: String,
    pub message: String,
    pub leader_addr: String,
    pub retry_after_ms: u64,
}

/// How the node and its queue stand.
#[derive(Debug, Clone, Copy, PartialEq, Eq)]
pub struct StatsReply {
    pub last_applied: u64,
    pub current_leader: u64,
    pub current_term: u64,
    pub last_log_index: u64,
    pub is_leader: bool,
    pub topics: u64,
    pub messages: u64,
    pub in_flight: u64,
}

/// The answer to a request.
#[derive(Debug, PartialEq, Eq)]
pub enum Response {
    Done,
    Error(ErrorReply),
    Produced { offset: Offset },
    Polled { items: Vec<DeliveredItem> },
    Stats(StatsReply),
}

/// The value of a [`DeliveredItem`].
pub struct DeliveredItemView {
    pub lease_id: LeaseId,
    pub offset: Offset,
    pub priority: u32,
    pub content_type: u32,
    pub payload: Seq<u8>,
    pub ts_ms: u64,
}

/// The value of a [`Response`].
pub enum ResponseView {
    Done,
    Error { code: Seq<char>, message: Seq<char>, leader_addr: Seq<char>, retry_after_ms: u64 },
    Produced { offset: Offset },
    Polled { items: Seq<DeliveredItemView> },
    Stats(StatsReply),
}

impl View for DeliveredItem {
    type V = DeliveredItemView;

    open spec fn view(&self) -> DeliveredItemView {
        DeliveredItemView {
            lease_id: self.lease_id,
            offset: self.offset,
            priority: self.priority,
            content_type: self.content_type,
            payload: self.payload@,
            ts_ms: self.ts_ms,
        }
    }
}

/// The values of a list of items.
pub open spec fn item_values(items: Seq<DeliveredItem>) -> Seq<DeliveredItemView> {
    Seq::new(items.len(), |i: int| items[i]@)
}

impl View for Response {
    type V = ResponseView;

    open spec fn view(&self) -> ResponseView {
        match *self {
            Response::Done => ResponseView::Done,
            Response::Error(e) => ResponseView::Error {
                code: e.code@,
                message: e.message@,
                leader_addr: e.leader_addr@,
                retry_after_ms: e.retry_after_ms,
            },
            Response::Produced { offset } => ResponseView::Produced { offset },
            Response::Polled { items } => ResponseView::Polled { items: item_values(items@) },
            Response::Stats(s) => ResponseView::Stats(s),
        }
    }
}

impl Clone for Response {
    fn clone(&self) -> (r: Self)
        ensures
            r@ == self@,
    {
        match self {
            Response::Done => Response::Done,
            Response::Error(e) => Response::Error(
                ErrorReply {
                    code: e.code.clone(),
                    message: e.message.clone(),
                    leader_addr: e.leader_addr.clone(),
                    retry_after_ms: e.retry_after_ms,
                },
            ),
            Response::Produced { offset } => Response::Produced { offset: *offset },
            Response::Polled { items } => {
                let mut copies: Vec<DeliveredItem> = Vec::new();
                let mut i: usize = 0;
                while i < items.len()
                    invariant
                        i <= items@.len(),
                        copies@.len() == i,
                        forall|j: int| 0 <= j < i ==> (#[trigger] copies@[j])@ == items@[j]@,
                    decreases items@.len() - i,
                {
                    let d = &items[i];
                    let copy = DeliveredItem {
                        lease_id: d.lease_id,
                        offset: d.offset,
                        priority: d.priority,
                        content_type: d.content_type,
                        payload: d.payload.clone(),
                        ts_ms: d.ts_ms,
                    };
                    assert(copy.payload@ =~= d.payload@);
                    copies.push(copy);
                    i += 1;
                }
                assert(item_values(copies@) =~= item_values(items@));
                Response::Polled { items: copies }
            },
            Response::Stats(s) => Response::Stats(*s),
        }
    }
}

/// The content type of a number; an unknown one is raw.
pub open spec fn content_type_of(v: u32) -> ContentType {
    if v == 1 {
        ContentType::Text
    } else if v == 2 {
        ContentType::Json
    } else if v == 3 {
        ContentType::MsgPack
    } else {
        ContentType::Raw
    }
}

/// The number of a content type.
pub open spec fn content_type_number(c: ContentType) -> u32 {
    match c {
        ContentType::Raw => 0,
        ContentType::Text => 1,
        ContentType::Json => 2,
        ContentType::MsgPack => 3,
    }
}

/// Every content type comes back from its number.
pub proof fn content_type_round_trips(c: ContentType)
    ensures
        content_type_of(content_type_number(c)) == c,
{
}

pub fn ct_from_u32(v: u32) -> (r: ContentType)
    ensures
        r == content_type_of(v),
{
    match v {
        1 => ContentType::Text,
        2 => ContentType::Json,
        3 => ContentType::MsgPack,
        _ => ContentType::Raw,
    }
}

pub fn ct_to_u32(c: ContentType) -> (r: u32)
    ensures
        r == content_type_number(c),
{
    match c {
        ContentType::Raw => 0,
        ContentType::Text => 1,
        ContentType::Json => 2,
        ContentType::MsgPack => 3,
    }
}

/// The answer to a request that fails.
pub open spec fn failure(code: Seq<char>, message: Seq<char>) -> ResponseView {
    ResponseView::Error { code, message, leader_addr: Seq::empty(), retry_after_ms: 0 }
}

/// The answer of a node that is not the leader.
pub open spec fn not_leader(addr: Seq<char>) -> ResponseView {
    ResponseView::Error {
        code: "not_leader"@,
        message: "not the leader; retry against leader_addr"@,
        leader_addr: addr,
        retry_after_ms: 0,
    }
}

/// The answer where the rate of the topic is used up.
pub open spec fn rate_limited(retry_after_ms: u64) -> ResponseView {
    ResponseView::Error {
        code: "rate_limited"@,
        message: "rate limit exceeded"@,
        leader_addr: Seq::empty(),
        retry_after_ms,
    }
}

/// A delivered message as it goes out.
pub open spec fn outgoing(d: DeliveredView) -> DeliveredItemView {
    DeliveredItemView {
        lease_id: d.lease_id,
        offset: d.offset,
        priority: d.priority.0 as u32,
        content_type: content_type_number(d.content_type),
        payload: d.payload,
        ts_ms: d.ts_ms,
    }
}

/// The answer that hands messages out.
pub open spec fn polled(items: Seq<DeliveredView>) -> ResponseView {
    ResponseView::Polled { items: Seq::new(items.len(), |i: int| outgoing(items[i])) }
}

pub fn resp_ok() -> (r: Response)
    ensures
        r@ == ResponseView::Done,
{
    Response::Done
}

pub fn resp_error(code: &str, message: String) -> (r: Response)
    ensures
        r@ == failure(code@, message@),
{
    Response::Error(
        ErrorReply {
            code: code.to_owned(),
            message,
            leader_addr: String::new(),
            retry_after_ms: 0,
        },
    )
}

pub fn resp_not_leader(addr: String) -> (r: Response)
    ensures
        r@ == not_leader(addr@),
{
    Response::Error(
        ErrorReply {
            code: "not_leader".to_owned(),
            message: "not the leader; retry against leader_addr".to_owned(),
            leader_addr: addr,
            retry_after_ms: 0,
        },
    )
}

pub fn resp_rate_limited(retry_after_ms: u64) -> (r: Response)
    ensures
        r@ == rate_limited(retry_after_ms),
{
    Response::Error(
        ErrorReply {
            code: "rate_limited".to_owned(),
            message: "rate limit exceeded".to_owned(),
            leader_addr: String::new(),
            retry_after_ms,
        },
    )
}

pub fn resp_polled(items: Vec<Delivered>) -> (r: Response)
    ensures
        r@ == polled(delivered_views(items@)),
{
    let ghost all = items@;
    let mut out: Vec<DeliveredItem> = Vec::new();
    for d in it: items
        invariant
            it.seq() == all,
            out@.len() == it.index(),
            forall|j: int| 0 <= j < it.index() ==> (#[trigger] out@[j])@ == outgoing(all[j]@),
    {
        let item = DeliveredItem {
            lease_id: d.lease_id,
            offset: d.offset,
            priority: d.priority.0 as u32,
            content_type: ct_to_u32(d.content_type),
            payload: d.payload,
            ts_ms: d.ts_ms,
        };
        out.push(item);
    }
    proof {
        let views = delivered_views(all);
        assert(item_values(out@) =~= Seq::new(views.len(), |i: int| outgoing(views[i])));
    }
    Response::Polled { items: out }
}

/// Why a write to the replicated log failed.
#[derive(Debug)]
pub enum WriteError {
    /// Another node is the leader; its address, if it is known.
    ForwardToLeader { leader_addr: Option<String> },
    /// Anything else, in words.
    Other { message: String },
}

/// The answer to a request whose write failed.
pub open spec fn write_failure(e: WriteError) -> ResponseView {
    match e {
        WriteError::ForwardToLeader { leader_addr: Some(addr) } => not_leader(addr@),
        WriteError::ForwardToLeader { leader_addr: None } => not_leader(Seq::empty()),
        WriteError::Other { message } => failure("internal"@, message@),
    }
}

pub fn map_raft_error(e: WriteError) -> (r: Response)
    ensures
        r@ == write_failure(e),
{
    match e {
        WriteError::ForwardToLeader { leader_addr } => {
            let addr = match leader_addr {
                Some(addr) => addr,
                None => String::new(),
            };
            resp_not_leader(addr)
        },
        WriteError::Other { message } => resp_error("internal", message),
    }
}

/// The answer to a request whose command was applied.
pub open spec fn reply_to(r: AppResponseView) -> ResponseView {
    match r {
        AppResponseView::Produced { offset } => ResponseView::Produced { offset },
        AppResponseView::Polled { items } => polled(items),
        AppResponseView::ProducedMany { .. } => failure(
            "internal"@,
            "unexpected batched produce response"@,
        ),
        _ => ResponseView::Done,
    }
}

pub fn app_response_to_proto(r: AppResponse) -> (out: Response)
    ensures
        out@ == reply_to(r@),
{
    match r {
        AppResponse::Produced { offset } => Response::Produced { offset },
        AppResponse::Polled { items } => resp_polled(items),
        AppResponse::Acked
        | AppResponse::Nacked
        | AppResponse::Committed
        | AppResponse::TopicCreated
        | AppResponse::TopicDeleted
        | AppResponse::RateLimitSet
        | AppResponse::RetentionSet
        | AppResponse::NoOp => resp_ok(),
        AppResponse::ProducedMany { offsets: _ } => resp_error(
            "internal",
            "unexpected batched produce response".to_owned(),
        ),
    }
}

/// How the Raft node stands.
#[derive(Debug, Clone, Copy, PartialEq, Eq)]
pub struct RaftStatus {
    pub id: NodeId,
    pub current_leader: Option<NodeId>,
    pub current_term: u64,
    pub last_log_index: Option<u64>,
    pub last_applied: Option<u64>,
    pub millis_since_quorum_ack: Option<u64>,
}

/// The number, or zero where there is none.
pub open spec fn or_zero(n: Option<u64>) -> u64 {
    match n {
        Some(n) => n,
        None => 0,
    }
}

pub fn value_or_zero(n: Option<u64>) -> (r: u64)
    ensures
        r == or_zero(n),
{
    match n {
        Some(n) => n,
        None => 0,
    }
}

impl RaftStatus {
    /// Whether the node itself is the leader.
    pub fn is_leader(&self) -> (r: bool)
        ensures
            r == (self.current_leader == Some(self.id)),
    {
        match self.current_leader {
            Some(id) => id == self.id,
            None => false,
        }
    }
}

/// The answer to a request for the node's figures.
pub fn stats_response(raft: &RaftStatus, queue: &QueueMetrics) -> (r: Response)
    ensures
        r@ == ResponseView::Stats(
            StatsReply {
                last_applied: or_zero(raft.last_applied),
                current_leader: or_zero(raft.current_leader),
                current_term: raft.current_term,
                last_log_index: or_zero(raft.last_log_index),
                is_leader: raft.current_leader == Some(raft.id),
                topics: queue.topics,
                messages: queue.messages,
                in_flight: queue.in_flight,
            },
        ),
{
    Response::Stats(
        StatsReply {
            last_applied: value_or_zero(raft.last_applied),
            current_leader: value_or_zero(raft.current_leader),
            current_term: raft.current_term,
            last_log_index: value_or_zero(raft.last_log_index),
            is_leader: raft.is_leader(),
            topics: queue.topics,
            messages: queue.messages,
            in_flight: queue.in_flight,
        },
    )
}

/// The address of the leader: that of the member with the leader's number, or
/// nothing where there is none.
pub open spec fn address_of(leader: Option<NodeId>, members: Seq<Node>) -> Seq<char>
    decreases members.len(),
{
    if leader is None || members.len() == 0 {
        Seq::empty()
    } else if members[0].id == leader->Some_0 {
        members[0].peer_addr@
    } else {
        address_of(leader, members.skip(1))
    }
}

pub fn leader_addr(leader: Option<NodeId>, members: &Vec<Node>) -> (r: String)
    ensures
        r@ == address_of(leader, members@),
{
    match leader {
        Some(id) => {
            let mut i: usize = 0;
            assert(members@.skip(0) =~= members@);
            while i < members.len()
                invariant
                    i <= members@.len(),
                    leader == Some(id),
                    address_of(leader, members@) == address_of(leader, members@.skip(i as int)),
                decreases members@.len() - i,
            {
                if members[i].id == id {
                    return members[i].peer_addr.clone();
                }
                assert(members@.skip(i as int).skip(1) =~= members@.skip(i + 1));
                i += 1;
            }
            String::new()
        },
        None => String::new(),
    }
}

/// What is said of a payload that is too large.
pub open spec fn too_large_message(len: nat) -> Seq<char> {
    "payload is "@ + decimal(len) + " bytes; max is "@ + decimal(MAX_PAYLOAD_BYTES as nat)
}

/// The answer to a payload of that length, where it is too large.
pub open spec fn payload_refusal(len: nat) -> Option<ResponseView> {
    if len > MAX_PAYLOAD_BYTES {
        Some(failure("payload_too_large"@, too_large_message(len)))
    } else {
        None
    }
}

/// Refuses a payload that is too large.
pub fn check_payload(payload: &Vec<u8>) -> (r: Option<Response>)
    ensures
        match r {
            Some(resp) => payload_refusal(payload@.len()) == Some(resp@),
            None => payload_refusal(payload@.len()) is None,
        },
{
    if payload.len() <= MAX_PAYLOAD_BYTES {
        return None;
    }
    let mut message = "payload is ".to_owned();
    append_decimal(&mut message, payload.len() as u64);
    message.append(" bytes; max is ");
    append_decimal(&mut message, MAX_PAYLOAD_BYTES as u64);
    assert(message@ =~= too_large_message(payload@.len()));
    Some(resp_error("payload_too_large", message))
}

} // verus!
