//! The commands that the replicated log carries, and their answers.
use crate::types::{ContentType, GroupId, LeaseId, Offset, Priority, TopicId};
use vstd::prelude::*;

verus! {

/// A command of the replicated log.
#[derive(Debug, Clone, PartialEq, Eq)]
pub enum AppRequest {
    Produce {
        topic: TopicId,
        priority: Priority,
        content_type: ContentType,
        payload: Vec<u8>,
        producer_id: String,
        seq: u64,
        ts_ms: u64,
    },
    Poll { topic: TopicId, group: GroupId, max: u32, visibility_timeout_ms: u64, ts_ms: u64 },
    Ack { topic: TopicId, group: GroupId, lease_id: LeaseId },
    Nack { topic: TopicId, group: GroupId, lease_id: LeaseId },
    CommitOffset { topic: TopicId, group: GroupId, offset: Offset },
    CreateTopic { topic: TopicId },
    DeleteTopic { topic: TopicId },
    SetRateLimit { topic: TopicId, rate_milli_per_sec: u64, burst: u32 },
    SetRetention { topic: TopicId, max_messages: u64, max_age_ms: u64 },
    AckMany { topic: TopicId, group: GroupId, lease_ids: Vec<LeaseId> },
    ProduceMany { items: Vec<ProduceItem> },
    NackMany { topic: TopicId, group: GroupId, lease_ids: Vec<LeaseId> },
}

/// One message to be appended to a topic.
#[derive(Debug, Clone, PartialEq, Eq)]
pub struct ProduceItem {
    pub topic: TopicId,
    pub priority: Priority,
    pub content_type: ContentType,
    pub payload: Vec<u8>,
    pub producer_id: String,
    pub seq: u64,
    pub ts_ms: u64,
}

/// The mathematical value of a [`ProduceItem`].
pub struct ProduceItemView {
    pub topic: Seq<char>,
    pub priority: Priority,
    pub content_type: ContentType,
    pub payload: Seq<u8>,
    pub producer_id: Seq<char>,
    pub seq: u64,
    pub ts_ms: u64,
}

impl View for ProduceItem {
    type V = ProduceItemView;

    open spec fn view(&self) -> ProduceItemView {
        ProduceItemView {
            topic: self.topic@,
            priority: self.priority,
            content_type: self.content_type,
            payload: self.payload@,
            producer_id: self.producer_id@,
            seq: self.seq,
            ts_ms: self.ts_ms,
        }
    }
}

/// A message handed to a consumer, with the lease under which it is held.
#[derive(Debug, Clone, PartialEq, Eq)]
pub struct Delivered {
    pub lease_id: LeaseId,
    pub offset: Offset,
    pub priority: Priority,
    pub content_type: ContentType,
    pub payload: Vec<u8>,
    pub ts_ms: u64,
}

/// The mathematical value of a [`Delivered`].
pub struct DeliveredView {
    pub lease_id: LeaseId,
    pub offset: Offset,
    pub priority: Priority,
    pub content_type: ContentType,
    pub payload: Seq<u8>,
    pub ts_ms: u64,
}

impl View for Delivered {
    type V = DeliveredView;

    open spec fn view(&self) -> DeliveredView {
        DeliveredView {
            lease_id: self.lease_id,
            offset: self.offset,
            priority: self.priority,
            content_type: self.content_type,
            payload: self.payload@,
            ts_ms: self.ts_ms,
        }
    }
}

/// The answer to a command.
#[derive(Debug, Clone, PartialEq, Eq)]
pub enum AppResponse {
    Produced { offset: Offset },
    Polled { items: Vec<Delivered> },
    Acked,
    Nacked,
    Committed,
    TopicCreated,
    TopicDeleted,
    RateLimitSet,
    RetentionSet,
    NoOp,
    ProducedMany { offsets: Vec<Offset> },
}

/// The mathematical value of an [`AppResponse`].
pub enum AppResponseView {
    Produced { offset: Offset },
    Polled { items: Seq<DeliveredView> },
    Acked,
    Nacked,
    Committed,
    TopicCreated,
    TopicDeleted,
    RateLimitSet,
    RetentionSet,
    NoOp,
    ProducedMany { offsets: Seq<Offset> },
}

/// The values of a list of deliveries.
pub open spec fn delivered_views(items: Seq<Delivered>) -> Seq<DeliveredView> {
    Seq::new(items.len(), |i: int| items[i]@)
}

/// The values of a list of items.
pub open spec fn item_views(items: Seq<ProduceItem>) -> Seq<ProduceItemView> {
    Seq::new(items.len(), |i: int| items[i]@)
}

impl View for AppResponse {
    type V = AppResponseView;

    open spec fn view(&self) -> AppResponseView {
        match *self {
            AppResponse::Produced { offset } => AppResponseView::Produced { offset },
            AppResponse::Polled { items } => AppResponseView::Polled {
                items: delivered_views(items@),
            },
            AppResponse::Acked => AppResponseView::Acked,
            AppResponse::Nacked => AppResponseView::Nacked,
            AppResponse::Committed => AppResponseView::Committed,
            AppResponse::TopicCreated => AppResponseView::TopicCreated,
            AppResponse::TopicDeleted => AppResponseView::TopicDeleted,
            AppResponse::RateLimitSet => AppResponseView::RateLimitSet,
            AppResponse::RetentionSet => AppResponseView::RetentionSet,
            AppResponse::NoOp => AppResponseView::NoOp,
            AppResponse::ProducedMany { offsets } => AppResponseView::ProducedMany {
                offsets: offsets@,
            },
        }
    }
}

} // verus!
