//! Identifiers and the message record shared by every part of the queue.
use vstd::prelude::*;

verus! {

/// Identifies a node of the cluster.
pub type NodeId = u64;

/// Position of a message in the log of its topic.
pub type Offset = u64;

/// Identifies one lease of one message to one consumer.
pub type LeaseId = u64;

/// The name of a topic.
#[derive(Debug, PartialEq, Eq, Hash, PartialOrd, Ord)]
pub struct TopicId(pub String);

/// The name of a consumer group.
#[derive(Debug, PartialEq, Eq, Hash, PartialOrd, Ord)]
pub struct GroupId(pub String);

impl View for TopicId {
    type V = Seq<char>;

    open spec fn view(&self) -> Seq<char> {
        self.0@
    }
}

impl View for GroupId {
    type V = Seq<char>;

    open spec fn view(&self) -> Seq<char> {
        self.0@
    }
}

impl Clone for TopicId {
    fn clone(&self) -> (r: Self)
        ensures
            r@ == self@,
    {
        TopicId(self.0.clone())
    }
}

impl Clone for GroupId {
    fn clone(&self) -> (r: Self)
        ensures
            r@ == self@,
    {
        GroupId(self.0.clone())
    }
}

impl TopicId {
    /// The name as text.
    pub fn to_string(&self) -> (r: String)
        ensures
            r@ == self@,
    {
        self.0.clone()
    }
}

impl GroupId {
    /// The name as text.
    pub fn to_string(&self) -> (r: String)
        ensures
            r@ == self@,
    {
        self.0.clone()
    }
}

impl From<&str> for TopicId {
    fn from(s: &str) -> (r: Self)
        ensures
            r@ == s@,
    {
        TopicId(s.to_owned())
    }
}

impl vstd::std_specs::convert::FromSpecImpl<&str> for TopicId {
    open spec fn obeys_from_spec() -> bool {
        false
    }

    open spec fn from_spec(s: &str) -> Self {
        arbitrary()
    }
}

impl From<&str> for GroupId {
    fn from(s: &str) -> (r: Self)
        ensures
            r@ == s@,
    {
        GroupId(s.to_owned())
    }
}

impl vstd::std_specs::convert::FromSpecImpl<&str> for GroupId {
    open spec fn obeys_from_spec() -> bool {
        false
    }

    open spec fn from_spec(s: &str) -> Self {
        arbitrary()
    }
}

/// Names one message of one topic.
#[derive(Debug, Clone, PartialEq, Eq, Hash)]
pub struct MessageId {
    pub topic: TopicId,
    pub offset: Offset,
}

/// How urgent a message is: the larger number is delivered first.
#[derive(Debug, Clone, Copy, PartialEq, Eq, Hash, PartialOrd, Ord, Default)]
pub struct Priority(pub u8);

/// What the payload bytes hold; carried along, never interpreted.
#[derive(Debug, Clone, Copy, PartialEq, Eq, Default)]
pub enum ContentType {
    #[default]
    Raw,
    Text,
    Json,
    MsgPack,
}

/// Whether the consumer or the server acknowledges a delivery.
#[derive(Debug, Clone, Copy, PartialEq, Eq, Default)]
pub enum AckModeKind {
    #[default]
    Manual,
    Auto,
}

/// The acknowledgement mode of a subscription.
#[derive(Debug, Clone, PartialEq, Eq)]
pub struct AckMode(pub AckModeKind);

/// A message as it lies in the log of its topic.
#[derive(Debug, Clone, PartialEq, Eq)]
pub struct Message {
    pub offset: Offset,
    pub priority: Priority,
    pub content_type: ContentType,
    pub payload: Vec<u8>,
    pub ts_ms: u64,
}

/// The mathematical value of a [`Message`].
pub struct MessageView {
    pub offset: Offset,
    pub priority: Priority,
    pub content_type: ContentType,
    pub payload: Seq<u8>,
    pub ts_ms: u64,
}

impl View for Message {
    type V = MessageView;

    open spec fn view(&self) -> MessageView {
        MessageView {
            offset: self.offset,
            priority: self.priority,
            content_type: self.content_type,
            payload: self.payload@,
            ts_ms: self.ts_ms,
        }
    }
}

} // verus!
