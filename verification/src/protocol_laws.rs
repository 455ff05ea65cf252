//! What a client reads out of the answers.
use crate::command::{AppResponseView, DeliveredView};
use crate::protocol::{
    address_of, content_type_number, content_type_of, failure, not_leader, or_zero, payload_refusal,
    polled, rate_limited, reply_to, write_failure, DeliveredItemView, Node, ResponseView,
    WriteError,
};
use crate::text::decimal;
use crate::types::{ContentType, NodeId};
use vstd::prelude::*;

verus! {

/// The client reads of a delivery what the delivery says.
pub open spec fn reads_as(item: DeliveredItemView, d: DeliveredView) -> bool {
    &&& item.lease_id == d.lease_id
    &&& item.offset == d.offset
    &&& item.priority == d.priority.0
    &&& item.payload == d.payload
    &&& item.ts_ms == d.ts_ms
    &&& content_type_of(item.content_type) == d.content_type
}

/// A client that polls is sent every delivery, in the order of delivery, and reads of each
/// what it says: its lease, its offset, its priority, its content type, its payload and its
/// time.
pub proof fn every_delivery_goes_out_as_it_is(items: Seq<DeliveredView>)
    ensures
        polled(items) matches ResponseView::Polled { items: out } && out.len() == items.len()
            && forall|i: int| 0 <= i < items.len() ==> reads_as(#[trigger] out[i], items[i]),
{
}

/// The content types have the numbers of the protocol, and a number beyond them is read as
/// raw.
pub proof fn content_types_have_their_numbers(c: ContentType, v: u32)
    ensures
        content_type_number(c) <= 3,
        content_type_of(content_type_number(c)) == c,
        v <= 3 ==> content_type_number(content_type_of(v)) == v,
        v > 3 ==> content_type_of(v) == ContentType::Raw,
        c is Raw <==> content_type_number(c) == 0,
        c is Text <==> content_type_number(c) == 1,
        c is Json <==> content_type_number(c) == 2,
        c is MsgPack <==> content_type_number(c) == 3,
{
}

/// A command that was applied is answered by what came of it: an offset with the offset,
/// deliveries with the deliveries, and anything else with success. Offsets of a whole batch
/// are not for one client: they are an error.
pub proof fn an_answer_says_what_came_of_the_command(r: AppResponseView)
    ensures
        r matches AppResponseView::Produced { offset } ==> reply_to(r) == (ResponseView::Produced {
            offset,
        }),
        r matches AppResponseView::Polled { items } ==> (reply_to(
            r,
        ) matches ResponseView::Polled { items: out } && out.len() == items.len() && forall|i: int|
            0 <= i < items.len() ==> reads_as(#[trigger] out[i], items[i])),
        r is ProducedMany <==> reply_to(r) is Error,
        r is Acked || r is Nacked || r is Committed || r is TopicCreated || r is TopicDeleted
            || r is RateLimitSet || r is RetentionSet || r is NoOp <==> reply_to(r) is Done,
{
}

/// A write that another node has to take is answered with that node's address, or with none
/// where it is not known; any other failure is told in its words. Each answer says what went
/// wrong in a word of its own, and none but that of a used up rate says when to come back.
pub proof fn a_failure_says_what_went_wrong(e: WriteError, addr: Seq<char>, retry_after_ms: u64)
    ensures
        e matches WriteError::ForwardToLeader { leader_addr } ==> (write_failure(
            e,
        ) matches ResponseView::Error { code, leader_addr: told, retry_after_ms: r, .. } && code
            == "not_leader"@ && told == (match leader_addr {
            Some(a) => a@,
            None => Seq::empty(),
        }) && r == 0),
        e matches WriteError::Other { message } ==> (write_failure(e) matches ResponseView::Error {
            code,
            message: words,
            leader_addr: told,
            retry_after_ms: r,
        } && code == "internal"@ && words == message@ && told.len() == 0 && r == 0),
        not_leader(addr) matches ResponseView::Error { code, leader_addr: told, .. } && code
            == "not_leader"@ && told == addr,
        rate_limited(retry_after_ms) matches ResponseView::Error {
            code,
            retry_after_ms: r,
            leader_addr: told,
            ..
        } && code == "rate_limited"@ && r == retry_after_ms && told.len() == 0,
{
}

/// The address that a client is sent to is that of the first member with the leader's
/// number; there is none where no leader is known, or none of the members is it.
pub proof fn a_client_is_sent_to_the_leader(leader: Option<NodeId>, members: Seq<Node>, i: int)
    ensures
        leader is None ==> address_of(leader, members).len() == 0,
        (leader matches Some(id) && forall|k: int|
            0 <= k < members.len() ==> (#[trigger] members[k]).id != id) ==> address_of(
            leader,
            members,
        ).len() == 0,
        (leader matches Some(id) && 0 <= i < members.len() && members[i].id == id && forall|k: int|
            0 <= k < i ==> (#[trigger] members[k]).id != id) ==> address_of(leader, members)
            == members[i].peer_addr@,
    decreases members.len(),
{
    if leader is Some && members.len() > 0 && members[0].id != leader->Some_0 {
        let rest = members.skip(1);
        a_client_is_sent_to_the_leader(leader, rest, i - 1);
        assert forall|k: int| 0 <= k < rest.len() implies #[trigger] rest[k] == members[k + 1] by {}
    }
}

/// A payload of a mebibyte is taken, and every larger one is refused, with its length in the
/// message.
pub proof fn a_payload_may_have_a_mebibyte(len: nat)
    ensures
        payload_refusal(len) is None <==> len <= 1_048_576,
        payload_refusal(len) matches Some(answer) ==> (answer matches ResponseView::Error {
            code,
            message,
            ..
        } && code == "payload_too_large"@ && message == "payload is "@ + decimal(len)
            + " bytes; max is "@ + decimal(1_048_576)),
{
}

/// A failure carries the word and the message it was given, and no address and no time.
pub proof fn a_failure_is_told_as_given(code: Seq<char>, message: Seq<char>)
    ensures
        failure(code, message) matches ResponseView::Error {
            code: c,
            message: m,
            leader_addr,
            retry_after_ms,
        } && c == code && m == message && leader_addr.len() == 0 && retry_after_ms == 0,
{
}

/// A figure that is not known is shown as zero, and any other as it is.
pub proof fn an_unknown_figure_is_zero(n: Option<u64>)
    ensures
        n is None ==> or_zero(n) == 0,
        n matches Some(v) ==> or_zero(n) == v,
{
}

} // verus!
