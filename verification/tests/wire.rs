//! Requests, batches, frames, pages and errors.
use std::collections::BTreeSet;

use hermesmq::batching::{batch_acks, batch_replies, AckJob, BatchOutcome, ProduceBatch};
use hermesmq::command::{AppRequest, AppResponse, Delivered};
use hermesmq::error::Error;
use hermesmq::frame::{body_len, encode_frame, frame_header, FrameError};
use hermesmq::http::{handle, path_of, request_path, route};
use hermesmq::peers::{end_call, start_call, CallEnd, CallStep};
use hermesmq::protocol::{
    app_response_to_proto, ct_from_u32, ct_to_u32, map_raft_error, resp_polled, stats_response, Ack,
    DeliveredItem, ErrorReply, Node, Poll, Produce, RaftStatus, Request, Response, StatsReply, Subscribe,
    WriteError, MAX_PAYLOAD_BYTES,
};
use hermesmq::queue::QueueMetrics;
use hermesmq::requests::{
    bootstrap_response, cluster_members, deletion_succeeded, handle_request, on_client_frame, FrameAction,
    Initialized, Plan,
};
use hermesmq::types::{ContentType, GroupId, Priority, TopicId};

fn error(code: &str, message: &str) -> Response {
    Response::Error(ErrorReply {
        code: code.to_string(),
        message: message.to_string(),
        leader_addr: String::new(),
        retry_after_ms: 0,
    })
}

fn produce(topic: &str, len: usize) -> Produce {
    Produce {
        topic: topic.to_string(),
        priority: 9,
        content_type: 2,
        payload: vec![7; len],
        producer_id: "p".to_string(),
        seq: 4,
    }
}

fn status() -> RaftStatus {
    RaftStatus {
        id: 3,
        current_leader: Some(3),
        current_term: 7,
        last_log_index: Some(12),
        last_applied: Some(11),
        millis_since_quorum_ack: None,
    }
}

fn metrics() -> QueueMetrics {
    QueueMetrics { topics: 1, messages: 20, in_flight: 300 }
}

fn planned(req: Request) -> Plan {
    handle_request(Some(req))
}

#[test]
fn numbers_are_written_in_decimal() {
    for n in [0u64, 9, 10, 99, 100, 1_234_567_890, u64::MAX] {
        let text = Error::RateLimited { retry_after_ms: n }.message();
        assert_eq!(text, format!("rate limited; retry after {n}ms"));
    }
}

#[test]
fn content_types_round_trip() {
    for c in [ContentType::Raw, ContentType::Text, ContentType::Json, ContentType::MsgPack] {
        assert_eq!(ct_from_u32(ct_to_u32(c)), c);
    }
    assert_eq!(ct_from_u32(77), ContentType::Raw);
    assert_eq!(ct_to_u32(ContentType::MsgPack), 3);
}

#[test]
fn rejects_oversized_payload() {
    match planned(Request::Produce(produce("big", MAX_PAYLOAD_BYTES + 1))) {
        Plan::Reply(r) => {
            assert_eq!(r, error("payload_too_large", "payload is 1048577 bytes; max is 1048576"));
        }
        other => panic!("expected payload_too_large error, got {other:?}"),
    }
    assert!(matches!(planned(Request::Produce(produce("big", MAX_PAYLOAD_BYTES))), Plan::Produce(_)));
}

#[test]
fn requests_become_plans() {
    let t = || "t".to_string();
    let g = || "g".to_string();
    assert!(matches!(handle_request(None), Plan::Reply(r) if r == error("bad_request", "empty request")));
    assert!(matches!(planned(Request::Stats), Plan::Stats));
    assert!(matches!(planned(Request::Bootstrap { nodes: vec![] }), Plan::Bootstrap { nodes } if nodes.is_empty()));
    let poll = Poll { topic: t(), group: g(), max: 1, visibility_timeout_ms: 2, ack_mode: t(), wait_ms: 3 };
    assert!(matches!(planned(Request::Poll(poll.clone())), Plan::Poll(p) if p == poll));
    let ack = Ack { topic: t(), group: g(), lease_id: 5 };
    assert!(matches!(planned(Request::Ack(ack.clone())), Plan::Acknowledge { ack: a, nack: false } if a == ack));
    assert!(matches!(planned(Request::Nack(ack.clone())), Plan::Acknowledge { ack: a, nack: true } if a == ack));
    let writes = |req: Request, want: AppRequest| match planned(req) {
        Plan::Write(got) => assert_eq!(got, want),
        other => panic!("unexpected {other:?}"),
    };
    writes(
        Request::SetRateLimit { topic: t(), rate_milli_per_sec: 1500, burst: 2 },
        AppRequest::SetRateLimit { topic: TopicId(t()), rate_milli_per_sec: 1500, burst: 2 },
    );
    writes(
        Request::SetRetention { topic: t(), max_messages: 1, max_age_ms: 2 },
        AppRequest::SetRetention { topic: TopicId(t()), max_messages: 1, max_age_ms: 2 },
    );
    writes(
        Request::Commit { topic: t(), group: g(), offset: 8 },
        AppRequest::CommitOffset { topic: TopicId(t()), group: GroupId(g()), offset: 8 },
    );
    writes(Request::CreateTopic { topic: t() }, AppRequest::CreateTopic { topic: TopicId(t()) });
    match planned(Request::DeleteTopic { topic: t() }) {
        Plan::Delete { topic, command } => {
            assert_eq!(topic, "t");
            assert_eq!(command, AppRequest::DeleteTopic { topic: TopicId(t()) });
        }
        other => panic!("unexpected {other:?}"),
    }
    let sub = Subscribe { topic: t(), group: g(), prefetch: 1, visibility_timeout_ms: 1, ack_mode: t() };
    assert!(matches!(
        planned(Request::Subscribe(sub)),
        Plan::Reply(r) if r == error("bad_request", "subscribe takes over its connection")
    ));
    assert!(deletion_succeeded(&Response::Done));
    assert!(!deletion_succeeded(&error("internal", "")));
}

#[test]
fn frames_of_clients_are_sorted() {
    let sub = Subscribe {
        topic: "t".to_string(),
        group: "g".to_string(),
        prefetch: 1,
        visibility_timeout_ms: 1,
        ack_mode: "auto".to_string(),
    };
    assert!(matches!(on_client_frame(Err("broken".to_string())), FrameAction::Reply(r) if r == error("bad_request", "broken")));
    assert!(matches!(on_client_frame(Ok(Some(Request::Subscribe(sub.clone())))), FrameAction::Subscribe(s) if s == sub));
    assert!(matches!(on_client_frame(Ok(Some(Request::Stats))), FrameAction::Handle(Some(Request::Stats))));
    assert!(matches!(on_client_frame(Ok(None)), FrameAction::Handle(None)));
}

#[test]
fn cluster_members_take_the_last_address() {
    let node = |id: u64, addr: &str| Node { id, peer_addr: addr.to_string() };
    let m = cluster_members(vec![node(2, "b"), node(1, "a"), node(2, "c")]);
    assert_eq!(m.into_iter().collect::<Vec<_>>(), vec![(1, "a".to_string()), (2, "c".to_string())]);
}

#[test]
fn bootstrap_is_idempotent() {
    assert_eq!(bootstrap_response(Initialized::Formed), Response::Done);
    assert_eq!(bootstrap_response(Initialized::NotAllowed), Response::Done);
    assert_eq!(
        bootstrap_response(Initialized::Failed { message: "no quorum".to_string() }),
        error("bootstrap_failed", "no quorum")
    );
}

#[test]
fn answers_to_commands() {
    assert_eq!(app_response_to_proto(AppResponse::Produced { offset: 4 }), Response::Produced { offset: 4 });
    for r in [
        AppResponse::Acked,
        AppResponse::Nacked,
        AppResponse::Committed,
        AppResponse::TopicCreated,
        AppResponse::TopicDeleted,
        AppResponse::RateLimitSet,
        AppResponse::RetentionSet,
        AppResponse::NoOp,
    ] {
        assert_eq!(app_response_to_proto(r), Response::Done);
    }
    assert_eq!(
        app_response_to_proto(AppResponse::ProducedMany { offsets: vec![1] }),
        error("internal", "unexpected batched produce response")
    );
    let d = Delivered {
        lease_id: 1,
        offset: 2,
        priority: Priority(3),
        content_type: ContentType::Text,
        payload: vec![4],
        ts_ms: 5,
    };
    let item = DeliveredItem { lease_id: 1, offset: 2, priority: 3, content_type: 1, payload: vec![4], ts_ms: 5 };
    assert_eq!(resp_polled(vec![d.clone()]), Response::Polled { items: vec![item.clone()] });
    let polled = app_response_to_proto(AppResponse::Polled { items: vec![d] });
    assert_eq!(polled.clone(), polled);
    assert_eq!(polled, Response::Polled { items: vec![item] });
}

#[test]
fn write_errors_become_answers() {
    match map_raft_error(WriteError::ForwardToLeader { leader_addr: None }) {
        Response::Error(e) => {
            assert_eq!(e.code, "not_leader");
            assert_eq!(e.message, "not the leader; retry against leader_addr");
            assert_eq!(e.leader_addr, "");
        }
        other => panic!("unexpected {other:?}"),
    }
    assert_eq!(map_raft_error(WriteError::Other { message: "x".to_string() }), error("internal", "x"));
}

#[test]
fn stats_are_those_of_the_node() {
    assert_eq!(
        stats_response(&status(), &metrics()),
        Response::Stats(StatsReply {
            last_applied: 11,
            current_leader: 3,
            current_term: 7,
            last_log_index: 12,
            is_leader: true,
            topics: 1,
            messages: 20,
            in_flight: 300,
        })
    );
    let fresh = RaftStatus { id: 3, current_leader: None, current_term: 0, last_log_index: None, last_applied: None, millis_since_quorum_ack: None };
    match stats_response(&fresh, &metrics()) {
        Response::Stats(s) => assert_eq!((s.last_applied, s.current_leader, s.last_log_index, s.is_leader), (0, 0, 0, false)),
        other => panic!("unexpected {other:?}"),
    }
}

#[test]
fn produced_messages_are_batched_in_order() {
    let mut b = ProduceBatch::new(produce("a", 3));
    b.push(produce("b", 1));
    b.push(produce("a", 2));
    assert!(b.wants_more());
    let (command, topics) = b.seal(99);
    assert_eq!(topics, vec!["a".to_string(), "b".to_string()]);
    match command {
        AppRequest::ProduceMany { items } => {
            assert_eq!(items.len(), 3);
            assert_eq!(items[0].priority, Priority(7));
            assert_eq!(items[0].content_type, ContentType::Json);
            assert_eq!((items[1].topic.0.as_str(), items[1].payload.len(), items[1].ts_ms, items[1].seq), ("b", 1, 99, 4));
        }
        other => panic!("unexpected {other:?}"),
    }
}

#[test]
fn batches_are_bounded_by_number_and_by_bytes() {
    let mut b = ProduceBatch::new(produce("a", 0));
    let mut n = 1;
    while b.wants_more() {
        b.push(produce("a", 0));
        n += 1;
    }
    assert_eq!(n, 256);
    let mut b = ProduceBatch::new(produce("a", 524_287));
    assert!(b.wants_more());
    b.push(produce("a", 1));
    assert!(!b.wants_more());
}

#[test]
fn batches_are_answered_one_by_one() {
    let r = batch_replies(BatchOutcome::Offsets(vec![5, 6]), 3);
    assert_eq!(r, vec![Some(Response::Produced { offset: 5 }), Some(Response::Produced { offset: 6 }), None]);
    let r = batch_replies(BatchOutcome::Unexpected { shown: "NoOp".to_string() }, 2);
    assert_eq!(r, vec![Some(error("internal", "unexpected batch response: NoOp")); 2]);
    let r = batch_replies(BatchOutcome::Failed(WriteError::Other { message: "down".to_string() }), 1);
    assert_eq!(r, vec![Some(error("internal", "down"))]);
}

#[test]
fn acks_are_batched_by_topic_group_and_kind() {
    let job = |topic: &str, group: &str, lease_id: u64, nack: bool| AckJob {
        topic: topic.to_string(),
        group: group.to_string(),
        lease_id,
        nack,
    };
    let jobs = vec![
        job("b", "g", 1, false),
        job("a", "h", 2, false),
        job("a", "g", 3, true),
        job("b", "g", 4, false),
        job("a", "g", 5, false),
        job("a", "g", 6, true),
    ];
    let got: Vec<_> = batch_acks(&jobs)
        .into_iter()
        .map(|b| (b.topic.clone(), b.group.clone(), b.nack, b.lease_ids.clone(), b.jobs.clone(), b.command()))
        .collect();
    let shape: Vec<_> = got.iter().map(|b| (b.0.as_str(), b.1.as_str(), b.2, b.3.clone(), b.4.clone())).collect();
    assert_eq!(
        shape,
        vec![
            ("a", "g", false, vec![5], vec![4]),
            ("a", "g", true, vec![3, 6], vec![2, 5]),
            ("a", "h", false, vec![2], vec![1]),
            ("b", "g", false, vec![1, 4], vec![0, 3]),
        ]
    );
    assert_eq!(
        got[1].5,
        AppRequest::NackMany { topic: TopicId::from("a"), group: GroupId::from("g"), lease_ids: vec![3, 6] }
    );
    assert_eq!(
        got[3].5,
        AppRequest::AckMany { topic: TopicId::from("b"), group: GroupId::from("g"), lease_ids: vec![1, 4] }
    );
    assert!(batch_acks(&Vec::new()).is_empty());
}

#[test]
fn frames_carry_their_length() {
    assert_eq!(frame_header(0x0102_0304), [1, 2, 3, 4]);
    let f = encode_frame(&b"hello".to_vec());
    assert_eq!(f, b"\x00\x00\x00\x05hello");
    assert_eq!(body_len([f[0], f[1], f[2], f[3]]), Ok(5));
    assert_eq!(encode_frame(&Vec::new()), vec![0, 0, 0, 0]);
}

#[test]
fn oversized_frames_are_refused() {
    assert_eq!(body_len([4, 0, 0, 0]), Ok(64 * 1024 * 1024));
    assert_eq!(body_len([4, 0, 0, 1]), Err(FrameError::TooLarge));
    assert_eq!(body_len([255, 255, 255, 255]), Err(FrameError::TooLarge));
}

#[test]
fn the_path_is_the_second_word() {
    assert_eq!(request_path("GET /health HTTP/1.1\r\nhost: x\r\n\r\n"), "/health");
    assert_eq!(request_path("  GET\t/a\u{a0}b"), "/a");
    assert_eq!(request_path("GET"), "/");
    assert_eq!(request_path(""), "/");
    assert_eq!(request_path("GET  "), "/");
    assert_eq!(path_of(&b"GET /m\xc3\xbc X".to_vec()), "/mü");
    assert_eq!(path_of(&b"GET /\xff X".to_vec()), "/\u{fffd}");
}

#[test]
fn white_space_parts_words() {
    let listed = |c: char| {
        matches!(
            c,
            '\u{9}'..='\u{d}'
                | ' '
                | '\u{85}'
                | '\u{a0}'
                | '\u{1680}'
                | '\u{2000}'..='\u{200a}'
                | '\u{2028}'
                | '\u{2029}'
                | '\u{202f}'
                | '\u{205f}'
                | '\u{3000}'
        )
    };
    for n in 0..=0x10ffffu32 {
        if let Some(c) = char::from_u32(n) {
            let path = request_path(&format!("a{c}b"));
            assert_eq!(path, if listed(c) { "b" } else { "/" }, "character {n:x}");
        }
    }
}

#[test]
fn http_health_ready_metrics() {
    let get = |path: &str, s: &RaftStatus| route(path, s, &metrics(), true);
    let health = get("/health", &status());
    assert_eq!((health.status.as_str(), health.content_type.as_str(), health.body.as_str()), ("200 OK", "text/plain", "ok\n"));
    assert_eq!(get("/ready", &status()).body, "ready\n");
    let alone = RaftStatus { current_leader: None, ..status() };
    let p = get("/ready", &alone);
    assert_eq!((p.status.as_str(), p.body.as_str()), ("503 Service Unavailable", "not ready\n"));
    let m = get("/metrics", &status());
    assert_eq!((m.status.as_str(), m.content_type.as_str()), ("200 OK", "text/plain; version=0.0.4"));
    assert!(m.body.contains("hermesmq_raft_is_leader"), "metrics body: {}", m.body);
    assert!(m.body.contains("hermesmq_topics"));
    let nope = get("/nope", &status());
    assert_eq!((nope.status.as_str(), nope.body.as_str()), ("404 Not Found", "not found\n"));
}

#[test]
fn http_metrics_can_be_disabled() {
    let p = route("/metrics", &status(), &metrics(), false);
    assert_eq!((p.status.as_str(), p.body.as_str()), ("404 Not Found", "metrics disabled\n"));
    assert_eq!(route("/health", &status(), &metrics(), false).status, "200 OK");
    assert_eq!(route("/ready", &status(), &metrics(), false).status, "200 OK");
}

#[test]
fn metrics_page_is_exact() {
    let body = route("/metrics", &status(), &metrics(), true).body;
    let expected = "# HELP hermesmq_raft_term Current Raft term\n\
        # TYPE hermesmq_raft_term gauge\n\
        hermesmq_raft_term{node=\"3\"} 7\n\
        # HELP hermesmq_raft_is_leader 1 if this node is the leader\n\
        # TYPE hermesmq_raft_is_leader gauge\n\
        hermesmq_raft_is_leader{node=\"3\"} 1\n\
        # HELP hermesmq_raft_current_leader Current leader node id (0 if none)\n\
        # TYPE hermesmq_raft_current_leader gauge\n\
        hermesmq_raft_current_leader{node=\"3\"} 3\n\
        # HELP hermesmq_raft_last_log_index Last log index appended\n\
        # TYPE hermesmq_raft_last_log_index gauge\n\
        hermesmq_raft_last_log_index{node=\"3\"} 12\n\
        # HELP hermesmq_raft_last_applied Last log index applied to the state machine\n\
        # TYPE hermesmq_raft_last_applied gauge\n\
        hermesmq_raft_last_applied{node=\"3\"} 11\n\
        # HELP hermesmq_raft_millis_since_quorum_ack Replication lag: ms since last quorum ack (leader only)\n\
        # TYPE hermesmq_raft_millis_since_quorum_ack gauge\n\
        hermesmq_raft_millis_since_quorum_ack{node=\"3\"} 0\n\
        # HELP hermesmq_topics Number of topics\n\
        # TYPE hermesmq_topics gauge\n\
        hermesmq_topics{node=\"3\"} 1\n\
        # HELP hermesmq_messages Number of retained messages across topics\n\
        # TYPE hermesmq_messages gauge\n\
        hermesmq_messages{node=\"3\"} 20\n\
        # HELP hermesmq_in_flight Number of leased (in-flight) messages\n\
        # TYPE hermesmq_in_flight gauge\n\
        hermesmq_in_flight{node=\"3\"} 300\n";
    assert_eq!(body, expected);
}

#[test]
fn http_answers_are_framed() {
    let answer = handle(&b"GET /health HTTP/1.1\r\n\r\n".to_vec(), &status(), &metrics(), true);
    assert_eq!(
        answer,
        "HTTP/1.1 200 OK\r\ncontent-type: text/plain\r\ncontent-length: 3\r\nconnection: close\r\n\r\nok\n"
    );
}

#[test]
fn errors_in_words() {
    assert_eq!(Error::Io("gone".to_string()).message(), "io error: gone");
    assert_eq!(Error::Storage("full".to_string()).message(), "storage error: full");
    assert_eq!(Error::NotLeader(None).message(), "not leader; current leader: None");
    assert_eq!(
        Error::NotLeader(Some("a\"b".to_string())).message(),
        "not leader; current leader: Some(\"a\\\"b\")"
    );
    assert_eq!(Error::UnknownTopic("t".to_string()).message(), "unknown topic: t");
    assert_eq!(Error::RateLimited { retry_after_ms: 12 }.message(), "rate limited; retry after 12ms");
}

#[test]
fn calls_keep_to_one_connection() {
    let none = BTreeSet::new();
    let cut_off = BTreeSet::from([2u64]);
    assert_eq!(start_call(&cut_off, 2, true), CallStep::Refuse);
    assert_eq!(start_call(&cut_off, 3, true), CallStep::Reuse);
    assert_eq!(start_call(&none, 2, false), CallStep::Connect);
    assert_eq!(end_call(CallStep::Reuse, true), CallEnd::Answered);
    assert_eq!(end_call(CallStep::Reuse, false), CallEnd::Again);
    assert_eq!(end_call(CallStep::Connect, true), CallEnd::Answered);
    assert_eq!(end_call(CallStep::Connect, false), CallEnd::Unreachable);
    assert_eq!(end_call(CallStep::Refuse, true), CallEnd::Unreachable);
}

#[test]
fn words_are_parted_by_white_space() {
    for n in 0..0x1_0000u32 {
        if let Some(c) = char::from_u32(n) {
            let expected = if c.is_whitespace() { "/x" } else { "/" };
            assert_eq!(path_of(&format!("GET{c}/x").into_bytes()), expected, "{n:x}");
        }
    }
}
