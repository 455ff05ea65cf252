//! Pacing, polls, subscriptions and their tracking.
use hermesmq::batching::{takes_more_acks, AckJob};
use hermesmq::command::{AppRequest, AppResponse, Delivered};
use hermesmq::polling::{fitting_lease_time, leader_gate, PollAction, PollRun};
use hermesmq::protocol::{Ack, ErrorReply, Node, Poll, RaftStatus, Request, Response, Subscribe, WriteError};
use hermesmq::queue::Queue;
use hermesmq::rate::RateLimiter;
use hermesmq::subscription::{Leased, PushAction, SubAction, Subscription};
use hermesmq::tracking::{Delivery, SubTracking};
use hermesmq::types::{ContentType, GroupId, Priority, TopicId};

const SECOND: u64 = 1_000_000_000;

fn produce(q: &mut Queue, topic: &str) {
    q.apply(AppRequest::Produce {
        topic: TopicId::from(topic),
        priority: Priority(0),
        content_type: ContentType::Raw,
        payload: b"x".to_vec(),
        producer_id: String::new(),
        seq: 0,
        ts_ms: 0,
    });
}

fn limit(q: &mut Queue, topic: &str, rate_milli_per_sec: u64, burst: u32) {
    q.apply(AppRequest::SetRateLimit { topic: TopicId::from(topic), rate_milli_per_sec, burst });
}

fn poll_request(max: u32, ack_mode: &str, wait_ms: u64) -> Poll {
    Poll {
        topic: "t".to_string(),
        group: "g".to_string(),
        max,
        visibility_timeout_ms: 0,
        ack_mode: ack_mode.to_string(),
        wait_ms,
    }
}

fn leader() -> RaftStatus {
    RaftStatus {
        id: 1,
        current_leader: Some(1),
        current_term: 2,
        last_log_index: Some(9),
        last_applied: Some(8),
        millis_since_quorum_ack: Some(3),
    }
}

fn error_code(r: Response) -> (String, u64) {
    match r {
        Response::Error(ErrorReply { code, retry_after_ms, .. }) => (code, retry_after_ms),
        other => panic!("expected an error, got {other:?}"),
    }
}

fn polled_len(r: Response) -> usize {
    match r {
        Response::Polled { items } => items.len(),
        other => panic!("expected Polled, got {other:?}"),
    }
}

#[test]
fn a_new_bucket_is_full() {
    let mut l = RateLimiter::default();
    assert_eq!(l.check("t", 1000, 5, 3, 0), Ok(3));
    assert_eq!(l.check("t", 1000, 5, 3, 0), Ok(2));
    assert_eq!(l.check("t", 1000, 5, 3, 0), Err(1000));
}

#[test]
fn a_burst_of_zero_is_one() {
    let mut l = RateLimiter::default();
    assert_eq!(l.check("t", 1000, 0, 9, 0), Ok(1));
    assert_eq!(l.check("t", 1000, 0, 9, 0), Err(1000));
}

#[test]
fn slow_rates_bring_tokens_too() {
    let mut l = RateLimiter::default();
    assert_eq!(l.check("t", 250, 1, 1, 0), Ok(1));
    assert_eq!(l.check("t", 250, 1, 1, SECOND), Err(3000));
    assert_eq!(l.check("t", 250, 1, 1, 4 * SECOND), Ok(1));
}

#[test]
fn the_wait_is_rounded_up() {
    let mut l = RateLimiter::default();
    assert_eq!(l.check("t", 3000, 1, 1, 0), Ok(1));
    assert_eq!(l.check("t", 3000, 1, 1, 0), Err(334));
    assert_eq!(l.check("t", 3000, 1, 1, 334_000_000), Ok(1));
    assert_eq!(l.check("none", 0, 1, 1, 0), Ok(1));
    assert_eq!(l.check("none", 0, 1, 1, 0), Err(1000));
}

#[test]
fn over_any_time_no_more_than_burst_and_rate() {
    let mut l = RateLimiter::default();
    let mut total = 0u64;
    for i in 0..100u64 {
        if let Ok(n) = l.check("t", 2000, 4, 3, i * SECOND / 10) {
            total += n as u64;
        }
    }
    assert_eq!(total, 4 + 19);
}

#[test]
fn refund_and_forget() {
    let mut l = RateLimiter::default();
    assert_eq!(l.check("t", 1, 4, 4, 0), Ok(4));
    l.refund("t", 3, 4);
    assert_eq!(l.check("t", 1, 4, 4, 0), Ok(3));
    l.refund("t", 9, 4);
    assert_eq!(l.check("t", 1, 4, 9, 0), Ok(4));
    l.refund("unknown", 9, 4);
    l.forget("t");
    assert_eq!(l.check("t", 1, 4, 9, 0), Ok(4));
}

#[test]
fn a_message_is_pushed_then_refreshed_twice_then_pushed() {
    let mut t = SubTracking::default();
    assert_eq!(t.deliver(7, 1, 100, 0), Delivery::Push);
    assert_eq!(t.deliver(7, 2, 200, 100), Delivery::Refreshed);
    assert_eq!(t.deliver(7, 3, 300, 200), Delivery::Refreshed);
    assert_eq!(t.deliver(7, 4, 400, 300), Delivery::Push);
    assert_eq!(t.deliver(7, 5, 500, 400), Delivery::Refreshed);
}

#[test]
fn late_ack_resolves_to_the_lease_that_holds() {
    let mut t = SubTracking::default();
    t.deliver(7, 1, 100, 0);
    t.deliver(7, 2, 200, 100);
    assert_eq!(t.resolve(1, Some(5200)), Some(2));
    assert_eq!(t.resolve(1, Some(5200)), None);
    assert_eq!(t.resolve(2, Some(5200)), None);
    assert_eq!(t.deliver(7, 3, 300, 250), Delivery::AlreadyAcked);
    assert_eq!(t.deliver(7, 3, 300, 5200), Delivery::Push);
}

#[test]
fn nack_leaves_no_trace() {
    let mut t = SubTracking::default();
    t.deliver(7, 1, 100, 0);
    assert_eq!(t.resolve(1, None), Some(1));
    assert_eq!(t.deliver(7, 2, 200, 1), Delivery::Push);
    assert_eq!(t.resolve(99, None), None);
}

#[test]
fn only_eight_leases_name_a_message() {
    let mut t = SubTracking::default();
    for lease in 1..=9u64 {
        t.deliver(7, lease, 100 * lease, 0);
    }
    assert_eq!(t.resolve(1, None), None);
    assert_eq!(t.resolve(2, None), Some(9));
}

#[test]
fn live_count_forgets_what_is_stale() {
    let mut t = SubTracking::default();
    t.deliver(1, 10, 100, 0);
    t.deliver(2, 20, 300, 0);
    assert_eq!(t.live_count(50, 100), 2);
    assert_eq!(t.live_count(100, 100), 1);
    assert_eq!(t.deliver(1, 11, 400, 150), Delivery::Refreshed);
    assert_eq!(t.live_count(200, 100), 2);
    assert_eq!(t.live_count(500, 100), 0);
    assert_eq!(t.deliver(1, 12, 700, 500), Delivery::Push);
    assert_eq!(t.resolve(11, None), None);
}

#[test]
fn polls_and_subscriptions_are_for_the_leader() {
    let members = vec![
        Node { id: 1, peer_addr: "a:1".to_string() },
        Node { id: 2, peer_addr: "b:2".to_string() },
    ];
    assert_eq!(leader_gate(&leader(), &members), None);
    let follower = RaftStatus { current_leader: Some(2), ..leader() };
    assert_eq!(
        leader_gate(&follower, &members),
        Some(Response::Error(ErrorReply {
            code: "not_leader".to_string(),
            message: "not the leader; retry against leader_addr".to_string(),
            leader_addr: "b:2".to_string(),
            retry_after_ms: 0,
        }))
    );
    let nobody = RaftStatus { current_leader: None, ..leader() };
    match leader_gate(&nobody, &members) {
        Some(Response::Error(e)) => assert_eq!(e.leader_addr, ""),
        other => panic!("expected an error, got {other:?}"),
    }
}

#[test]
fn poll_zero_values_are_normalized() {
    let run = PollRun::start(poll_request(0, "manual", 0), 5);
    assert_eq!((run.max, run.visibility_ms, run.auto_ack, run.waits), (16, 30_000, false, false));
    let run = PollRun::start(poll_request(9999, "auto", 1_000_000), 5);
    assert_eq!((run.max, run.auto_ack, run.waits), (1024, true, true));
    assert_eq!(run.deadline_ns, 300_000_000_000 + 5);
}

#[test]
fn poll_of_an_empty_topic_writes_nothing() {
    let q = Queue::default();
    let mut l = RateLimiter::default();
    let mut run = PollRun::start(poll_request(0, "manual", 0), 0);
    match run.look(&q, &mut l, 0, 0) {
        PollAction::Reply(r) => assert_eq!(polled_len(r), 0),
        other => panic!("expected a reply, got {other:?}"),
    }
}

#[test]
fn waiting_poll_parks_until_its_deadline() {
    let q = Queue::default();
    let mut l = RateLimiter::default();
    let mut run = PollRun::start(poll_request(0, "manual", 250), 0);
    match run.look(&q, &mut l, 0, 0) {
        PollAction::Park(ns) => assert_eq!(ns, 200_000_000),
        other => panic!("expected to park, got {other:?}"),
    }
    match run.look(&q, &mut l, 0, 200_000_000) {
        PollAction::Park(ns) => assert_eq!(ns, 50_000_000),
        other => panic!("expected to park, got {other:?}"),
    }
    match run.look(&q, &mut l, 0, 250_000_000) {
        PollAction::Reply(r) => assert_eq!(polled_len(r), 0),
        other => panic!("expected a reply, got {other:?}"),
    }
}

fn run_poll(q: &mut Queue, l: &mut RateLimiter, p: Poll, now_ms: u64, now_ns: u64) -> Response {
    let mut run = PollRun::start(p, now_ns);
    match run.look(q, l, now_ms, now_ns) {
        PollAction::Reply(r) => r,
        PollAction::Write(command) => {
            let answer = q.apply(command);
            match run.written(Ok(answer), l, now_ns) {
                PollAction::Reply(r) => r,
                PollAction::AckThenReply(command, r) => {
                    q.apply(command);
                    r
                }
                other => panic!("unexpected {other:?}"),
            }
        }
        other => panic!("unexpected {other:?}"),
    }
}

#[test]
fn delivery_is_paced_to_the_available_tokens() {
    let mut q = Queue::default();
    let mut l = RateLimiter::default();
    limit(&mut q, "t", 1000, 1);
    for _ in 0..3 {
        produce(&mut q, "t");
    }
    assert_eq!(polled_len(run_poll(&mut q, &mut l, poll_request(10, "manual", 0), 0, 0)), 1);
    let r = run_poll(&mut q, &mut l, poll_request(10, "manual", 0), 0, 0);
    assert_eq!(error_code(r), ("rate_limited".to_string(), 1000));
    assert_eq!(polled_len(run_poll(&mut q, &mut l, poll_request(10, "manual", 0), 0, SECOND)), 1);
}

#[test]
fn unused_tokens_are_given_back() {
    let mut q = Queue::default();
    let mut l = RateLimiter::default();
    limit(&mut q, "t", 1, 5);
    produce(&mut q, "t");
    assert_eq!(polled_len(run_poll(&mut q, &mut l, poll_request(5, "manual", 0), 0, 0)), 1);
    for _ in 0..9 {
        produce(&mut q, "t");
    }
    assert_eq!(polled_len(run_poll(&mut q, &mut l, poll_request(9, "manual", 0), 0, 0)), 4);
}

#[test]
fn ack_mode_auto_vs_manual() {
    let mut q = Queue::default();
    let mut l = RateLimiter::default();
    produce(&mut q, "t");
    assert_eq!(polled_len(run_poll(&mut q, &mut l, poll_request(5, "manual", 0), 0, 0)), 1);
    assert_eq!(polled_len(run_poll(&mut q, &mut l, poll_request(5, "auto", 0), 30_000, 0)), 1);
    assert_eq!(polled_len(run_poll(&mut q, &mut l, poll_request(5, "manual", 0), 90_000, 0)), 0);
}

#[test]
fn failed_writes_end_a_poll() {
    let mut l = RateLimiter::default();
    let run = PollRun::start(poll_request(5, "manual", 0), 0);
    let moved = WriteError::ForwardToLeader { leader_addr: Some("b:2".to_string()) };
    match run.written(Err(moved), &mut l, 0) {
        PollAction::Reply(Response::Error(e)) => {
            assert_eq!((e.code.as_str(), e.leader_addr.as_str()), ("not_leader", "b:2"));
        }
        other => panic!("unexpected {other:?}"),
    }
    match run.written(Err(WriteError::Other { message: "boom".to_string() }), &mut l, 0) {
        PollAction::Reply(Response::Error(e)) => {
            assert_eq!((e.code.as_str(), e.message.as_str()), ("internal", "boom"));
        }
        other => panic!("unexpected {other:?}"),
    }
    match run.written(Ok(AppResponse::NoOp), &mut l, 0) {
        PollAction::Reply(r) => assert_eq!(r, Response::Done),
        other => panic!("unexpected {other:?}"),
    }
}

fn subscription(prefetch: u32, ack_mode: &str) -> Subscription {
    Subscription::open(Subscribe {
        topic: "t".to_string(),
        group: "g".to_string(),
        prefetch,
        visibility_timeout_ms: 300,
        ack_mode: ack_mode.to_string(),
    })
}

/// One round of a subscription: what was pushed, and what was acked.
fn round(
    s: &Subscription,
    t: &mut SubTracking,
    q: &mut Queue,
    l: &mut RateLimiter,
    now_ms: u64,
) -> Option<Vec<Delivered>> {
    match s.look(t, q, l, &leader(), false, now_ms, now_ms * 1_000_000) {
        SubAction::Write(command, tokens) => {
            let answer = q.apply(command);
            match s.written(Ok(answer), tokens, l) {
                Leased::Messages(command, items) => {
                    if let Some(c) = command {
                        q.apply(c);
                    }
                    Some(items)
                }
                Leased::Wait(_) => Some(Vec::new()),
                Leased::Stop => panic!("stopped"),
            }
        }
        SubAction::Wait(_) => None,
        SubAction::Stop => panic!("stopped"),
    }
}

#[test]
fn prefetch_is_clamped() {
    assert_eq!(subscription(0, "manual").prefetch, 1);
    assert_eq!(subscription(5000, "manual").prefetch, 1024);
    assert_eq!(subscription(7, "manual").prefetch, 7);
    assert!(subscription(1, "auto").auto_ack);
}

#[test]
fn prefetch_bounds_what_is_out() {
    let mut q = Queue::default();
    let mut l = RateLimiter::default();
    let mut t = SubTracking::default();
    for _ in 0..3 {
        produce(&mut q, "t");
    }
    let s = subscription(2, "manual");
    let items = round(&s, &mut t, &mut q, &mut l, 0).unwrap();
    assert_eq!(items.len(), 2);
    let lease = items[0].lease_id;
    for d in items {
        assert!(matches!(s.push(&mut t, d, 0), PushAction::Push(Response::Polled { .. })));
    }
    assert!(round(&s, &mut t, &mut q, &mut l, 1).is_none());
    let ack = Request::Ack(Ack { topic: String::new(), group: String::new(), lease_id: lease });
    let (job, freed) = s.on_frame(&mut t, Some(ack), 2).unwrap();
    assert!(freed);
    assert_eq!((job.topic.as_str(), job.group.as_str(), job.lease_id, job.nack), ("t", "g", lease, false));
    let items = round(&s, &mut t, &mut q, &mut l, 3).unwrap();
    assert_eq!(items.len(), 1);
}

#[test]
fn slow_handler_is_not_pushed_to_twice_and_its_late_ack_counts() {
    let mut q = Queue::default();
    let mut l = RateLimiter::default();
    let mut t = SubTracking::default();
    produce(&mut q, "t");
    let s = subscription(1, "manual");
    let first = round(&s, &mut t, &mut q, &mut l, 0).unwrap().remove(0);
    let pushed = first.lease_id;
    assert!(matches!(s.push(&mut t, first, 0), PushAction::Push(_)));
    let second = round(&s, &mut t, &mut q, &mut l, 300).unwrap().remove(0);
    let held = second.lease_id;
    assert!(matches!(s.push(&mut t, second, 300), PushAction::Keep));
    let ack = Request::Ack(Ack { topic: String::new(), group: String::new(), lease_id: pushed });
    let (job, freed) = s.on_frame(&mut t, Some(ack), 400).unwrap();
    assert!(freed);
    assert_eq!(job.lease_id, held);
    // The message is leased once more before the ack is applied.
    let third = round(&s, &mut t, &mut q, &mut l, 600).unwrap().remove(0);
    let again = third.lease_id;
    match s.push(&mut t, third, 600) {
        PushAction::Ack(job) => assert_eq!((job.lease_id, job.nack), (again, false)),
        other => panic!("unexpected {other:?}"),
    }
}

#[test]
fn duplicate_ack_does_not_free_a_slot_twice() {
    let mut q = Queue::default();
    let mut l = RateLimiter::default();
    let mut t = SubTracking::default();
    produce(&mut q, "t");
    let s = subscription(1, "manual");
    let d = round(&s, &mut t, &mut q, &mut l, 0).unwrap().remove(0);
    let lease = d.lease_id;
    s.push(&mut t, d, 0);
    let nack = |lease_id: u64| Request::Nack(Ack { topic: String::new(), group: String::new(), lease_id });
    let (job, freed) = s.on_frame(&mut t, Some(nack(lease)), 1).unwrap();
    assert!(freed && job.nack);
    let (job, freed) = s.on_frame(&mut t, Some(nack(lease)), 1).unwrap();
    assert!(!freed);
    assert_eq!(job.lease_id, lease);
    assert!(s.on_frame(&mut t, Some(Request::Stats), 1).is_none());
    assert!(s.on_frame(&mut t, None, 1).is_none());
}

#[test]
fn auto_ack_pushes_everything_once() {
    let mut q = Queue::default();
    let mut l = RateLimiter::default();
    let mut t = SubTracking::default();
    produce(&mut q, "t");
    let s = subscription(4, "auto");
    let d = round(&s, &mut t, &mut q, &mut l, 0).unwrap().remove(0);
    assert!(matches!(s.push(&mut t, d, 0), PushAction::Push(_)));
    assert_eq!(q.metrics().messages, 0);
    let ack = Request::Ack(Ack { topic: String::new(), group: String::new(), lease_id: 0 });
    assert!(s.on_frame(&mut t, Some(ack), 0).is_none());
    assert!(round(&s, &mut t, &mut q, &mut l, 99_999).is_none());
}

#[test]
fn subscription_ends_with_its_connection_and_its_leader() {
    let q = Queue::default();
    let mut l = RateLimiter::default();
    let mut t = SubTracking::default();
    let s = subscription(4, "manual");
    assert!(matches!(s.look(&mut t, &q, &mut l, &leader(), true, 0, 0), SubAction::Stop));
    let lost = RaftStatus { current_leader: Some(2), ..leader() };
    assert!(matches!(s.look(&mut t, &q, &mut l, &lost, false, 0, 0), SubAction::Stop));
    assert!(matches!(s.look(&mut t, &q, &mut l, &leader(), false, 0, 0), SubAction::Wait(200)));
    let failed = WriteError::Other { message: String::new() };
    assert!(matches!(s.written(Err(failed), None, &mut l), Leased::Stop));
    assert!(matches!(s.written(Ok(AppResponse::NoOp), None, &mut l), Leased::Wait(200)));
}

#[test]
fn subscription_waits_where_the_rate_is_used_up() {
    let mut q = Queue::default();
    let mut l = RateLimiter::default();
    let mut t = SubTracking::default();
    limit(&mut q, "t", 1000, 2);
    for _ in 0..5 {
        produce(&mut q, "t");
    }
    let s = subscription(4, "auto");
    assert_eq!(round(&s, &mut t, &mut q, &mut l, 0).unwrap().len(), 2);
    assert!(round(&s, &mut t, &mut q, &mut l, 999).is_none());
    assert_eq!(round(&s, &mut t, &mut q, &mut l, 1000).unwrap().len(), 1);
}

#[test]
fn a_group_that_comes_after_all_acks_finds_nothing() {
    let mut q = Queue::default();
    let mut l = RateLimiter::default();
    produce(&mut q, "t");
    let mut other = poll_request(5, "auto", 0);
    other.group = "h".to_string();
    assert_eq!(polled_len(run_poll(&mut q, &mut l, poll_request(5, "auto", 0), 0, 0)), 1);
    assert_eq!(polled_len(run_poll(&mut q, &mut l, poll_request(5, "auto", 0), 0, 0)), 0);
    assert_eq!(polled_len(run_poll(&mut q, &mut l, other, 0, 0)), 0);
}

#[test]
fn returned_tokens_bring_no_more_than_the_rate() {
    let mut l = RateLimiter::default();
    let mut out = 0i64;
    for i in 0..200u64 {
        if let Ok(n) = l.check("t", 5000, 3, 3, i * SECOND / 20) {
            out += n as i64;
            let unused = n.min((i % 3) as u32);
            l.refund("t", unused, 3);
            out -= unused as i64;
        }
    }
    assert!(out <= 3 + 50, "took {out} tokens");
}

#[test]
fn a_lease_runs_no_longer_than_the_clock_can_show() {
    assert_eq!(fitting_lease_time(30, 100), 30);
    assert_eq!(fitting_lease_time(u64::MAX, 0), u64::MAX);
    assert_eq!(fitting_lease_time(u64::MAX, 100), u64::MAX - 100);
    assert_eq!(fitting_lease_time(1, u64::MAX), 0);
    let mut q = Queue::default();
    let mut l = RateLimiter::default();
    produce(&mut q, "t");
    let mut p = poll_request(1, "manual", 0);
    p.visibility_timeout_ms = u64::MAX;
    match PollRun::start(p, 0).look(&q, &mut l, 1_000, 0) {
        PollAction::Write(command) => {
            assert!(matches!(
                command,
                AppRequest::Poll { visibility_timeout_ms, ts_ms: 1_000, .. }
                    if visibility_timeout_ms == u64::MAX - 1_000
            ));
            assert!(q.can_apply(&command));
        }
        other => panic!("unexpected {other:?}"),
    }
    let s = Subscription { visibility_ms: u64::MAX, ..subscription(1, "manual") };
    let mut t = SubTracking::default();
    match s.look(&mut t, &q, &mut l, &leader(), false, 1_000, 0) {
        SubAction::Write(command, None) => assert!(q.can_apply(&command)),
        other => panic!("unexpected {other:?}"),
    }
}

#[test]
fn a_batch_of_acks_is_full_at_its_limit() {
    let job = || AckJob { topic: String::new(), group: String::new(), lease_id: 0, nack: false };
    let mut jobs: Vec<AckJob> = (0..1023).map(|_| job()).collect();
    assert!(takes_more_acks(&jobs));
    jobs.push(job());
    assert!(!takes_more_acks(&jobs));
}

#[test]
fn a_nacked_message_is_pushed_again() {
    let mut q = Queue::default();
    let mut l = RateLimiter::default();
    let mut t = SubTracking::default();
    produce(&mut q, "t");
    let s = subscription(1, "manual");
    let d = round(&s, &mut t, &mut q, &mut l, 0).unwrap().remove(0);
    let lease = d.lease_id;
    s.push(&mut t, d, 0);
    let nack = Request::Nack(Ack { topic: String::new(), group: String::new(), lease_id: lease });
    let (job, _) = s.on_frame(&mut t, Some(nack), 1).unwrap();
    q.apply(AppRequest::Nack {
        topic: TopicId::from(job.topic.as_str()),
        group: GroupId::from(job.group.as_str()),
        lease_id: job.lease_id,
    });
    let again = round(&s, &mut t, &mut q, &mut l, 2).unwrap().remove(0);
    assert!(matches!(s.push(&mut t, again, 2), PushAction::Push(_)));
}

#[test]
fn never_more_than_prefetch_out() {
    let mut q = Queue::default();
    let mut l = RateLimiter::default();
    let mut t = SubTracking::default();
    for _ in 0..40 {
        produce(&mut q, "t");
    }
    let s = subscription(3, "manual");
    let mut pushed = Vec::new();
    for now in 0..60u64 {
        if let Some(items) = round(&s, &mut t, &mut q, &mut l, now * 50) {
            for d in items {
                pushed.push(d.lease_id);
                s.push(&mut t, d, now * 50);
            }
        }
        assert!(t.live_count(now * 50, 300) <= 3);
        if now % 3 == 0 {
            if let Some(lease_id) = pushed.pop() {
                let ack = Request::Ack(Ack { topic: String::new(), group: String::new(), lease_id });
                s.on_frame(&mut t, Some(ack), now * 50);
            }
        }
    }
    assert!(pushed.len() > 6);
}

#[test]
fn the_burst_is_granted_at_once() {
    for (burst, n) in [(0, 1), (1, 1), (4, 4)] {
        let mut l = RateLimiter::default();
        for _ in 0..n {
            assert_eq!(l.check("t", 500, burst, 1, 7), Ok(1));
        }
        assert_eq!(l.check("t", 500, burst, 1, 7), Err(2000));
    }
}

#[test]
fn over_any_span_no_more_than_was_there_and_flowed_in() {
    let mut l = RateLimiter::default();
    assert_eq!(l.check("t", 2000, 10, 7, 0), Ok(7));
    let mut total = 0u64;
    for i in 0..=30u64 {
        if let Ok(n) = l.check("t", 2000, 10, 1, i * SECOND / 10) {
            total += n as u64;
        }
    }
    assert_eq!(total, 3 + 6);
}
