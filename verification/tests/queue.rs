//! The queue: offsets, deduplication, delivery order, leases and retention.
use std::collections::BTreeSet;

use hermesmq::command::{AppRequest, AppResponse, Delivered, ProduceItem};
use hermesmq::group::GroupState;
use hermesmq::queue::{Queue, QueueMetrics};
use hermesmq::snapshot::DedupData;
use hermesmq::types::{ContentType, GroupId, LeaseId, Offset, Priority, TopicId};

fn produce(q: &mut Queue, topic: &str, priority: u8, body: &[u8], producer: &str, seq: u64) -> Offset {
    match q.apply(AppRequest::Produce {
        topic: TopicId::from(topic),
        priority: Priority(priority),
        content_type: ContentType::Raw,
        payload: body.to_vec(),
        producer_id: producer.to_string(),
        seq,
        ts_ms: 0,
    }) {
        AppResponse::Produced { offset } => offset,
        other => panic!("expected Produced, got {other:?}"),
    }
}

fn poll(q: &mut Queue, topic: &str, group: &str, max: u32, vis: u64, ts: u64) -> Vec<Delivered> {
    match q.apply(AppRequest::Poll {
        topic: TopicId::from(topic),
        group: GroupId::from(group),
        max,
        visibility_timeout_ms: vis,
        ts_ms: ts,
    }) {
        AppResponse::Polled { items } => items,
        other => panic!("expected Polled, got {other:?}"),
    }
}

fn poll_offsets(q: &mut Queue, topic: &str, group: &str, max: u32, vis: u64, ts: u64) -> Vec<(LeaseId, Offset)> {
    poll(q, topic, group, max, vis, ts).into_iter().map(|d| (d.lease_id, d.offset)).collect()
}

fn offsets(q: &mut Queue, topic: &str, group: &str, max: u32, vis: u64, ts: u64) -> Vec<Offset> {
    poll_offsets(q, topic, group, max, vis, ts).into_iter().map(|(_, o)| o).collect()
}

fn ack(q: &mut Queue, topic: &str, group: &str, lease_id: LeaseId) {
    let r = q.apply(AppRequest::Ack { topic: TopicId::from(topic), group: GroupId::from(group), lease_id });
    assert_eq!(r, AppResponse::Acked);
}

fn retention(q: &mut Queue, max_messages: u64, max_age_ms: u64) {
    let r = q.apply(AppRequest::SetRetention { topic: TopicId::from("t"), max_messages, max_age_ms });
    assert_eq!(r, AppResponse::RetentionSet);
}

#[test]
fn produce_assigns_monotonic_offsets() {
    let mut q = Queue::default();
    assert_eq!(produce(&mut q, "t", 0, b"a", "p", 1), 0);
    assert_eq!(produce(&mut q, "t", 0, b"b", "p", 2), 1);
    assert_eq!(produce(&mut q, "t", 0, b"c", "p", 3), 2);
}

#[test]
fn produce_dedup_returns_same_offset() {
    let mut q = Queue::default();
    let first = produce(&mut q, "t", 0, b"a", "p", 1);
    let dup = produce(&mut q, "t", 0, b"a-again", "p", 1);
    assert_eq!(first, dup);
    assert_eq!(produce(&mut q, "t", 0, b"b", "p", 2), 1);
}

#[test]
fn empty_producer_id_disables_dedup() {
    let mut q = Queue::default();
    assert_eq!(produce(&mut q, "t", 0, b"a", "", 0), 0);
    assert_eq!(produce(&mut q, "t", 0, b"b", "", 0), 1);
    assert_eq!(produce(&mut q, "t", 0, b"c", "", 0), 2);
}

#[test]
fn poll_orders_by_priority_then_offset() {
    let mut q = Queue::default();
    produce(&mut q, "t", 0, b"a", "p", 1);
    produce(&mut q, "t", 5, b"b", "p", 2);
    produce(&mut q, "t", 3, b"c", "p", 3);
    let got: Vec<Offset> = poll_offsets(&mut q, "t", "g", 10, 1000, 0)
        .into_iter()
        .map(|(_, o)| o)
        .collect();
    assert_eq!(got, vec![1, 2, 0]);
}

#[test]
fn leased_messages_are_not_redelivered_until_expiry() {
    let mut q = Queue::default();
    produce(&mut q, "t", 0, b"a", "p", 1);
    let first = poll_offsets(&mut q, "t", "g", 10, 1000, 0);
    assert_eq!(first.len(), 1);
    let again = poll_offsets(&mut q, "t", "g", 10, 1000, 500);
    assert!(again.is_empty());
    let after_expiry = poll_offsets(&mut q, "t", "g", 10, 1000, 2000);
    assert_eq!(after_expiry.len(), 1);
}

#[test]
fn ack_makes_message_done() {
    let mut q = Queue::default();
    produce(&mut q, "t", 0, b"a", "p", 1);
    let leased = poll_offsets(&mut q, "t", "g", 10, 1000, 0);
    let (lease_id, _) = leased[0];
    q.apply(AppRequest::Ack {
        topic: TopicId::from("t"),
        group: GroupId::from("g"),
        lease_id,
    });
    let after = poll_offsets(&mut q, "t", "g", 10, 1000, 5000);
    assert!(after.is_empty());
}

#[test]
fn nack_makes_message_immediately_redeliverable() {
    let mut q = Queue::default();
    produce(&mut q, "t", 0, b"a", "p", 1);
    let leased = poll_offsets(&mut q, "t", "g", 10, 1000, 0);
    let (lease_id, _) = leased[0];
    q.apply(AppRequest::Nack {
        topic: TopicId::from("t"),
        group: GroupId::from("g"),
        lease_id,
    });
    let after = poll_offsets(&mut q, "t", "g", 10, 1000, 1);
    assert_eq!(after.len(), 1);
}

#[test]
fn anti_starvation_serves_oldest_within_reserved_cadence() {
    let mut q = Queue::default();
    produce(&mut q, "t", 0, b"low", "", 0);
    for _ in 0..5 {
        produce(&mut q, "t", 7, b"high", "", 0);
    }
    let mut delivered = Vec::new();
    for k in 0..4u64 {
        let items = poll_offsets(&mut q, "t", "g", 1, 1_000_000, k);
        if let Some((_, offset)) = items.first() {
            delivered.push(*offset);
        }
    }
    assert!(
        delivered.contains(&0),
        "low-priority oldest message must be served within the reserved cadence, got {delivered:?}"
    );
}

#[test]
fn retention_by_count_keeps_newest() {
    let mut q = Queue::default();
    q.apply(AppRequest::SetRetention {
        topic: TopicId::from("t"),
        max_messages: 3,
        max_age_ms: 0,
    });
    for i in 0..5 {
        produce(&mut q, "t", 0, &[i], "", 0);
    }
    let offsets: Vec<Offset> = poll_offsets(&mut q, "t", "g", 10, 1000, 0)
        .into_iter()
        .map(|(_, o)| o)
        .collect();
    assert_eq!(offsets, vec![2, 3, 4]);
}

#[test]
fn retention_by_age_drops_old() {
    let mut q = Queue::default();
    q.apply(AppRequest::SetRetention {
        topic: TopicId::from("t"),
        max_messages: 0,
        max_age_ms: 1000,
    });
    q.apply(AppRequest::Produce {
        topic: TopicId::from("t"),
        priority: Priority(0),
        content_type: ContentType::Raw,
        payload: b"old".to_vec(),
        producer_id: String::new(),
        seq: 0,
        ts_ms: 0,
    });
    q.apply(AppRequest::Produce {
        topic: TopicId::from("t"),
        priority: Priority(0),
        content_type: ContentType::Raw,
        payload: b"new".to_vec(),
        producer_id: String::new(),
        seq: 0,
        ts_ms: 5000,
    });
    let offsets: Vec<Offset> = poll_offsets(&mut q, "t", "g", 10, 1000, 5000)
        .into_iter()
        .map(|(_, o)| o)
        .collect();
    assert_eq!(offsets, vec![1]);
}

#[test]
fn separate_groups_each_see_every_message() {
    let mut q = Queue::default();
    produce(&mut q, "t", 0, b"a", "p", 1);
    let g1 = poll_offsets(&mut q, "t", "g1", 10, 1000, 0);
    let g2 = poll_offsets(&mut q, "t", "g2", 10, 1000, 0);
    assert_eq!(g1.len(), 1);
    assert_eq!(g2.len(), 1);
}

#[test]
fn competing_consumers_in_group_split_work() {
    let mut q = Queue::default();
    for i in 0..4 {
        produce(&mut q, "t", 0, &[i], "", 0);
    }
    let a = poll_offsets(&mut q, "t", "g", 2, 100_000, 0);
    let b = poll_offsets(&mut q, "t", "g", 2, 100_000, 1);
    assert_eq!(a.len(), 2);
    assert_eq!(b.len(), 2);
    let mut all: Vec<Offset> = a.iter().chain(b.iter()).map(|(_, o)| *o).collect();
    all.sort();
    assert_eq!(all, vec![0, 1, 2, 3], "each message delivered to exactly one consumer");
}

#[test]
fn single_consumer_sees_fifo() {
    let mut q = Queue::default();
    for i in 0..5 {
        produce(&mut q, "t", 0, &[i], "", 0);
    }
    let offsets: Vec<Offset> = poll_offsets(&mut q, "t", "g", 10, 1000, 0)
        .into_iter()
        .map(|(_, o)| o)
        .collect();
    assert_eq!(offsets, vec![0, 1, 2, 3, 4]);
}

fn drain_is_exactly_once(keys: &[u8]) {
    let mut q = Queue::default();
    let mut distinct = BTreeSet::new();
    for (i, k) in keys.iter().enumerate() {
        let producer = format!("p{k}");
        distinct.insert(producer.clone());
        q.apply(AppRequest::Produce {
            topic: TopicId::from("t"),
            priority: Priority(0),
            content_type: ContentType::Raw,
            payload: vec![*k],
            producer_id: producer,
            seq: 0,
            ts_ms: i as u64,
        });
    }
    let mut drained = 0usize;
    let mut ts = 1_000u64;
    loop {
        let items = poll(&mut q, "t", "g", 8, 1000, ts);
        ts += 2000;
        if items.is_empty() {
            break;
        }
        for d in items {
            drained += 1;
            ack(&mut q, "t", "g", d.lease_id);
        }
        assert!(ts < 10_000_000);
    }
    assert_eq!(drained, distinct.len());
}

#[test]
fn dedup_then_drain_is_exactly_once() {
    let mut state: u64 = 0x9E37_79B9_7F4A_7C15;
    for len in 1..40usize {
        let mut keys = Vec::new();
        for _ in 0..len {
            state = state.wrapping_mul(6_364_136_223_846_793_005).wrapping_add(1_442_695_040_888_963_407);
            keys.push(((state >> 33) % 6) as u8);
        }
        drain_is_exactly_once(&keys);
    }
}

#[test]
fn drained_topic_holds_nothing() {
    let mut q = Queue::default();
    for i in 0..100u64 {
        produce(&mut q, "t", (i % 8) as u8, b"x", "", 0);
    }
    assert_eq!(q.metrics(), QueueMetrics { topics: 1, messages: 100, in_flight: 0 });
    let mut ts = 0;
    loop {
        let items = poll(&mut q, "t", "g", 16, 1000, ts);
        ts += 1;
        if items.is_empty() {
            break;
        }
        let lease_ids: Vec<LeaseId> = items.iter().map(|d| d.lease_id).collect();
        let r = q.apply(AppRequest::AckMany { topic: TopicId::from("t"), group: GroupId::from("g"), lease_ids });
        assert_eq!(r, AppResponse::Acked);
    }
    assert_eq!(q.metrics(), QueueMetrics { topics: 1, messages: 0, in_flight: 0 });
    assert!(!q.has_deliverable("t", "g", ts));
    assert_eq!(produce(&mut q, "t", 0, b"next", "", 0), 100);
}

#[test]
fn message_is_kept_until_every_group_has_acked_it() {
    let mut q = Queue::default();
    produce(&mut q, "t", 0, b"a", "", 0);
    let a = poll(&mut q, "t", "g1", 1, 1000, 0);
    let b = poll(&mut q, "t", "g2", 1, 1000, 0);
    ack(&mut q, "t", "g1", a[0].lease_id);
    assert_eq!(q.metrics().messages, 1);
    ack(&mut q, "t", "g2", b[0].lease_id);
    assert_eq!(q.metrics().messages, 0);
}

#[test]
fn acks_out_of_order_move_the_watermark_when_the_gap_closes() {
    let mut q = Queue::default();
    for i in 0..3 {
        produce(&mut q, "t", 0, &[i], "", 0);
    }
    let d = poll(&mut q, "t", "g", 3, 1000, 0);
    ack(&mut q, "t", "g", d[2].lease_id);
    ack(&mut q, "t", "g", d[1].lease_id);
    assert_eq!(q.metrics().messages, 3);
    ack(&mut q, "t", "g", d[0].lease_id);
    assert_eq!(q.metrics().messages, 0);
}

#[test]
fn commit_finishes_everything_below() {
    let mut q = Queue::default();
    for i in 0..5 {
        produce(&mut q, "t", 0, &[i], "", 0);
    }
    let d = poll(&mut q, "t", "g", 2, 1000, 0);
    assert_eq!(d.len(), 2);
    let r = q.apply(AppRequest::CommitOffset { topic: TopicId::from("t"), group: GroupId::from("g"), offset: 3 });
    assert_eq!(r, AppResponse::Committed);
    assert_eq!(q.metrics(), QueueMetrics { topics: 1, messages: 2, in_flight: 0 });
    assert_eq!(offsets(&mut q, "t", "g", 10, 1000, 1), vec![3, 4]);
    let r = q.apply(AppRequest::CommitOffset { topic: TopicId::from("none"), group: GroupId::from("g"), offset: 3 });
    assert_eq!(r, AppResponse::Committed);
    assert_eq!(q.metrics().topics, 1);
}

#[test]
fn stale_and_unknown_leases_change_nothing() {
    let mut q = Queue::default();
    produce(&mut q, "t", 0, b"a", "", 0);
    let d = poll(&mut q, "t", "g", 1, 1000, 0);
    ack(&mut q, "t", "g", 77);
    ack(&mut q, "t", "other", d[0].lease_id);
    ack(&mut q, "none", "g", d[0].lease_id);
    assert_eq!(q.metrics(), QueueMetrics { topics: 1, messages: 1, in_flight: 1 });
    let again = poll(&mut q, "t", "g", 1, 1000, 1000);
    assert_eq!(again[0].offset, 0);
    assert_ne!(again[0].lease_id, d[0].lease_id);
    ack(&mut q, "t", "g", d[0].lease_id);
    assert_eq!(q.metrics().messages, 1);
    ack(&mut q, "t", "g", again[0].lease_id);
    assert_eq!(q.metrics().messages, 0);
}

#[test]
fn nack_many_returns_all() {
    let mut q = Queue::default();
    for i in 0..4 {
        produce(&mut q, "t", 0, &[i], "", 0);
    }
    let d = poll(&mut q, "t", "g", 4, 1_000_000, 0);
    assert!(!q.has_deliverable("t", "g", 1));
    let lease_ids: Vec<LeaseId> = d.iter().map(|d| d.lease_id).collect();
    let r = q.apply(AppRequest::NackMany { topic: TopicId::from("t"), group: GroupId::from("g"), lease_ids });
    assert_eq!(r, AppResponse::Nacked);
    assert!(q.has_deliverable("t", "g", 1));
    assert_eq!(offsets(&mut q, "t", "g", 10, 1000, 1), vec![0, 1, 2, 3]);
}

#[test]
fn produce_many_answers_in_order_and_dedups() {
    let mut q = Queue::default();
    let item = |topic: &str, producer: &str, seq: u64| ProduceItem {
        topic: TopicId::from(topic),
        priority: Priority(1),
        content_type: ContentType::Json,
        payload: b"{}".to_vec(),
        producer_id: producer.to_string(),
        seq,
        ts_ms: 9,
    };
    let r = q.apply(AppRequest::ProduceMany {
        items: vec![item("a", "p", 1), item("b", "p", 1), item("a", "p", 2), item("a", "p", 1), item("b", "", 0)],
    });
    assert_eq!(r, AppResponse::ProducedMany { offsets: vec![0, 0, 1, 0, 1] });
    let d = poll(&mut q, "a", "g", 10, 5, 10);
    assert_eq!(
        d[1],
        Delivered {
            lease_id: 1,
            offset: 1,
            priority: Priority(1),
            content_type: ContentType::Json,
            payload: b"{}".to_vec(),
            ts_ms: 9,
        }
    );
}

#[test]
fn reserved_slots_follow_the_cadence() {
    // Four slots: three by priority, one for the oldest.
    let mut q = Queue::default();
    for i in 0..3 {
        produce(&mut q, "t", 0, &[i], "", 0);
    }
    for i in 0..6 {
        produce(&mut q, "t", 7, &[i], "", 0);
    }
    assert_eq!(offsets(&mut q, "t", "g", 4, 1_000_000, 0), vec![3, 4, 5, 0]);
    assert_eq!(offsets(&mut q, "t", "g", 2, 1_000_000, 0), vec![6, 7]);
    assert_eq!(offsets(&mut q, "t", "g", 1, 1_000_000, 0), vec![8]);
    // The fourth poll keeps one slot more.
    assert_eq!(offsets(&mut q, "t", "g", 1, 1_000_000, 0), vec![1]);
}

#[test]
fn poll_for_nothing_still_counts() {
    let mut q = Queue::default();
    produce(&mut q, "t", 0, b"low", "", 0);
    for _ in 0..4 {
        produce(&mut q, "t", 7, b"high", "", 0);
    }
    for _ in 0..3 {
        assert!(offsets(&mut q, "t", "g", 0, 1000, 0).is_empty());
    }
    assert_eq!(offsets(&mut q, "t", "g", 1, 1000, 0), vec![0]);
}

#[test]
fn retention_takes_leases_with_it() {
    let mut q = Queue::default();
    retention(&mut q, 2, 0);
    produce(&mut q, "t", 0, b"a", "", 0);
    produce(&mut q, "t", 0, b"b", "", 0);
    let d = poll(&mut q, "t", "g", 2, 1_000_000, 0);
    assert_eq!(d.len(), 2);
    produce(&mut q, "t", 0, b"c", "", 0);
    assert_eq!(q.metrics(), QueueMetrics { topics: 1, messages: 2, in_flight: 1 });
    ack(&mut q, "t", "g", d[0].lease_id);
    assert_eq!(q.metrics().in_flight, 1);
}

#[test]
fn age_stops_at_the_first_young_message() {
    let mut q = Queue::default();
    retention(&mut q, 0, 10);
    for ts_ms in [100u64, 0, 105] {
        q.apply(AppRequest::Produce {
            topic: TopicId::from("t"),
            priority: Priority(0),
            content_type: ContentType::Raw,
            payload: Vec::new(),
            producer_id: String::new(),
            seq: 0,
            ts_ms,
        });
    }
    assert_eq!(q.metrics().messages, 3);
}

#[test]
fn unlimited_topic_has_a_safety_cap() {
    let mut q = Queue::default();
    for _ in 0..1_000_003u64 {
        produce(&mut q, "t", 0, b"", "", 0);
    }
    assert_eq!(q.metrics().messages, 1_000_000);
    assert_eq!(offsets(&mut q, "t", "g", 1, 1000, 0), vec![3]);
}

#[test]
fn dedup_window_forgets_the_oldest() {
    let mut q = Queue::default();
    retention(&mut q, 1, 0);
    for seq in 0..100_000u64 {
        assert_eq!(produce(&mut q, "t", 0, b"", "p", seq), seq);
    }
    assert_eq!(produce(&mut q, "t", 0, b"", "p", 0), 0);
    assert_eq!(produce(&mut q, "t", 0, b"", "q", 0), 100_000);
    assert_eq!(produce(&mut q, "t", 0, b"", "p", 1), 1);
    assert_eq!(produce(&mut q, "t", 0, b"", "p", 0), 100_001);
}

#[test]
fn rate_config_is_that_of_the_topic() {
    let mut q = Queue::default();
    assert_eq!(q.rate_config("t"), None);
    let r = q.apply(AppRequest::SetRateLimit { topic: TopicId::from("t"), rate_milli_per_sec: 500, burst: 3 });
    assert_eq!(r, AppResponse::RateLimitSet);
    assert_eq!(q.rate_config("t"), Some((500, 3)));
    q.apply(AppRequest::SetRateLimit { topic: TopicId::from("t"), rate_milli_per_sec: 0, burst: 3 });
    assert_eq!(q.rate_config("t"), None);
}

#[test]
fn topics_come_and_go() {
    let mut q = Queue::default();
    assert_eq!(q.apply(AppRequest::CreateTopic { topic: TopicId::from("t") }), AppResponse::TopicCreated);
    assert_eq!(q.metrics().topics, 1);
    produce(&mut q, "t", 0, b"a", "p", 1);
    assert_eq!(q.apply(AppRequest::CreateTopic { topic: TopicId::from("t") }), AppResponse::TopicCreated);
    assert_eq!(q.metrics().messages, 1);
    assert_eq!(q.apply(AppRequest::DeleteTopic { topic: TopicId::from("t") }), AppResponse::TopicDeleted);
    assert_eq!(q.metrics(), QueueMetrics::default());
    assert!(poll(&mut q, "t", "g", 1, 1, 0).is_empty());
    assert_eq!(produce(&mut q, "t", 0, b"a", "p", 1), 0);
}

#[test]
fn has_deliverable_follows_the_leases() {
    let mut q = Queue::default();
    assert!(!q.has_deliverable("t", "g", 0));
    produce(&mut q, "t", 0, b"a", "", 0);
    assert!(q.has_deliverable("t", "g", 0));
    poll(&mut q, "t", "g", 1, 1000, 0);
    assert!(!q.has_deliverable("t", "g", 999));
    assert!(q.has_deliverable("t", "g", 1000));
    assert!(q.has_deliverable("t", "other", 0));
}

#[test]
fn counters_that_would_run_over_are_seen_before() {
    let mut q = Queue::default();
    produce(&mut q, "t", 0, b"a", "", 0);
    let poll_at = |visibility_timeout_ms: u64, ts_ms: u64| AppRequest::Poll {
        topic: TopicId::from("t"),
        group: GroupId::from("g"),
        max: 1,
        visibility_timeout_ms,
        ts_ms,
    };
    assert!(q.can_apply(&poll_at(1, 1)));
    assert!(!q.can_apply(&poll_at(u64::MAX, 1)));
    assert!(q.can_apply(&poll_at(u64::MAX, 0)));
    // Where nothing is handed out, no deadline is needed.
    poll(&mut q, "t", "g", 1, 100, 0);
    assert!(q.can_apply(&poll_at(u64::MAX, 1)));
    assert!(!q.can_apply(&poll_at(u64::MAX, 100)));
    let mut d = q.snapshot();
    d.topics[0].1.next_offset = u64::MAX;
    d.topics[0].1.log.clear();
    d.topics[0].1.groups.clear();
    d.topics[0].1.dedup = vec![DedupData { producer_id: "p".to_string(), seq: 3, offset: 8 }];
    let q = Queue::restore(d).unwrap();
    let send = |seq: u64| AppRequest::Produce {
        topic: TopicId::from("t"),
        priority: Priority(0),
        content_type: ContentType::Raw,
        payload: Vec::new(),
        producer_id: "p".to_string(),
        seq,
        ts_ms: 0,
    };
    assert!(q.can_apply(&send(3)));
    assert!(!q.can_apply(&send(4)));
    assert!(q.can_apply(&AppRequest::CreateTopic { topic: TopicId::from("t") }));
}

#[test]
fn replicas_that_apply_the_same_commands_agree() {
    let commands = || {
        let mut list = Vec::new();
        for i in 0..50u64 {
            list.push(AppRequest::Produce {
                topic: TopicId(format!("t{}", i % 3)),
                priority: Priority((i % 5) as u8),
                content_type: ContentType::Text,
                payload: vec![i as u8],
                producer_id: if i % 2 == 0 { String::new() } else { "p".to_string() },
                seq: i / 4,
                ts_ms: i,
            });
            list.push(AppRequest::Poll {
                topic: TopicId(format!("t{}", i % 3)),
                group: GroupId(format!("g{}", i % 2)),
                max: (i % 4) as u32,
                visibility_timeout_ms: 7,
                ts_ms: i,
            });
            list.push(AppRequest::Ack { topic: TopicId(format!("t{}", i % 3)), group: GroupId::from("g0"), lease_id: i / 2 });
        }
        list
    };
    let mut a = Queue::default();
    let mut b = Queue::default();
    for (x, y) in commands().into_iter().zip(commands()) {
        assert_eq!(a.apply(x), b.apply(y));
    }
    assert_eq!(a.snapshot(), b.snapshot());
}

#[test]
fn names_convert_to_text() {
    assert_eq!(TopicId::from("orders").to_string(), "orders");
    assert_eq!(GroupId::from("workers").to_string(), "workers");
}

#[test]
fn batches_do_what_their_commands_do_one_by_one() {
    let mut batched = Queue::default();
    let mut singly = Queue::default();
    let item = |i: u64| ProduceItem {
        topic: TopicId(format!("t{}", i % 2)),
        priority: Priority((i % 3) as u8),
        content_type: ContentType::Raw,
        payload: vec![i as u8],
        producer_id: "p".to_string(),
        seq: i / 3,
        ts_ms: i,
    };
    let r = batched.apply(AppRequest::ProduceMany { items: (0..12).map(item).collect() });
    let mut offsets = Vec::new();
    for i in 0..12 {
        let p = item(i);
        offsets.push(produce_item(&mut singly, p));
    }
    assert_eq!(r, AppResponse::ProducedMany { offsets });
    assert_eq!(batched.snapshot(), singly.snapshot());

    let (topic, group) = (TopicId::from("t0"), GroupId::from("g"));
    for q in [&mut batched, &mut singly] {
        poll(q, "t0", "g", 4, 100, 20);
    }
    batched.apply(AppRequest::AckMany { topic: topic.clone(), group: group.clone(), lease_ids: vec![2, 0] });
    batched.apply(AppRequest::NackMany { topic: topic.clone(), group: group.clone(), lease_ids: vec![1, 9] });
    for lease_id in [2, 0] {
        ack(&mut singly, "t0", "g", lease_id);
    }
    for lease_id in [1, 9] {
        singly.apply(AppRequest::Nack { topic: topic.clone(), group: group.clone(), lease_id });
    }
    assert_eq!(batched.snapshot(), singly.snapshot());
}

fn produce_item(q: &mut Queue, p: ProduceItem) -> Offset {
    let answer = q.apply(AppRequest::Produce {
        topic: p.topic,
        priority: p.priority,
        content_type: p.content_type,
        payload: p.payload,
        producer_id: p.producer_id,
        seq: p.seq,
        ts_ms: p.ts_ms,
    });
    match answer {
        AppResponse::Produced { offset } => offset,
        other => panic!("expected Produced, got {other:?}"),
    }
}

#[test]
fn lease_numbers_and_offsets_are_never_reused() {
    let mut q = Queue::default();
    let mut next_lease = 0;
    for round in 0..10u64 {
        assert_eq!(produce(&mut q, "t", 0, b"x", "", 0), round);
        for (lease, _) in poll_offsets(&mut q, "t", "g", 8, 5, round * 5) {
            assert_eq!(lease, next_lease);
            next_lease += 1;
            if lease % 2 == 0 {
                ack(&mut q, "t", "g", lease);
            }
        }
    }
    assert!(next_lease >= 10);
}

#[test]
fn commands_leave_other_topics_alone() {
    let mut q = Queue::default();
    produce(&mut q, "kept", 0, b"x", "p", 1);
    poll(&mut q, "kept", "g", 1, 100, 0);
    let kept = |q: &Queue| q.snapshot().topics.into_iter().find(|t| t.0 == "kept").unwrap();
    let before = kept(&q);
    produce(&mut q, "t", 0, b"y", "p", 1);
    poll(&mut q, "t", "g", 1, 100, 0);
    ack(&mut q, "t", "g", 1);
    q.apply(AppRequest::DeleteTopic { topic: TopicId::from("t") });
    assert_eq!(kept(&q), before);
}

fn item(seq: u64) -> ProduceItem {
    ProduceItem {
        topic: TopicId::from("t"),
        priority: Priority(0),
        content_type: ContentType::Raw,
        payload: b"x".to_vec(),
        producer_id: "p".to_string(),
        seq,
        ts_ms: 0,
    }
}

/// A queue whose topic has `room` offsets left and remembers the sequence numbers 0 to 2.
fn nearly_full(room: u64) -> Queue {
    let mut q = Queue::default();
    for seq in 0..3 {
        produce(&mut q, "t", 0, b"a", "p", seq);
    }
    let mut d = q.snapshot();
    d.topics[0].1.log.clear();
    d.topics[0].1.next_offset = u64::MAX - room;
    Queue::restore(d).unwrap()
}

#[test]
fn resends_need_no_offsets() {
    let many = |seqs: &[u64]| AppRequest::ProduceMany { items: seqs.iter().map(|s| item(*s)).collect() };
    let mut q = nearly_full(0);
    assert!(q.can_apply(&many(&[0, 1, 2, 0, 1])));
    assert!(!q.can_apply(&many(&[0, 1, 3])));
    let r = q.apply(many(&[0, 1, 2, 0, 1]));
    assert_eq!(r, AppResponse::ProducedMany { offsets: vec![0, 1, 2, 0, 1] });

    let mut q = nearly_full(2);
    assert!(q.can_apply(&many(&[7, 7, 7, 2, 8, 8])), "two new ones, each sent again");
    assert!(!q.can_apply(&many(&[7, 8, 9])));
    assert!(q.can_apply(&AppRequest::ProduceMany { items: Vec::new() }));
    let first = u64::MAX - 2;
    assert_eq!(
        q.apply(many(&[7, 7, 7, 2, 8, 8])),
        AppResponse::ProducedMany { offsets: vec![first, first, first, 2, first + 1, first + 1] }
    );
}

#[test]
fn an_offset_is_marked_as_acked_whether_or_not_it_is_leased() {
    let mut g = GroupState::new();
    g.mark_acked(1);
    assert!(g.is_done(1) && !g.is_done(0));
    g.mark_acked(0);
    assert!(g.is_done(0) && g.is_done(1) && !g.is_done(2));
    let d = g.snapshot();
    assert_eq!((d.ack_watermark, d.acked_above), (2, Vec::new()));
    g.mark_acked(1);
    assert_eq!(g.snapshot().ack_watermark, 2);

    let mut g = GroupState::new();
    g.lease(7, 0, 100);
    g.count_poll();
    g.mark_acked(0);
    assert!(g.is_done(0) && !g.is_done(1));
    assert_eq!((g.in_flight_len(), g.polls()), (1, 1));
}

#[test]
fn offsets_count_the_new_messages_since_the_topic_was_deleted() {
    let mut q = Queue::default();
    retention(&mut q, 2, 0);
    for n in 0..5 {
        assert_eq!(produce(&mut q, "t", 0, b"a", "", 0), n);
        for (lease, _) in poll_offsets(&mut q, "t", "g", 1, 10, n) {
            ack(&mut q, "t", "g", lease);
        }
    }
    assert_eq!(produce(&mut q, "t", 3, b"last", "p", 9), 5);
    assert_eq!(produce(&mut q, "t", 0, b"again", "p", 9), 5);
    let d = poll(&mut q, "t", "g", 9, 10, 99).pop().unwrap();
    assert_eq!((d.offset, d.priority, d.payload), (5, Priority(3), b"last".to_vec()));
    q.apply(AppRequest::DeleteTopic { topic: TopicId::from("t") });
    assert_eq!(produce(&mut q, "t", 0, b"a", "p", 9), 0);
}

#[test]
fn a_resend_changes_nothing_whatever_came_between() {
    let mut q = Queue::default();
    assert_eq!(produce(&mut q, "t", 0, b"first", "p", 1), 0);
    for seq in 0..50 {
        produce(&mut q, "t", 0, b"x", "other", seq);
    }
    for (lease, _) in poll_offsets(&mut q, "t", "g", 60, 10, 0) {
        ack(&mut q, "t", "g", lease);
    }
    let before = q.snapshot();
    assert_eq!(produce(&mut q, "t", 7, b"something else", "p", 1), 0);
    assert_eq!(q.snapshot(), before);
}

#[test]
fn the_last_rate_limit_stays_in_force() {
    let mut q = Queue::default();
    let set = |rate_milli_per_sec: u64, burst: u32| AppRequest::SetRateLimit {
        topic: TopicId::from("t"),
        rate_milli_per_sec,
        burst,
    };
    q.apply(set(10, 1));
    q.apply(set(20, 2));
    produce(&mut q, "t", 0, b"a", "", 0);
    retention(&mut q, 4, 0);
    for (lease, _) in poll_offsets(&mut q, "t", "g", 1, 10, 0) {
        ack(&mut q, "t", "g", lease);
    }
    assert_eq!(q.rate_config("t"), Some((20, 2)));
    q.apply(set(0, 5));
    assert_eq!(q.rate_config("t"), None);
}

#[test]
fn a_poll_that_is_nacked_leaves_what_it_found() {
    let mut q = Queue::default();
    for p in [0, 5, 3, 5, 1] {
        produce(&mut q, "t", p, b"a", "", 0);
    }
    let held = poll_offsets(&mut q, "t", "g", 1, 1_000, 0);
    let before = q.snapshot();
    let leases: Vec<LeaseId> = poll(&mut q, "t", "g", 3, 1_000, 1).iter().map(|d| d.lease_id).collect();
    assert_eq!(leases.len(), 3);
    for lease_id in leases.iter().chain(leases.iter()) {
        q.apply(AppRequest::Nack { topic: TopicId::from("t"), group: GroupId::from("g"), lease_id: *lease_id });
    }
    ack(&mut q, "t", "g", leases[0]);
    let mut after = q.snapshot();
    after.next_lease_id = before.next_lease_id;
    after.topics[0].1.groups[0].1.poll_count -= 1;
    assert_eq!(after, before);
    assert_eq!(after.topics[0].1.groups[0].1.in_flight[0].0, held[0].0);
}

#[test]
fn two_commits_have_the_effect_of_the_larger() {
    let commit = |q: &mut Queue, offset: Offset| {
        q.apply(AppRequest::CommitOffset { topic: TopicId::from("t"), group: GroupId::from("g"), offset });
    };
    let start = || {
        let mut q = Queue::default();
        for _ in 0..10 {
            produce(&mut q, "t", 0, b"a", "", 0);
        }
        poll(&mut q, "t", "h", 2, 100, 0);
        for (lease, offset) in poll_offsets(&mut q, "t", "g", 8, 100, 0) {
            if offset == 4 || offset == 5 {
                ack(&mut q, "t", "g", lease);
            }
        }
        q
    };
    for (a, b) in [(2, 4), (4, 2), (3, 3), (5, 6), (6, 20), (20, 1), (0, 4)] {
        let (mut twice, mut once) = (start(), start());
        commit(&mut twice, a);
        commit(&mut twice, b);
        commit(&mut once, a.max(b));
        assert_eq!(twice.snapshot(), once.snapshot(), "{a} then {b}");
    }
}

#[test]
fn one_of_four_polls_serves_the_oldest_whatever_comes_between() {
    let mut q = Queue::default();
    produce(&mut q, "t", 0, b"low", "", 0);
    let mut served = Vec::new();
    for ts in 0..4 {
        produce(&mut q, "t", 9, b"high", "", 0);
        produce(&mut q, "t", 9, b"high", "", 0);
        for (lease, offset) in poll_offsets(&mut q, "t", "g", 1, 1_000, ts) {
            served.push(offset);
            ack(&mut q, "t", "g", lease);
        }
        poll(&mut q, "t", "other", 1, 1_000, ts);
    }
    assert!(served.contains(&0), "served {served:?}");
}

#[test]
fn a_leased_message_comes_back_only_after_its_deadline() {
    let mut q = Queue::default();
    produce(&mut q, "t", 0, b"a", "", 0);
    poll(&mut q, "t", "g", 1, 1_000, 0);
    produce(&mut q, "t", 9, b"b", "", 0);
    q.apply(AppRequest::Nack { topic: TopicId::from("t"), group: GroupId::from("g"), lease_id: 77 });
    assert_eq!(offsets(&mut q, "t", "g", 9, 10, 998), vec![1]);
    assert_eq!(offsets(&mut q, "t", "g", 9, 10, 999), Vec::<Offset>::new());
    assert_eq!(offsets(&mut q, "t", "g", 9, 10, 1_000), vec![0]);
}

#[test]
fn a_group_leaves_the_others_alone() {
    let mut q = Queue::default();
    for _ in 0..6 {
        produce(&mut q, "t", 0, b"a", "", 0);
    }
    poll(&mut q, "t", "h", 2, 1_000, 0);
    let h = |q: &Queue| q.snapshot().topics[0].1.groups.iter().find(|g| g.0 == "h").unwrap().1.clone();
    let before = h(&q);
    for (lease, offset) in poll_offsets(&mut q, "t", "g", 6, 1_000, 0) {
        if offset % 2 == 0 {
            ack(&mut q, "t", "g", lease);
        }
    }
    q.apply(AppRequest::CommitOffset { topic: TopicId::from("t"), group: GroupId::from("g"), offset: 9 });
    assert_eq!(h(&q), before);
    assert_eq!(offsets(&mut q, "t", "h", 9, 1_000, 1), vec![2, 3, 4, 5]);
}

#[test]
fn a_deleted_topic_takes_its_leases_with_it() {
    let mut q = Queue::default();
    produce(&mut q, "t", 0, b"a", "", 0);
    let old = poll_offsets(&mut q, "t", "g", 1, 1_000, 0)[0].0;
    q.apply(AppRequest::DeleteTopic { topic: TopicId::from("t") });
    produce(&mut q, "t", 0, b"b", "", 0);
    let new = poll_offsets(&mut q, "t", "g", 1, 1_000, 1)[0].0;
    assert!(old < new);
    let before = q.snapshot();
    ack(&mut q, "t", "g", old);
    q.apply(AppRequest::Nack { topic: TopicId::from("t"), group: GroupId::from("g"), lease_id: old });
    assert_eq!(q.snapshot(), before);
}
