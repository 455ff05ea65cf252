//! The store, its recovery, the log, the state machine and snapshots.
use std::collections::BTreeMap;

use hermesmq::codec::{read_commit, read_position, read_snapshot_end, write_commit, write_position, LogPos};
use hermesmq::command::{AppRequest, AppResponse};
use hermesmq::error::{Error, Result};
use hermesmq::log_store::{log_end, FlushAnswer, FlushBatch, FlushJob, PendingLog, RangeEnd, RangeStart};
use hermesmq::machine_store::{install_snapshot, persist_snapshot, start_machine, stored_snapshot, InstallError};
use hermesmq::queue::Queue;
use hermesmq::recovery::{
    is_orphaned, is_unbacked, last_purged, later_of, mark_purged, read_committed, recover_consistency,
    save_committed, snapshot_last_index, trusted_commit,
};
use hermesmq::state_machine::{EntryPayload, LogEntry, MachineData, StateMachine};
use hermesmq::storage::{Storage, StoreView, KEY_COMMITTED, KEY_PURGED, KEY_SNAPSHOT, KEY_VOTE};
use hermesmq::types::{ContentType, GroupId, Priority, TopicId};

#[derive(Default)]
struct MemStore {
    log: BTreeMap<u64, Vec<u8>>,
    meta: BTreeMap<String, Vec<u8>>,
    broken: bool,
}

impl MemStore {
    fn check(&self) -> Result<()> {
        if self.broken {
            Err(Error::Storage("broken".to_string()))
        } else {
            Ok(())
        }
    }
}

impl Storage for MemStore {
    /// Only proofs speak of it.
    fn held(&self) -> StoreView {
        unreachable!()
    }
    /// Only proofs speak of it.
    fn fails_with(_: Error) -> bool {
        unreachable!()
    }
    fn append_log(&mut self, entries: &Vec<(u64, Vec<u8>)>) -> Result<()> {
        self.check()?;
        for (index, bytes) in entries {
            self.log.insert(*index, bytes.clone());
        }
        Ok(())
    }
    fn read_log(&self, start: u64, end: u64) -> Result<Vec<(u64, Vec<u8>)>> {
        self.check()?;
        Ok(self.log.iter().filter(|(k, _)| **k >= start && **k < end).map(|(k, v)| (*k, v.clone())).collect())
    }
    fn truncate_log_from(&mut self, index: u64) -> Result<()> {
        self.check()?;
        self.log.retain(|k, _| *k < index);
        Ok(())
    }
    fn purge_log_upto(&mut self, index: u64) -> Result<()> {
        self.check()?;
        self.log.retain(|k, _| *k > index);
        Ok(())
    }
    fn first_log_index(&self) -> Result<Option<u64>> {
        self.check()?;
        Ok(self.log.keys().next().copied())
    }
    fn last_log_index(&self) -> Result<Option<u64>> {
        self.check()?;
        Ok(self.log.keys().next_back().copied())
    }
    fn save_vote(&mut self, vote: &Vec<u8>) -> Result<()> {
        self.put(KEY_VOTE, vote)
    }
    fn read_vote(&self) -> Result<Option<Vec<u8>>> {
        self.get(KEY_VOTE)
    }
    fn save_committed(&mut self, committed: &Vec<u8>) -> Result<()> {
        self.put(KEY_COMMITTED, committed)
    }
    fn read_committed(&self) -> Result<Option<Vec<u8>>> {
        self.get(KEY_COMMITTED)
    }
    fn put(&mut self, key: &str, value: &Vec<u8>) -> Result<()> {
        self.check()?;
        self.meta.insert(key.to_string(), value.clone());
        Ok(())
    }
    fn get(&self, key: &str) -> Result<Option<Vec<u8>>> {
        self.check()?;
        Ok(self.meta.get(key).cloned())
    }
    fn delete(&mut self, key: &str) -> Result<()> {
        self.check()?;
        self.meta.remove(key);
        Ok(())
    }
    fn scan_prefix(&self, prefix: &str) -> Result<Vec<(String, Vec<u8>)>> {
        self.check()?;
        Ok(self.meta.iter().filter(|(k, _)| k.starts_with(prefix)).map(|(k, v)| (k.clone(), v.clone())).collect())
    }
}

fn log_id(index: u64) -> LogPos {
    LogPos { term: 3615, node_id: 3, index }
}

fn seeded(range: std::ops::Range<u64>) -> MemStore {
    let mut db = MemStore::default();
    let entries: Vec<(u64, Vec<u8>)> = range.map(|i| (i, vec![i as u8])).collect();
    db.append_log(&entries).unwrap();
    db
}

fn snapshot_bytes(last: Option<LogPos>) -> Vec<u8> {
    let meta: openraft::SnapshotMeta<u64, openraft::BasicNode> = openraft::SnapshotMeta {
        last_log_id: last.map(|p| openraft::LogId::new(openraft::CommittedLeaderId::new(p.term, p.node_id), p.index)),
        last_membership: openraft::StoredMembership::default(),
        snapshot_id: "s".to_string(),
    };
    postcard::to_stdvec(&(meta, vec![1u8, 2, 3])).unwrap()
}

#[test]
fn positions_are_stored_as_the_raft_library_reads_them() {
    let p = LogPos { term: 300, node_id: 2, index: 70_000 };
    let bytes = write_position(&p).unwrap();
    let id: openraft::LogId<u64> = postcard::from_bytes(&bytes).unwrap();
    assert_eq!((id.leader_id.term, id.leader_id.node_id, id.index), (300, 2, 70_000));
    assert_eq!(read_position(&bytes).unwrap(), p);
    assert_eq!(bytes, vec![0xac, 0x02, 2, 0xf0, 0xa2, 0x04]);
    let some = write_commit(&Some(p)).unwrap();
    assert_eq!(some[0], 1);
    assert_eq!(read_commit(&some).unwrap(), Some(p));
    let none = write_commit(&None).unwrap();
    assert_eq!(none, vec![0]);
    assert_eq!(read_commit(&none).unwrap(), None);
}

#[test]
fn broken_bytes_are_storage_errors() {
    assert_eq!(
        read_position(&vec![0xff]),
        Err(Error::Storage("Hit the end of buffer, expected more data".to_string()))
    );
    assert_eq!(
        read_commit(&vec![9]),
        Err(Error::Storage("Found an Option discriminant that wasn't 0 or 1".to_string()))
    );
    assert!(matches!(read_snapshot_end(&vec![9]), Err(Error::Storage(_))));
}

#[test]
fn snapshot_index_is_that_of_its_last_entry() {
    let mut db = MemStore::default();
    assert_eq!(snapshot_last_index(&db).unwrap(), None);
    db.put(KEY_SNAPSHOT, &snapshot_bytes(Some(log_id(41)))).unwrap();
    assert_eq!(snapshot_last_index(&db).unwrap(), Some(41));
    db.put(KEY_SNAPSHOT, &snapshot_bytes(None)).unwrap();
    assert_eq!(snapshot_last_index(&db).unwrap(), None);
    db.put(KEY_SNAPSHOT, &vec![7]).unwrap();
    assert!(snapshot_last_index(&db).is_err());
}

#[test]
fn read_committed_drops_a_pointer_past_the_available_log() {
    let mut db = MemStore::default();
    save_committed(&mut db, Some(log_id(196780))).unwrap();
    assert_eq!(
        read_committed(&db, None).unwrap(),
        None,
        "a committed pointer with no backing log must not be trusted"
    );
}

#[test]
fn read_committed_keeps_a_pointer_covered_by_the_log() {
    let mut db = MemStore::default();
    db.append_log(&vec![(1, b"a".to_vec()), (2, b"b".to_vec())]).unwrap();
    save_committed(&mut db, Some(log_id(2))).unwrap();
    assert_eq!(read_committed(&db, None).unwrap(), Some(log_id(2)));
}

#[test]
fn read_committed_counts_what_is_on_its_way() {
    let mut db = seeded(1..3);
    save_committed(&mut db, Some(log_id(5))).unwrap();
    assert_eq!(read_committed(&db, Some(4)).unwrap(), None);
    assert_eq!(read_committed(&db, Some(5)).unwrap(), Some(log_id(5)));
    save_committed(&mut db, None).unwrap();
    assert_eq!(read_committed(&db, Some(5)).unwrap(), None);
    db.broken = true;
    assert_eq!(read_committed(&db, Some(5)), Err(Error::Storage("broken".to_string())));
}

#[test]
fn healthy_store_is_left_alone() {
    let mut db = seeded(0..10);
    save_committed(&mut db, Some(log_id(9))).unwrap();
    db.put(KEY_PURGED, &write_position(&log_id(0)).unwrap()).unwrap();
    recover_consistency(&mut db).unwrap();
    assert_eq!((db.log.len(), db.meta.len()), (10, 2));
}

#[test]
fn lost_log_prefix_without_snapshot_recovers() {
    let mut db = seeded(0..200);
    save_committed(&mut db, Some(log_id(199))).unwrap();
    db.put(KEY_PURGED, &write_position(&log_id(0)).unwrap()).unwrap();
    db.purge_log_upto(63).unwrap();
    recover_consistency(&mut db).unwrap();
    assert!(db.log.is_empty());
    assert!(db.meta.is_empty());
}

#[test]
fn committed_past_end_of_log_recovers() {
    let mut db = seeded(0..200);
    save_committed(&mut db, Some(log_id(199))).unwrap();
    db.truncate_log_from(100).unwrap();
    recover_consistency(&mut db).unwrap();
    assert_eq!(db.last_log_index().unwrap(), Some(99));
    assert_eq!(db.read_committed().unwrap(), None);
}

#[test]
fn snapshot_carries_the_log_that_follows_it() {
    let mut db = seeded(42..50);
    db.put(KEY_SNAPSHOT, &snapshot_bytes(Some(log_id(41)))).unwrap();
    save_committed(&mut db, Some(log_id(49))).unwrap();
    recover_consistency(&mut db).unwrap();
    assert_eq!(db.log.len(), 8);
    db.purge_log_upto(42).unwrap();
    recover_consistency(&mut db).unwrap();
    assert!(db.log.is_empty());
    assert_eq!(db.read_committed().unwrap(), None);
    save_committed(&mut db, Some(log_id(41))).unwrap();
    recover_consistency(&mut db).unwrap();
    assert!(db.read_committed().unwrap().is_some());
}

#[test]
fn recovery_fails_where_the_store_fails() {
    let mut db = seeded(0..2);
    db.broken = true;
    assert!(recover_consistency(&mut db).is_err());
    let mut db = seeded(0..2);
    db.save_committed(&vec![7]).unwrap();
    assert!(recover_consistency(&mut db).is_err());
}

#[test]
fn recovery_decisions() {
    assert!(!is_orphaned(None, None));
    assert!(!is_orphaned(None, Some(0)));
    assert!(is_orphaned(None, Some(1)));
    assert!(!is_orphaned(Some(5), Some(6)));
    assert!(is_orphaned(Some(5), Some(7)));
    assert!(!is_orphaned(Some(u64::MAX), Some(u64::MAX)));
    assert!(is_unbacked(&log_id(3), None));
    assert!(is_unbacked(&log_id(3), Some(2)));
    assert!(!is_unbacked(&log_id(3), Some(3)));
    assert_eq!(later_of(Some(1), Some(2)), Some(2));
    assert_eq!(later_of(Some(3), None), Some(3));
    assert_eq!(later_of(None, None), None);
    assert_eq!(trusted_commit(log_id(3), Some(3)), Some(log_id(3)));
    assert_eq!(trusted_commit(log_id(3), Some(2)), None);
}

#[test]
fn purge_marker_never_moves_back() {
    let mut db = seeded(0..10);
    mark_purged(&mut db, &log_id(4)).unwrap();
    assert_eq!(db.first_log_index().unwrap(), Some(5));
    assert_eq!(last_purged(&db).unwrap(), Some(log_id(4)));
    mark_purged(&mut db, &log_id(2)).unwrap();
    assert_eq!(last_purged(&db).unwrap(), Some(log_id(4)));
    mark_purged(&mut db, &log_id(7)).unwrap();
    assert_eq!(db.first_log_index().unwrap(), Some(8));
    assert_eq!(last_purged(&db).unwrap(), Some(log_id(7)));
}

fn indices(list: &[(u64, Vec<u8>)]) -> Vec<u64> {
    list.iter().map(|e| e.0).collect()
}

#[test]
fn reads_merge_what_is_stored_and_what_is_on_its_way() {
    let db = seeded(0..4);
    let mut pending = PendingLog::new();
    pending.append(&vec![(3, vec![33]), (4, vec![44]), (5, vec![55])]);
    assert_eq!(pending.last(), Some(5));
    let all = pending.try_get_log_entries(&db, RangeStart::Unbounded, RangeEnd::Unbounded).unwrap();
    assert_eq!(
        all,
        vec![(0, vec![0]), (1, vec![1]), (2, vec![2]), (3, vec![33]), (4, vec![44]), (5, vec![55])]
    );
    let some = pending.try_get_log_entries(&db, RangeStart::Included(2), RangeEnd::Excluded(5)).unwrap();
    assert_eq!(indices(&some), vec![2, 3, 4]);
    let some = pending.try_get_log_entries(&db, RangeStart::Excluded(2), RangeEnd::Included(4)).unwrap();
    assert_eq!(indices(&some), vec![3, 4]);
    let none = pending.try_get_log_entries(&db, RangeStart::Included(9), RangeEnd::Excluded(3)).unwrap();
    assert!(none.is_empty());
}

#[test]
fn flushing_changes_nothing_that_is_read() {
    let mut db = MemStore::default();
    let mut pending = PendingLog::new();
    let entries = vec![(0, vec![1]), (1, vec![2])];
    pending.append(&entries);
    let read = |db: &MemStore, p: &PendingLog| {
        p.try_get_log_entries(db, RangeStart::Unbounded, RangeEnd::Unbounded).unwrap()
    };
    let before = read(&db, &pending);
    let mut batch = FlushBatch::new();
    batch.take(FlushJob::Append(entries));
    let outcome = batch.flush(&mut db);
    assert_eq!(batch.settle(outcome, &mut pending), vec![FlushAnswer::Written(Ok(()))]);
    assert_eq!(pending.last(), None);
    assert_eq!(read(&db, &pending), before);
    db.broken = true;
    assert!(batch.flush(&mut db).is_err());
    assert!(FlushBatch::new().flush(&mut db).is_ok());
}

#[test]
fn flushes_are_bounded() {
    let mut batch = FlushBatch::new();
    assert!(batch.wants_more());
    batch.take(FlushJob::Append((0..511).map(|i| (i, vec![])).collect()));
    assert!(batch.wants_more());
    batch.take(FlushJob::Append(vec![(511, vec![])]));
    assert!(!batch.wants_more());
    let mut batch = FlushBatch::new();
    batch.take(FlushJob::Append(vec![(0, vec![0; 8 * 1024 * 1024])]));
    assert!(!batch.wants_more());
    let mut batch = FlushBatch::new();
    batch.take(FlushJob::Barrier);
    assert!(!batch.wants_more());
}

#[test]
fn log_state_is_the_last_entry_or_the_purge() {
    let mut db = MemStore::default();
    let mut pending = PendingLog::new();
    assert_eq!(pending.get_log_state(&db).unwrap(), (None, None));
    db.append_log(&vec![(0, vec![10]), (1, vec![11])]).unwrap();
    assert_eq!(pending.get_log_state(&db).unwrap(), (None, Some(vec![11])));
    pending.append(&vec![(2, vec![12])]);
    assert_eq!(pending.get_log_state(&db).unwrap(), (None, Some(vec![12])));
    pending.purge(&mut db, &log_id(2)).unwrap();
    assert_eq!(pending.get_log_state(&db).unwrap(), (Some(log_id(2)), None));
    assert_eq!(log_end(None, Some(log_id(2))), Some(log_id(2)));
    assert_eq!(log_end(Some(log_id(5)), Some(log_id(2))), Some(log_id(5)));
}

#[test]
fn truncated_entries_are_gone() {
    let mut db = seeded(0..4);
    let mut pending = PendingLog::new();
    pending.append(&vec![(4, vec![4]), (5, vec![5])]);
    pending.truncate(&mut db, &log_id(3)).unwrap();
    let all = pending.try_get_log_entries(&db, RangeStart::Unbounded, RangeEnd::Unbounded).unwrap();
    assert_eq!(indices(&all), vec![0, 1, 2]);
}

#[test]
fn exhausted_index_is_an_error() {
    let mut db = MemStore::default();
    db.append_log(&vec![(u64::MAX, vec![1])]).unwrap();
    let pending = PendingLog::new();
    let used_up = || Error::Storage("the log has used up its indices".to_string());
    let all = pending.try_get_log_entries(&db, RangeStart::Unbounded, RangeEnd::Unbounded);
    assert_eq!(all, Err(used_up()));
    assert_eq!(pending.get_log_state(&db), Err(used_up()));
}

#[test]
fn errors_come_from_the_store_or_from_its_bytes() {
    let broken = || Error::Storage("broken".to_string());
    let mut db = seeded(0..2);
    db.broken = true;
    let pending = PendingLog::new();
    assert_eq!(snapshot_last_index(&db), Err(broken()));
    assert_eq!(last_purged(&db), Err(broken()));
    assert_eq!(mark_purged(&mut db, &log_id(1)), Err(broken()));
    assert_eq!(save_committed(&mut db, None), Err(broken()));
    assert_eq!(recover_consistency(&mut db), Err(broken()));
    assert_eq!(pending.get_log_state(&db), Err(broken()));
    let all = pending.try_get_log_entries(&db, RangeStart::Unbounded, RangeEnd::Unbounded);
    assert_eq!(all, Err(broken()));

    let mut db = seeded(3..5);
    db.save_committed(&vec![7]).unwrap();
    let words = || read_commit(&vec![7]).unwrap_err();
    assert_eq!(read_committed(&db, None), Err(words()));
    // The log that cannot be replayed is dropped before the position is read.
    assert_eq!(recover_consistency(&mut db), Err(words()));
    assert!(db.log.is_empty());

    let mut db = seeded(0..2);
    db.put(KEY_PURGED, &vec![]).unwrap();
    assert_eq!(mark_purged(&mut db, &log_id(1)), Err(read_position(&vec![]).unwrap_err()));
    assert_eq!(db.log.len(), 2);
}

fn entry(index: u64, payload: EntryPayload<&'static str>) -> LogEntry<&'static str> {
    LogEntry { log_id: log_id(index), payload }
}

fn produce(body: &str, seq: u64) -> AppRequest {
    AppRequest::Produce {
        topic: TopicId::from("t"),
        priority: Priority::default(),
        content_type: ContentType::Raw,
        payload: body.as_bytes().to_vec(),
        producer_id: "p".to_string(),
        seq,
        ts_ms: 0,
    }
}

fn poll(max: u32) -> AppRequest {
    AppRequest::Poll {
        topic: TopicId::from("t"),
        group: GroupId::from("g"),
        max,
        visibility_timeout_ms: 1000,
        ts_ms: 0,
    }
}

#[test]
fn entries_are_applied_in_order() {
    let mut m = StateMachine::new("none");
    let answers = m
        .apply(vec![
            entry(0, EntryPayload::Membership("one")),
            entry(1, EntryPayload::Blank),
            entry(2, EntryPayload::Normal(produce("a", 1))),
            entry(3, EntryPayload::Normal(produce("b", 2))),
            entry(4, EntryPayload::Normal(produce("a", 1))),
        ])
        .unwrap();
    assert_eq!(
        answers,
        vec![
            AppResponse::NoOp,
            AppResponse::NoOp,
            AppResponse::Produced { offset: 0 },
            AppResponse::Produced { offset: 1 },
            AppResponse::Produced { offset: 0 },
        ]
    );
    assert_eq!(m.last_applied(), Some(log_id(4)));
    assert_eq!(m.membership(), (Some(log_id(0)), &"one"));
    assert_eq!(m.metrics().messages, 2);
    assert!(m.has_deliverable("t", "g", 0));
    assert_eq!(m.rate_config("t"), None);
}

#[test]
fn an_entry_without_room_stops_the_rest() {
    let mut m = StateMachine::new("none");
    let bad = AppRequest::Poll {
        topic: TopicId::from("t"),
        group: GroupId::from("g"),
        max: 1,
        visibility_timeout_ms: u64::MAX,
        ts_ms: 1,
    };
    let r = m.apply(vec![
        entry(0, EntryPayload::Normal(produce("a", 1))),
        entry(1, EntryPayload::Normal(bad)),
        entry(2, EntryPayload::Normal(produce("b", 2))),
    ]);
    assert_eq!(r, Err(1));
    assert_eq!(m.last_applied(), Some(log_id(0)));
    assert_eq!(m.metrics().messages, 1);
}

#[test]
fn snapshots_are_named_after_their_last_entry() {
    let mut m = StateMachine::new("none");
    assert_eq!(m.next_snapshot_name(), "none-1");
    m.apply(vec![entry(12, EntryPayload::Blank)]).unwrap();
    assert_eq!(m.next_snapshot_name(), "12-2");
    let other = MachineData {
        last_applied: Some(log_id(40)),
        membership_at: None,
        membership: "two",
        queue: Queue::default().snapshot(),
    };
    m.install(StateMachine::restore(other).unwrap());
    assert_eq!(m.membership(), (None, &"two"));
    assert_eq!(m.next_snapshot_name(), "40-3");
    assert_eq!(m.snapshot_count(), 3);
}

fn busy_queue() -> Queue {
    let mut q = Queue::default();
    q.apply(AppRequest::SetRetention { topic: TopicId::from("t"), max_messages: 50, max_age_ms: 0 });
    q.apply(AppRequest::SetRateLimit { topic: TopicId::from("u"), rate_milli_per_sec: 9, burst: 8 });
    for i in 0..20 {
        q.apply(produce(&format!("m{i}"), i));
    }
    q.apply(poll(5));
    q.apply(AppRequest::Ack { topic: TopicId::from("t"), group: GroupId::from("g"), lease_id: 2 });
    q.apply(AppRequest::CommitOffset { topic: TopicId::from("t"), group: GroupId::from("h"), offset: 3 });
    q
}

#[test]
fn snapshots_round_trip() {
    let q = busy_queue();
    let data = q.snapshot();
    let r = Queue::restore(data.clone()).expect("a snapshot restores");
    assert_eq!(r.snapshot(), data);
    assert_eq!(r.metrics(), q.metrics());
}

#[test]
fn a_restored_node_goes_on_like_the_others() {
    let mut a = StateMachine::new("none");
    a.apply(vec![entry(0, EntryPayload::Membership("one"))]).unwrap();
    a.apply((1..10).map(|i| entry(i, EntryPayload::Normal(produce("x", i)))).collect()).unwrap();
    let mut b = StateMachine::restore(a.snapshot("one")).unwrap();
    assert_eq!(b.membership(), (Some(log_id(0)), &"one"));
    assert_eq!(b.last_applied(), Some(log_id(9)));
    let rest = || {
        vec![
            entry(10, EntryPayload::Normal(poll(4))),
            entry(11, EntryPayload::Normal(produce("x", 3))),
            entry(12, EntryPayload::Normal(produce("y", 99))),
        ]
    };
    assert_eq!(a.apply(rest()), b.apply(rest()));
    assert_eq!(a.queue().snapshot(), b.queue().snapshot());
    assert_eq!(a.last_applied(), b.last_applied());
}

#[test]
fn inconsistent_snapshots_are_refused() {
    let good = busy_queue().snapshot();
    let topic = good.topics.iter().position(|t| t.0 == "t").unwrap();

    let mut d = good.clone();
    d.topics.push(d.topics[0].clone());
    assert!(Queue::restore(d).is_none(), "a topic twice");

    let mut d = good.clone();
    d.topics[topic].1.log[1].offset = 77;
    assert!(Queue::restore(d).is_none(), "a gap in the log");

    let mut d = good.clone();
    d.topics[topic].1.next_offset = 3;
    assert!(Queue::restore(d).is_none(), "more messages than offsets");

    let mut d = good.clone();
    d.next_lease_id = 1;
    assert!(Queue::restore(d).is_none(), "a lease that was never handed out");

    let mut d = good.clone();
    let first = d.topics[topic].1.dedup[0].clone();
    d.topics[topic].1.dedup.push(first);
    assert!(Queue::restore(d).is_none(), "a sequence number twice");

    let mut d = good.clone();
    d.topics[topic].1.dedup[0].offset = 1_000;
    assert!(Queue::restore(d).is_none(), "an offset that was never given");

    let mut d = good.clone();
    let g = d.topics[topic].1.groups[0].clone();
    d.topics[topic].1.groups.push(g);
    assert!(Queue::restore(d).is_none(), "a group twice");

    let mut d = good.clone();
    let lease = d.topics[topic].1.groups[0].1.in_flight[0];
    d.topics[topic].1.groups[0].1.in_flight.push((lease.0 + 100, lease.1));
    d.next_lease_id = 1_000;
    assert!(Queue::restore(d).is_none(), "a message leased twice");

    let mut d = good.clone();
    d.topics[topic].1.groups[0].1.acked_above.push(0);
    d.topics[topic].1.groups[0].1.ack_watermark = 5;
    assert!(Queue::restore(d.clone()).is_none(), "an ack below the watermark");

    let bad = MachineData { last_applied: None, membership_at: None, membership: "one", queue: d };
    assert!(StateMachine::restore(bad).is_none());
    assert!(Queue::restore(good).is_some());
}

#[test]
fn a_snapshot_that_keeps_consumed_messages_is_restored_without_them() {
    let mut d = busy_queue().snapshot();
    let topic = d.topics.iter().position(|t| t.0 == "t").unwrap();
    for g in d.topics[topic].1.groups.iter_mut() {
        g.1.ack_watermark = 10;
        g.1.acked_above.clear();
        g.1.in_flight.clear();
    }
    assert_eq!(d.topics[topic].1.log.len(), 20);
    let r = Queue::restore(d.clone()).expect("the data is that of a queue").snapshot();
    assert_eq!(r.topics[topic].1.log.len(), 10);
    assert_eq!(r.topics[topic].1.log[0].offset, 10);
    assert_eq!(r.topics[topic].1.next_offset, 20);
    d.topics[topic].1.log.drain(..10);
    assert_eq!(r, d, "nothing else has changed");
}

#[test]
fn every_entry_is_written_once_and_in_order() {
    let jobs: Vec<Vec<(u64, Vec<u8>)>> = vec![
        vec![(1, b"a".to_vec()), (2, b"b".to_vec())],
        vec![],
        vec![(3, b"c".to_vec())],
        vec![(2, b"B".to_vec()), (4, b"d".to_vec())],
    ];
    for cut in 0..=jobs.len() {
        let mut db = MemStore::default();
        let mut pending = PendingLog::new();
        for job in &jobs {
            pending.append(job);
        }
        for part in [&jobs[..cut], &jobs[cut..]] {
            let mut batch = FlushBatch::new();
            for job in part {
                batch.take(FlushJob::Append(job.clone()));
            }
            let outcome = batch.flush(&mut db);
            let answers = batch.settle(outcome, &mut pending);
            assert_eq!(answers.len(), part.len());
            assert!(answers.iter().all(|a| *a == FlushAnswer::Written(Ok(()))));
        }
        let written: Vec<(u64, &[u8])> = db.log.iter().map(|(k, v)| (*k, v.as_slice())).collect();
        assert_eq!(written, vec![(1, &b"a"[..]), (2, &b"B"[..]), (3, &b"c"[..]), (4, &b"d"[..])]);
        assert_eq!(pending.last(), None);
    }
}

#[test]
fn every_job_is_told_what_came_of_its_write() {
    let mut db = MemStore::default();
    let mut pending = PendingLog::new();
    let entries: Vec<(u64, Vec<u8>)> = vec![(1, b"a".to_vec()), (2, b"b".to_vec())];
    pending.append(&entries);
    let mut batch = FlushBatch::new();
    batch.take(FlushJob::Append(vec![entries[0].clone()]));
    batch.take(FlushJob::Append(vec![entries[1].clone()]));
    batch.take(FlushJob::Barrier);
    assert!(!batch.wants_more());

    db.broken = true;
    let outcome = batch.flush(&mut db);
    let failed = || FlushAnswer::Written(Err("storage error: broken".to_string()));
    assert_eq!(batch.settle(outcome, &mut pending), vec![failed(), failed(), FlushAnswer::Passed]);
    assert_eq!(pending.last(), Some(2), "what was not written stays on its way");

    db.broken = false;
    let outcome = batch.flush(&mut db);
    let written = || FlushAnswer::Written(Ok(()));
    assert_eq!(batch.settle(outcome, &mut pending), vec![written(), written(), FlushAnswer::Passed]);
    assert_eq!(pending.last(), None);

    let empty = FlushBatch::new();
    assert_eq!(empty.settle(Ok(()), &mut pending), Vec::new());
    let mut lone = FlushBatch::new();
    lone.take(FlushJob::Barrier);
    db.broken = true;
    let outcome = lone.flush(&mut db);
    assert!(outcome.is_ok(), "nothing is written");
    assert_eq!(lone.settle(outcome, &mut pending), vec![FlushAnswer::Passed]);
}

#[test]
fn an_installed_snapshot_makes_the_nodes_equal() {
    let mut a = StateMachine::new("none");
    a.apply(vec![entry(0, EntryPayload::Membership("one"))]).unwrap();
    a.apply((1..10).map(|i| entry(i, EntryPayload::Normal(produce("x", i)))).collect()).unwrap();
    let bytes = b"the bytes of the snapshot".to_vec();

    let mut db = MemStore::default();
    assert_eq!(stored_snapshot(&db).unwrap(), None);
    let mut b = start_machine(None, "none").unwrap();
    b.apply(vec![entry(3, EntryPayload::Normal(produce("y", 1)))]).unwrap();
    b.next_snapshot_name();

    let r = install_snapshot(&mut b, &mut db, None, &bytes);
    assert!(matches!(r, Err(InstallError::NoMachine)));
    let mut bad = a.snapshot("one");
    bad.queue.topics[0].1.next_offset = 0;
    let r = install_snapshot(&mut b, &mut db, Some(bad), &bytes);
    assert!(matches!(r, Err(InstallError::NoMachine)));
    db.broken = true;
    let r = install_snapshot(&mut b, &mut db, Some(a.snapshot("one")), &bytes);
    assert!(matches!(r, Err(InstallError::Store(Error::Storage(m))) if m == "broken"));
    db.broken = false;
    assert_eq!(b.last_applied(), Some(log_id(3)));
    assert_eq!(b.metrics().messages, 1);
    assert_eq!(stored_snapshot(&db).unwrap(), None);

    install_snapshot(&mut b, &mut db, Some(a.snapshot("one")), &bytes).unwrap();
    assert_eq!(stored_snapshot(&db).unwrap(), Some(bytes));
    let mut c = start_machine(Some(a.snapshot("one")), "none").unwrap();
    let rest = || {
        vec![
            entry(10, EntryPayload::Normal(poll(4))),
            entry(11, EntryPayload::Normal(produce("x", 3))),
        ]
    };
    let answers = a.apply(rest());
    for m in [&mut b, &mut c] {
        assert_eq!(m.apply(rest()), answers);
        assert_eq!(m.membership(), (Some(log_id(0)), &"one"));
        assert_eq!(m.last_applied(), a.last_applied());
        assert_eq!(m.queue().snapshot(), a.queue().snapshot());
    }
    assert_eq!(b.snapshot_count(), 1, "the numbering of its own snapshots goes on");

    persist_snapshot(&mut db, &b"later".to_vec()).unwrap();
    assert_eq!(stored_snapshot(&db).unwrap(), Some(b"later".to_vec()));
}
