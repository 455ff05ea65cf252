//! What the node keeps on disk.
use crate::error::{Error, Result};
use vstd::prelude::*;

verus! {

/// The key of the vote.
pub const KEY_VOTE: &'static str = "sys:vote";

/// The key of the position up to which the log is committed.
pub const KEY_COMMITTED: &'static str = "sys:committed";

/// The key of the position up to which the log was purged.
pub const KEY_PURGED: &'static str = "log:purged";

/// The key of the snapshot.
pub const KEY_SNAPSHOT: &'static str = "sm:snapshot";

/// What a store holds: the entries of the log by their index, and named values.
#[verifier::ext_equal]
pub struct StoreView {
    pub log: Map<u64, Seq<u8>>,
    pub meta: Map<Seq<char>, Seq<u8>>,
}

/// The entries of a list by their index; the last of several counts.
pub open spec fn entries_of(entries: Seq<(u64, Vec<u8>)>) -> Map<u64, Seq<u8>>
    decreases entries.len(),
{
    if entries.len() == 0 {
        Map::empty()
    } else {
        entries_of(entries.drop_last()).insert(entries.last().0, entries.last().1@)
    }
}

/// The list holds the entries of `log`, each once, by ascending index.
pub open spec fn lists(list: Seq<(u64, Vec<u8>)>, log: Map<u64, Seq<u8>>) -> bool {
    &&& forall|i: int, j: int|
        0 <= i < j < list.len() ==> (#[trigger] list[i]).0 < (#[trigger] list[j]).0
    &&& forall|i: int|
        0 <= i < list.len() ==> log.contains_key((#[trigger] list[i]).0) && log[list[i].0]
            == list[i].1@
    &&& forall|k: u64| #[trigger]
        log.contains_key(k) ==> exists|i: int| 0 <= i < list.len() && (#[trigger] list[i]).0 == k
}

/// The part of a log from `start` up to `end`.
pub open spec fn log_range(log: Map<u64, Seq<u8>>, start: int, end: int) -> Map<u64, Seq<u8>> {
    log.restrict(Set::new(|k: u64| start <= k < end))
}

/// The index is the smallest of the log, and there is none where the log is empty.
pub open spec fn is_first(index: Option<u64>, log: Map<u64, Seq<u8>>) -> bool {
    match index {
        Some(i) => log.contains_key(i) && forall|k: u64| #[trigger] log.contains_key(k) ==> i <= k,
        None => forall|k: u64| !#[trigger] log.contains_key(k),
    }
}

/// The index is the largest of the log, and there is none where the log is empty.
pub open spec fn is_last(index: Option<u64>, log: Map<u64, Seq<u8>>) -> bool {
    match index {
        Some(i) => log.contains_key(i) && forall|k: u64| #[trigger] log.contains_key(k) ==> k <= i,
        None => forall|k: u64| !#[trigger] log.contains_key(k),
    }
}

/// The value of a key, if it has one.
pub open spec fn is_value(value: Option<Vec<u8>>, meta: Map<Seq<char>, Seq<u8>>, key: Seq<char>) -> bool {
    match value {
        Some(v) => meta.contains_key(key) && v@ == meta[key],
        None => !meta.contains_key(key),
    }
}

impl StoreView {
    pub open spec fn put(self, key: Seq<char>, value: Seq<u8>) -> StoreView {
        StoreView { meta: self.meta.insert(key, value), ..self }
    }

    pub open spec fn delete(self, key: Seq<char>) -> StoreView {
        StoreView { meta: self.meta.remove(key), ..self }
    }

    pub open spec fn append(self, entries: Seq<(u64, Vec<u8>)>) -> StoreView {
        StoreView { log: self.log.union_prefer_right(entries_of(entries)), ..self }
    }

    /// The entries from `index` on go.
    pub open spec fn truncate(self, index: u64) -> StoreView {
        StoreView { log: self.log.restrict(Set::new(|k: u64| k < index)), ..self }
    }

    /// The entries up to `index` go.
    pub open spec fn purge(self, index: u64) -> StoreView {
        StoreView { log: self.log.restrict(Set::new(|k: u64| k > index)), ..self }
    }
}

/// A place where the node keeps its log, its vote and its snapshots. Every method may
/// fail; of a store whose method has failed nothing is known.
pub trait Storage: Send + Sync + 'static {
    /// What the store holds.
    spec fn held(&self) -> StoreView;

    /// The errors that a store of this kind fails with; a kind that has none never fails.
    spec fn fails_with(e: Error) -> bool;

    /// Adds entries to the log, in place of those of the same index.
    fn append_log(&mut self, entries: &Vec<(u64, Vec<u8>)>) -> (r: Result<()>)
        ensures
            r matches Err(e) ==> Self::fails_with(e),
            r is Ok ==> final(self).held() == old(self).held().append(entries@),
    ;

    /// The entries from `start` up to `end`, by ascending index.
    fn read_log(&self, start: u64, end: u64) -> (r: Result<Vec<(u64, Vec<u8>)>>)
        ensures
            r matches Err(e) ==> Self::fails_with(e),
            r matches Ok(list) ==> lists(
                list@,
                log_range(self.held().log, start as int, end as int),
            ),
    ;

    /// Drops the entries from `index` on.
    fn truncate_log_from(&mut self, index: u64) -> (r: Result<()>)
        ensures
            r matches Err(e) ==> Self::fails_with(e),
            r is Ok ==> final(self).held() == old(self).held().truncate(index),
    ;

    /// Drops the entries up to `index`.
    fn purge_log_upto(&mut self, index: u64) -> (r: Result<()>)
        ensures
            r matches Err(e) ==> Self::fails_with(e),
            r is Ok ==> final(self).held() == old(self).held().purge(index),
    ;

    /// The smallest index of the log.
    fn first_log_index(&self) -> (r: Result<Option<u64>>)
        ensures
            r matches Err(e) ==> Self::fails_with(e),
            r matches Ok(index) ==> is_first(index, self.held().log),
    ;

    /// The largest index of the log.
    fn last_log_index(&self) -> (r: Result<Option<u64>>)
        ensures
            r matches Err(e) ==> Self::fails_with(e),
            r matches Ok(index) ==> is_last(index, self.held().log),
    ;

    fn save_vote(&mut self, vote: &Vec<u8>) -> (r: Result<()>)
        ensures
            r matches Err(e) ==> Self::fails_with(e),
            r is Ok ==> final(self).held() == old(self).held().put(KEY_VOTE@, vote@),
    ;

    fn read_vote(&self) -> (r: Result<Option<Vec<u8>>>)
        ensures
            r matches Err(e) ==> Self::fails_with(e),
            r matches Ok(value) ==> is_value(value, self.held().meta, KEY_VOTE@),
    ;

    fn save_committed(&mut self, committed: &Vec<u8>) -> (r: Result<()>)
        ensures
            r matches Err(e) ==> Self::fails_with(e),
            r is Ok ==> final(self).held() == old(self).held().put(KEY_COMMITTED@, committed@),
    ;

    fn read_committed(&self) -> (r: Result<Option<Vec<u8>>>)
        ensures
            r matches Err(e) ==> Self::fails_with(e),
            r matches Ok(value) ==> is_value(value, self.held().meta, KEY_COMMITTED@),
    ;

    /// Names a value.
    fn put(&mut self, key: &str, value: &Vec<u8>) -> (r: Result<()>)
        ensures
            r matches Err(e) ==> Self::fails_with(e),
            r is Ok ==> final(self).held() == old(self).held().put(key@, value@),
    ;

    /// The value of that name.
    fn get(&self, key: &str) -> (r: Result<Option<Vec<u8>>>)
        ensures
            r matches Err(e) ==> Self::fails_with(e),
            r matches Ok(value) ==> is_value(value, self.held().meta, key@),
    ;

    /// Forgets the value of that name.
    fn delete(&mut self, key: &str) -> (r: Result<()>)
        ensures
            r matches Err(e) ==> Self::fails_with(e),
            r is Ok ==> final(self).held() == old(self).held().delete(key@),
    ;

    /// The named values whose name starts with `prefix`, each once.
    fn scan_prefix(&self, prefix: &str) -> (r: Result<Vec<(String, Vec<u8>)>>)
        ensures
            r matches Err(e) ==> Self::fails_with(e),
            r matches Ok(list) ==> {
                &&& forall|i: int, j: int|
                    0 <= i < j < list@.len() ==> (#[trigger] list@[i]).0@ != (#[trigger] list@[j]).0@
                &&& forall|i: int|
                    0 <= i < list@.len() ==> prefix@.is_prefix_of((#[trigger] list@[i]).0@)
                        && self.held().meta.contains_key(list@[i].0@)
                        && self.held().meta[list@[i].0@] == list@[i].1@
                &&& forall|k: Seq<char>| #[trigger]
                    self.held().meta.contains_key(k) && prefix@.is_prefix_of(k) ==> exists|i: int|
                        0 <= i < list@.len() && (#[trigger] list@[i]).0@ == k
            },
    ;
}

} // verus!
