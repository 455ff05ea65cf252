//! What the stored positions say, and how a damaged store is made consistent again.
use crate::codec::{
    commit_bytes, commit_in, position_bytes, position_in, read_commit, read_position,
    read_snapshot_end, snapshot_end_in, write_commit, write_position, LogPos,
};
use crate::error::{Error, Result};
use crate::storage::{
    is_last, Storage, StoreView, KEY_COMMITTED, KEY_PURGED, KEY_SNAPSHOT,
};
use vstd::prelude::*;

verus! {

/// The keys under which the node keeps its own values are different ones.
pub proof fn lemma_keys()
    ensures
        KEY_SNAPSHOT@ != KEY_PURGED@,
        KEY_SNAPSHOT@ != KEY_COMMITTED@,
        KEY_PURGED@ != KEY_COMMITTED@,
{
    reveal_strlit("sm:snapshot");
    reveal_strlit("log:purged");
    reveal_strlit("sys:committed");
    assert(KEY_SNAPSHOT@[1] == 'm');
    assert(KEY_PURGED@[1] == 'o');
    assert(KEY_COMMITTED@[1] == 'y');
}

/// The snapshot of the store, if it has one, can be read.
pub open spec fn snapshot_readable(s: StoreView) -> bool {
    s.meta.contains_key(KEY_SNAPSHOT@) ==> snapshot_end_in(s.meta[KEY_SNAPSHOT@]) is Ok
}

/// The error says why the snapshot of the store cannot be read.
pub open spec fn snapshot_error(s: StoreView, e: Error) -> bool {
    s.meta.contains_key(KEY_SNAPSHOT@) && (e matches Error::Storage(words) && snapshot_end_in(
        s.meta[KEY_SNAPSHOT@],
    ) == Err::<Option<LogPos>, Seq<char>>(words@))
}

/// The index that the snapshot of the store goes up to.
pub open spec fn snapshot_index(s: StoreView) -> Option<u64> {
    if s.meta.contains_key(KEY_SNAPSHOT@) {
        match snapshot_end_in(s.meta[KEY_SNAPSHOT@]) {
            Ok(Some(p)) => Some(p.index),
            _ => None,
        }
    } else {
        None
    }
}

/// The index with which the replay of the log begins: the one after the snapshot.
pub open spec fn replay_start(snapshot: Option<u64>) -> int {
    match snapshot {
        Some(i) => i + 1,
        None => 0,
    }
}

/// The log begins after the index with which its replay must begin.
pub open spec fn orphaned(s: StoreView) -> bool {
    &&& exists|k: u64| #[trigger] s.log.contains_key(k)
    &&& forall|k: u64| #[trigger] s.log.contains_key(k) ==> k > replay_start(snapshot_index(s))
}

/// The stored commit position, if there is one, can be read.
pub open spec fn commit_readable(s: StoreView) -> bool {
    s.meta.contains_key(KEY_COMMITTED@) ==> commit_in(s.meta[KEY_COMMITTED@]) is Ok
}

/// The error says why the stored commit position cannot be read.
pub open spec fn commit_error(s: StoreView, e: Error) -> bool {
    s.meta.contains_key(KEY_COMMITTED@) && (e matches Error::Storage(words) && commit_in(
        s.meta[KEY_COMMITTED@],
    ) == Err::<Option<LogPos>, Seq<char>>(words@))
}

/// The stored commit position.
pub open spec fn stored_commit(s: StoreView) -> Option<LogPos> {
    if s.meta.contains_key(KEY_COMMITTED@) {
        match commit_in(s.meta[KEY_COMMITTED@]) {
            Ok(p) => p,
            Err(_) => None,
        }
    } else {
        None
    }
}

/// The index can be served: by the snapshot, or because the log reaches that far.
pub open spec fn reaches(s: StoreView, index: u64) -> bool {
    ||| snapshot_index(s) matches Some(i) && index <= i
    ||| exists|k: u64| #[trigger] s.log.contains_key(k) && index <= k
}

/// The commit position is past everything that can be served.
pub open spec fn unbacked(s: StoreView) -> bool {
    stored_commit(s) matches Some(c) && !reaches(s, c.index)
}

/// The store after the log was dropped, where its replay cannot begin.
pub open spec fn without_orphans(s: StoreView) -> StoreView {
    if orphaned(s) {
        StoreView { log: Map::empty(), meta: s.meta.remove(KEY_PURGED@) }
    } else {
        s
    }
}

/// The store made consistent.
pub open spec fn recovered(s: StoreView) -> StoreView {
    let a = without_orphans(s);
    if unbacked(a) {
        a.delete(KEY_COMMITTED@)
    } else {
        a
    }
}

/// A store whose log begins where its replay must begin and whose commit position is
/// within reach is left as it is.
pub proof fn healthy_store_is_left_alone(s: StoreView)
    requires
        !orphaned(s),
        !unbacked(s),
    ensures
        recovered(s) == s,
{
}

/// A recovered store is consistent: its log can be replayed from the snapshot on, and
/// its commit position is within reach. To recover it again changes nothing.
pub proof fn recovered_store_is_consistent(s: StoreView)
    ensures
        !orphaned(recovered(s)),
        !unbacked(recovered(s)),
        recovered(recovered(s)) == recovered(s),
        snapshot_index(recovered(s)) == snapshot_index(s),
{
    lemma_keys();
    let a = without_orphans(s);
    let r = recovered(s);
    assert(snapshot_index(a) == snapshot_index(s));
    assert(snapshot_index(r) == snapshot_index(s));
    if orphaned(r) {
        assert(r.log == a.log);
        assert(orphaned(a));
    }
}

/// The larger of two indices, where there is one.
pub open spec fn later(a: Option<u64>, b: Option<u64>) -> Option<u64> {
    match (a, b) {
        (Some(x), Some(y)) => if x < y {
            Some(y)
        } else {
            Some(x)
        },
        (Some(x), None) => Some(x),
        (None, y) => y,
    }
}

pub fn later_of(a: Option<u64>, b: Option<u64>) -> (r: Option<u64>)
    ensures
        r == later(a, b),
{
    match (a, b) {
        (Some(x), Some(y)) => if x < y {
            Some(y)
        } else {
            Some(x)
        },
        (Some(x), None) => Some(x),
        (None, y) => y,
    }
}

/// Whether a log that begins at `first` cannot be replayed from the snapshot on.
pub fn is_orphaned(snapshot: Option<u64>, first: Option<u64>) -> (r: bool)
    ensures
        r == (first matches Some(f) && f > replay_start(snapshot)),
{
    match (first, snapshot) {
        (Some(f), Some(i)) => f > i && f - i > 1,
        (Some(f), None) => f > 0,
        (None, _) => false,
    }
}

/// Whether a commit position is past the last index that can be served.
pub fn is_unbacked(committed: &LogPos, reachable: Option<u64>) -> (r: bool)
    ensures
        r == match reachable {
            Some(i) => committed.index > i,
            None => true,
        },
{
    match reachable {
        Some(i) => committed.index > i,
        None => true,
    }
}

/// The index that the stored snapshot goes up to.
pub fn snapshot_last_index<S: Storage>(db: &S) -> (r: Result<Option<u64>>)
    ensures
        match r {
            Ok(index) => snapshot_readable(db.held()) && index == snapshot_index(db.held()),
            Err(e) => S::fails_with(e) || snapshot_error(db.held(), e),
        },
{
    match db.get(KEY_SNAPSHOT) {
        Err(e) => Err(e),
        Ok(None) => Ok(None),
        Ok(Some(bytes)) => match read_snapshot_end(&bytes) {
            Err(e) => Err(e),
            Ok(Some(p)) => Ok(Some(p.index)),
            Ok(None) => Ok(None),
        },
    }
}

/// Makes the stored state consistent before it is read on startup.
///
/// After a partial loss of the disk the log may begin after the index with which its
/// replay must begin: it is dropped, and the node falls back to its snapshot. And the
/// commit position may be past everything that can be served: it is forgotten, to be
/// learned again. A healthy store is left as it is.
pub fn recover_consistency<S: Storage>(db: &mut S) -> (r: Result<()>)
    ensures
        match r {
            Ok(_) => {
                &&& snapshot_readable(old(db).held())
                &&& commit_readable(old(db).held())
                &&& final(db).held() == recovered(old(db).held())
            },
            Err(e) => {
                ||| S::fails_with(e)
                ||| snapshot_error(old(db).held(), e) && final(db).held() == old(db).held()
                ||| snapshot_readable(old(db).held()) && commit_error(old(db).held(), e)
                    && final(db).held() == without_orphans(old(db).held())
            },
        },
{
    let ghost start = db.held();
    proof {
        lemma_keys();
    }
    let snapshot = match snapshot_last_index(db) {
        Ok(index) => index,
        Err(e) => {
            return Err(e);
        },
    };
    let first = match db.first_log_index() {
        Ok(index) => index,
        Err(e) => {
            return Err(e);
        },
    };
    if is_orphaned(snapshot, first) {
        let last = match db.last_log_index() {
            Ok(index) => index,
            Err(e) => {
                return Err(e);
            },
        };
        match last {
            Some(index) => match db.purge_log_upto(index) {
                Ok(()) => {},
                Err(e) => {
                    return Err(e);
                },
            },
            None => {},
        }
        match db.delete(KEY_PURGED) {
            Ok(()) => {},
            Err(e) => {
                return Err(e);
            },
        }
        proof {
            assert(start.log.contains_key(first->Some_0));
            assert(orphaned(start));
            assert(db.held().log =~= Map::empty());
            assert(db.held() =~= without_orphans(start));
        }
    } else {
        proof {
            if orphaned(start) {
                assert(start.log.contains_key(first->Some_0));
            }
        }
    }
    let ghost a = db.held();
    assert(a == without_orphans(start));
    assert(snapshot_index(a) == snapshot);
    let last = match db.last_log_index() {
        Ok(index) => index,
        Err(e) => {
            return Err(e);
        },
    };
    let reachable = later_of(snapshot, last);
    let stored = match db.read_committed() {
        Ok(bytes) => bytes,
        Err(e) => {
            return Err(e);
        },
    };
    match stored {
        None => {},
        Some(bytes) => {
            let committed = match read_commit(&bytes) {
                Ok(p) => p,
                Err(e) => {
                    return Err(e);
                },
            };
            match committed {
                None => {},
                Some(c) => {
                    proof {
                        lemma_reaches(a, snapshot, last, c.index);
                        assert(stored_commit(a) == Some(c));
                    }
                    if is_unbacked(&c, reachable) {
                        match db.delete(KEY_COMMITTED) {
                            Ok(()) => {},
                            Err(e) => {
                                return Err(e);
                            },
                        }
                    }
                },
            }
        },
    }
    Ok(())
}

/// What can be served goes up to the later of the snapshot and the log.
proof fn lemma_reaches(s: StoreView, snapshot: Option<u64>, last: Option<u64>, index: u64)
    requires
        snapshot == snapshot_index(s),
        is_last(last, s.log),
    ensures
        reaches(s, index) <==> (later(snapshot, last) matches Some(i) && index <= i),
{
    if last is Some {
        assert(s.log.contains_key(last->Some_0));
    }
}

/// The position up to which the log was purged, if it can be read.
pub open spec fn purged_readable(s: StoreView) -> bool {
    s.meta.contains_key(KEY_PURGED@) ==> position_in(s.meta[KEY_PURGED@]) is Ok
}

/// The error says why the position up to which the log was purged cannot be read.
pub open spec fn purged_error(s: StoreView, e: Error) -> bool {
    s.meta.contains_key(KEY_PURGED@) && (e matches Error::Storage(words) && position_in(
        s.meta[KEY_PURGED@],
    ) == Err::<LogPos, Seq<char>>(words@))
}

/// The position up to which the log was purged.
pub open spec fn purged_upto(s: StoreView) -> Option<LogPos> {
    if s.meta.contains_key(KEY_PURGED@) {
        match position_in(s.meta[KEY_PURGED@]) {
            Ok(p) => Some(p),
            Err(_) => None,
        }
    } else {
        None
    }
}

/// The store after the log was purged up to a position: nothing happens where it was
/// purged that far before.
pub open spec fn marked(s: StoreView, upto: LogPos) -> StoreView {
    if purged_upto(s) matches Some(p) && p.index >= upto.index {
        s
    } else {
        s.put(KEY_PURGED@, position_bytes(upto)).purge(upto.index)
    }
}

/// The position up to which the log was purged.
pub fn last_purged<S: Storage>(db: &S) -> (r: Result<Option<LogPos>>)
    ensures
        match r {
            Ok(p) => purged_readable(db.held()) && p == purged_upto(db.held()),
            Err(e) => S::fails_with(e) || purged_error(db.held(), e),
        },
{
    match db.get(KEY_PURGED) {
        Err(e) => Err(e),
        Ok(None) => Ok(None),
        Ok(Some(bytes)) => match read_position(&bytes) {
            Ok(p) => Ok(Some(p)),
            Err(e) => Err(e),
        },
    }
}

/// Notes that the log is purged up to a position, and purges it. The position never
/// moves back: what it says is the furthest that was ever purged.
pub fn mark_purged<S: Storage>(db: &mut S, upto: &LogPos) -> (r: Result<()>)
    ensures
        match r {
            Ok(_) => {
                &&& purged_readable(old(db).held())
                &&& final(db).held() == marked(old(db).held(), *upto)
                &&& purged_readable(final(db).held())
                &&& purged_upto(final(db).held()) matches Some(p) && p.index >= upto.index
            },
            Err(e) => {
                ||| S::fails_with(e)
                ||| purged_error(old(db).held(), e) && final(db).held() == old(db).held()
            },
        },
{
    let current = match last_purged(db) {
        Ok(p) => p,
        Err(e) => {
            return Err(e);
        },
    };
    match current {
        Some(p) => {
            if p.index >= upto.index {
                return Ok(());
            }
        },
        None => {},
    }
    let bytes = match write_position(upto) {
        Ok(bytes) => bytes,
        Err(e) => {
            return Err(e);
        },
    };
    match db.put(KEY_PURGED, &bytes) {
        Ok(()) => {},
        Err(e) => {
            return Err(e);
        },
    }
    db.purge_log_upto(upto.index)
}

/// Stores the position up to which the log is committed.
pub fn save_committed<S: Storage>(db: &mut S, committed: Option<LogPos>) -> (r: Result<()>)
    ensures
        match r {
            Ok(_) => {
                &&& final(db).held() == old(db).held().put(KEY_COMMITTED@, commit_bytes(committed))
                &&& stored_commit(final(db).held()) == committed
            },
            Err(e) => S::fails_with(e),
        },
{
    let bytes = match write_commit(&committed) {
        Ok(bytes) => bytes,
        Err(e) => {
            return Err(e);
        },
    };
    db.save_committed(&bytes)
}

/// The commit position, unless it is past the last index of the log.
pub fn trusted_commit(committed: LogPos, last: Option<u64>) -> (r: Option<LogPos>)
    ensures
        r == match last {
            Some(l) => if committed.index <= l {
                Some(committed)
            } else {
                None
            },
            None => None,
        },
{
    match last {
        Some(l) => if committed.index <= l {
            Some(committed)
        } else {
            None
        },
        None => None,
    }
}

/// The log of the store, or what is on its way to it, reaches the index.
pub open spec fn log_reaches(s: StoreView, pending_last: Option<u64>, index: u64) -> bool {
    ||| pending_last matches Some(l) && index <= l
    ||| exists|k: u64| #[trigger] s.log.contains_key(k) && index <= k
}

/// The position up to which the log is committed, never one that the log cannot serve:
/// `pending_last` is the last index that is on its way to the store.
pub fn read_committed<S: Storage>(db: &S, pending_last: Option<u64>) -> (r: Result<
    Option<LogPos>,
>)
    ensures
        match r {
            Ok(p) => commit_readable(db.held()) && p == match stored_commit(db.held()) {
                Some(c) => if log_reaches(db.held(), pending_last, c.index) {
                    Some(c)
                } else {
                    None
                },
                None => None,
            },
            Err(e) => S::fails_with(e) || commit_error(db.held(), e),
        },
{
    let stored = match db.read_committed() {
        Err(e) => {
            return Err(e);
        },
        Ok(None) => {
            return Ok(None);
        },
        Ok(Some(bytes)) => match read_commit(&bytes) {
            Err(e) => {
                return Err(e);
            },
            Ok(None) => {
                return Ok(None);
            },
            Ok(Some(c)) => c,
        },
    };
    match db.last_log_index() {
        Err(e) => Err(e),
        Ok(last) => {
            proof {
                if last is Some {
                    assert(db.held().log.contains_key(last->Some_0));
                }
            }
            Ok(trusted_commit(stored, later_of(last, pending_last)))
        },
    }
}

} // verus!
