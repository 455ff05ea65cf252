//! What is promised of a store that is opened again, and of the positions kept in it.
use crate::codec::{commit_in, position_bytes, position_in, snapshot_end_in, LogPos};
use crate::recovery::{
    lemma_keys, marked, orphaned, reaches, recovered, replay_start, snapshot_index, stored_commit,
    without_orphans,
};
use crate::storage::{entries_of, StoreView, KEY_COMMITTED, KEY_PURGED, KEY_SNAPSHOT, KEY_VOTE};
use vstd::prelude::*;

verus! {

/// The stored snapshot can be read and goes up to the index, or further.
pub open spec fn snapshot_covers(s: StoreView, index: int) -> bool {
    s.meta.contains_key("sm:snapshot"@) && (snapshot_end_in(s.meta["sm:snapshot"@]) matches Ok(
        Some(p),
    ) && index <= p.index)
}

/// The replay of the log can begin with the entry at `index`: it is the very first one, or
/// the snapshot goes up to the one before it.
pub open spec fn replays_from(s: StoreView, index: u64) -> bool {
    s.log.contains_key(index) && (index == 0 || snapshot_covers(s, index - 1))
}

/// The log is kept, whole and with the mark of how far it was purged, if and only if its
/// replay can begin with one of its entries; else it goes, and the mark with it. A log that
/// is empty stays as it is.
pub proof fn a_log_that_can_be_replayed_is_kept(s: StoreView)
    ensures
        (exists|k: u64| #[trigger] replays_from(s, k)) ==> recovered(s).log == s.log
            && recovered(s).meta.contains_key("log:purged"@) == s.meta.contains_key("log:purged"@)
            && recovered(s).meta["log:purged"@] == s.meta["log:purged"@],
        (exists|k: u64| #[trigger] s.log.contains_key(k)) && (forall|k: u64| !#[trigger]
            replays_from(s, k)) ==> recovered(s).log == Map::<u64, Seq<u8>>::empty()
            && !recovered(s).meta.contains_key("log:purged"@),
        (forall|k: u64| !#[trigger] s.log.contains_key(k)) ==> recovered(s).log == s.log,
{
    lemma_keys();
    assert forall|k: u64| #[trigger] s.log.contains_key(k) implies (replays_from(s, k) <==> k
        <= replay_start(snapshot_index(s))) by {}
    if exists|k: u64| #[trigger] replays_from(s, k) {
        let k = choose|k: u64| #[trigger] replays_from(s, k);
        assert(s.log.contains_key(k));
        assert(!orphaned(s));
    }
}

/// The commit position is kept if and only if it can be served from what is left: from the
/// snapshot, or because the log reaches that far. Where none is stored, or what is stored
/// cannot be read, it stays as it is.
pub proof fn a_commit_position_within_reach_is_kept(s: StoreView)
    ensures
        ({
            let r = recovered(s);
            let key = "sys:committed"@;
            if s.meta.contains_key(key) && (commit_in(s.meta[key]) matches Ok(Some(_))) {
                let c = commit_in(s.meta[key])->Ok_0->Some_0;
                let served = snapshot_covers(s, c.index as int) || exists|k: u64| #[trigger]
                    r.log.contains_key(k) && c.index <= k;
                &&& r.meta.contains_key(key) <==> served
                &&& served ==> r.meta[key] == s.meta[key]
            } else {
                &&& r.meta.contains_key(key) == s.meta.contains_key(key)
                &&& r.meta[key] == s.meta[key]
            }
        }),
{
    lemma_keys();
    let a = without_orphans(s);
    assert(stored_commit(a) == stored_commit(s));
    assert(snapshot_index(a) == snapshot_index(s));
    assert(recovered(s).log == a.log);
}

/// Whatever else is stored is not touched: neither the vote nor the snapshot, nor anything
/// under another name.
pub proof fn recovery_touches_nothing_else(s: StoreView, key: Seq<char>)
    requires
        key != "log:purged"@,
        key != "sys:committed"@,
    ensures
        recovered(s).meta.contains_key(key) == s.meta.contains_key(key),
        recovered(s).meta[key] == s.meta[key],
{
}

/// The names under which the node keeps its values are what they are on disk, and no two are
/// alike.
pub proof fn the_names_on_disk()
    ensures
        KEY_VOTE@ == "sys:vote"@,
        KEY_COMMITTED@ == "sys:committed"@,
        KEY_PURGED@ == "log:purged"@,
        KEY_SNAPSHOT@ == "sm:snapshot"@,
        KEY_VOTE@ != KEY_COMMITTED@,
        KEY_VOTE@ != KEY_PURGED@,
        KEY_VOTE@ != KEY_SNAPSHOT@,
{
    reveal_strlit("sys:vote");
    reveal_strlit("sys:committed");
    reveal_strlit("log:purged");
    reveal_strlit("sm:snapshot");
    assert(KEY_VOTE@.len() == 8);
    assert(KEY_COMMITTED@.len() == 13);
}

/// The mark of how far the log was purged never moves back: a position that lies behind it
/// changes nothing. One ahead of it becomes the mark; the entries up to it go, and every
/// later entry and every other value stay.
pub proof fn purging_never_moves_back(s: StoreView, upto: LogPos, index: u64, key: Seq<char>)
    ensures
        ({
            let r = marked(s, upto);
            let purged = "log:purged"@;
            let behind = s.meta.contains_key(purged) && (position_in(s.meta[purged]) matches Ok(p)
                && upto.index <= p.index);
            &&& behind ==> r == s
            &&& !behind ==> {
                &&& r.meta.contains_key(purged) && r.meta[purged] == position_bytes(upto)
                &&& r.log.contains_key(index) <==> s.log.contains_key(index) && index > upto.index
                &&& r.log.contains_key(index) ==> r.log[index] == s.log[index]
            }
            &&& key != purged ==> r.meta.contains_key(key) == s.meta.contains_key(key)
                && r.meta[key] == s.meta[key]
        }),
{
}

/// Of the entries that are appended together the last one of an index counts, and an index
/// that is not among them gets none.
pub proof fn the_last_entry_of_an_index_counts(entries: Seq<(u64, Vec<u8>)>, index: u64, i: int)
    ensures
        entries_of(entries).contains_key(index) <==> exists|k: int|
            0 <= k < entries.len() && (#[trigger] entries[k]).0 == index,
        (0 <= i < entries.len() && entries[i].0 == index && forall|k: int|
            i < k < entries.len() ==> (#[trigger] entries[k]).0 != index) ==> entries_of(
            entries,
        )[index] == entries[i].1@,
    decreases entries.len(),
{
    if entries.len() > 0 {
        let front = entries.drop_last();
        let last = entries.len() - 1;
        the_last_entry_of_an_index_counts(front, index, i);
        assert(entries.last() == entries[last]);
        if entries_of(front).contains_key(index) {
            let k = choose|k: int| 0 <= k < front.len() && (#[trigger] front[k]).0 == index;
            assert(entries[k].0 == index);
        }
        if exists|k: int| 0 <= k < entries.len() && (#[trigger] entries[k]).0 == index {
            let k = choose|k: int| 0 <= k < entries.len() && (#[trigger] entries[k]).0 == index;
            if k < last {
                assert(front[k].0 == index);
            }
        }
        if 0 <= i < last {
            assert(front[i] == entries[i]);
            assert forall|k: int| i < k < front.len() implies #[trigger] front[k] == entries[k] by {}
        }
    }
}

} // verus!
