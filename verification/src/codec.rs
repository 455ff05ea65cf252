//! The positions of the replicated log, and the bytes in which they are stored.
use crate::error::Error;
use crate::types::NodeId;
use vstd::prelude::*;

verus! {

/// A position of the replicated log: the leader that proposed the entry, and its index.
#[derive(Debug, Clone, Copy, PartialEq, Eq)]
pub struct LogPos {
    pub term: u64,
    pub node_id: NodeId,
    pub index: u64,
}

/// The position that bytes hold, or in words why they hold none.
pub uninterp spec fn position_in(bytes: Seq<u8>) -> Result<LogPos, Seq<char>>;

/// The position, or the absence of one, that bytes hold, or in words why they hold
/// neither.
pub uninterp spec fn commit_in(bytes: Seq<u8>) -> Result<Option<LogPos>, Seq<char>>;

/// The position that the stored snapshot in the bytes goes up to, which may be none, or
/// in words why they hold no stored snapshot.
pub uninterp spec fn snapshot_end_in(bytes: Seq<u8>) -> Result<Option<LogPos>, Seq<char>>;

/// The bytes of a position.
pub uninterp spec fn position_bytes(p: LogPos) -> Seq<u8>;

/// The bytes of a position or of the absence of one.
pub uninterp spec fn commit_bytes(p: Option<LogPos>) -> Seq<u8>;

/// Calls `postcard::from_bytes` for an `openraft::LogId`; its outcome is a function of
/// the bytes. The error is turned into its words.
#[verifier::external_body]
fn decode_position(bytes: &Vec<u8>) -> (r: Result<LogPos, String>)
    ensures
        match r {
            Ok(p) => position_in(bytes@) == Ok::<LogPos, Seq<char>>(p),
            Err(words) => position_in(bytes@) == Err::<LogPos, Seq<char>>(words@),
        },
{
    match postcard::from_bytes::<openraft::LogId<u64>>(bytes.as_slice()) {
        Ok(id) => Ok(LogPos {
            term: id.leader_id.term,
            node_id: id.leader_id.node_id,
            index: id.index,
        }),
        Err(e) => Err(e.to_string()),
    }
}

/// Calls `postcard::from_bytes` for an optional `openraft::LogId`; its outcome is a
/// function of the bytes. The error is turned into its words.
#[verifier::external_body]
fn decode_commit(bytes: &Vec<u8>) -> (r: Result<Option<LogPos>, String>)
    ensures
        match r {
            Ok(p) => commit_in(bytes@) == Ok::<Option<LogPos>, Seq<char>>(p),
            Err(words) => commit_in(bytes@) == Err::<Option<LogPos>, Seq<char>>(words@),
        },
{
    match postcard::from_bytes::<Option<openraft::LogId<u64>>>(bytes.as_slice()) {
        Ok(Some(id)) => Ok(Some(LogPos {
            term: id.leader_id.term,
            node_id: id.leader_id.node_id,
            index: id.index,
        })),
        Ok(None) => Ok(None),
        Err(e) => Err(e.to_string()),
    }
}

/// Calls `postcard::from_bytes` for a stored snapshot, which is an
/// `openraft::SnapshotMeta` and the bytes of the snapshot, and takes the last log id of
/// the former; its outcome is a function of the bytes. The error is turned into its
/// words.
#[verifier::external_body]
fn decode_snapshot_end(bytes: &Vec<u8>) -> (r: Result<Option<LogPos>, String>)
    ensures
        match r {
            Ok(p) => snapshot_end_in(bytes@) == Ok::<Option<LogPos>, Seq<char>>(p),
            Err(words) => snapshot_end_in(bytes@) == Err::<Option<LogPos>, Seq<char>>(words@),
        },
{
    let stored: Result<(openraft::SnapshotMeta<u64, openraft::BasicNode>, Vec<u8>), _> =
        postcard::from_bytes(bytes.as_slice());
    match stored {
        Ok((meta, _)) => Ok(meta.last_log_id.map(|id| LogPos {
            term: id.leader_id.term,
            node_id: id.leader_id.node_id,
            index: id.index,
        })),
        Err(e) => Err(e.to_string()),
    }
}

/// Calls `postcard::to_stdvec` for an `openraft::LogId`. The serializer writes into a
/// vector, which takes every byte, so it succeeds; the bytes are a function of the
/// position, and they hold it.
#[verifier::external_body]
fn encode_position(p: &LogPos) -> (r: Result<Vec<u8>, String>)
    ensures
        match r {
            Ok(bytes) => bytes@ == position_bytes(*p) && position_in(bytes@) == Ok::<
                LogPos,
                Seq<char>,
            >(*p),
            Err(_) => false,
        },
{
    let leader = openraft::CommittedLeaderId::new(p.term, p.node_id);
    match postcard::to_stdvec(&openraft::LogId::<u64>::new(leader, p.index)) {
        Ok(bytes) => Ok(bytes),
        Err(e) => Err(e.to_string()),
    }
}

/// Calls `postcard::to_stdvec` for an optional `openraft::LogId`. The serializer writes
/// into a vector, which takes every byte, so it succeeds; the bytes are a function of
/// the value, and they hold it.
#[verifier::external_body]
fn encode_commit(p: &Option<LogPos>) -> (r: Result<Vec<u8>, String>)
    ensures
        match r {
            Ok(bytes) => bytes@ == commit_bytes(*p) && commit_in(bytes@) == Ok::<
                Option<LogPos>,
                Seq<char>,
            >(*p),
            Err(_) => false,
        },
{
    let id = p.map(|p| {
        openraft::LogId::<u64>::new(openraft::CommittedLeaderId::new(p.term, p.node_id), p.index)
    });
    match postcard::to_stdvec(&id) {
        Ok(bytes) => Ok(bytes),
        Err(e) => Err(e.to_string()),
    }
}

/// The position in the bytes.
pub fn read_position(bytes: &Vec<u8>) -> (r: Result<LogPos, Error>)
    ensures
        match r {
            Ok(p) => position_in(bytes@) == Ok::<LogPos, Seq<char>>(p),
            Err(Error::Storage(words)) => position_in(bytes@) == Err::<LogPos, Seq<char>>(words@),
            Err(_) => false,
        },
{
    match decode_position(bytes) {
        Ok(p) => Ok(p),
        Err(words) => Err(Error::Storage(words)),
    }
}

/// The position, or the absence of one, in the bytes.
pub fn read_commit(bytes: &Vec<u8>) -> (r: Result<Option<LogPos>, Error>)
    ensures
        match r {
            Ok(p) => commit_in(bytes@) == Ok::<Option<LogPos>, Seq<char>>(p),
            Err(Error::Storage(words)) => commit_in(bytes@) == Err::<Option<LogPos>, Seq<char>>(
                words@,
            ),
            Err(_) => false,
        },
{
    match decode_commit(bytes) {
        Ok(p) => Ok(p),
        Err(words) => Err(Error::Storage(words)),
    }
}

/// The position that a stored snapshot goes up to.
pub fn read_snapshot_end(bytes: &Vec<u8>) -> (r: Result<Option<LogPos>, Error>)
    ensures
        match r {
            Ok(p) => snapshot_end_in(bytes@) == Ok::<Option<LogPos>, Seq<char>>(p),
            Err(Error::Storage(words)) => snapshot_end_in(bytes@) == Err::<
                Option<LogPos>,
                Seq<char>,
            >(words@),
            Err(_) => false,
        },
{
    match decode_snapshot_end(bytes) {
        Ok(p) => Ok(p),
        Err(words) => Err(Error::Storage(words)),
    }
}

/// The bytes of a position, from which it can be read again.
pub fn write_position(p: &LogPos) -> (r: Result<Vec<u8>, Error>)
    ensures
        match r {
            Ok(bytes) => bytes@ == position_bytes(*p) && position_in(bytes@) == Ok::<
                LogPos,
                Seq<char>,
            >(*p),
            Err(_) => false,
        },
{
    match encode_position(p) {
        Ok(bytes) => Ok(bytes),
        Err(words) => Err(Error::Storage(words)),
    }
}

/// The bytes of a position or of the absence of one, from which it can be read again.
pub fn write_commit(p: &Option<LogPos>) -> (r: Result<Vec<u8>, Error>)
    ensures
        match r {
            Ok(bytes) => bytes@ == commit_bytes(*p) && commit_in(bytes@) == Ok::<
                Option<LogPos>,
                Seq<char>,
            >(*p),
            Err(_) => false,
        },
{
    match encode_commit(p) {
        Ok(bytes) => Ok(bytes),
        Err(words) => Err(Error::Storage(words)),
    }
}

} // verus!
