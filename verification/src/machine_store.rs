//! The snapshots of the state machine and the store they are kept in.
use crate::error::{Error, Result};
use crate::model::QueueView;
use crate::state_machine::{
    a_machine_survives_its_snapshot, LogEntry, MachineData, MachineView, StateMachine,
};
use crate::storage::{is_value, Storage, StoreView, KEY_SNAPSHOT};
use vstd::prelude::*;

verus! {

/// Why a snapshot was not installed.
#[derive(Debug)]
pub enum InstallError {
    /// It holds no state machine.
    NoMachine,
    /// It could not be stored.
    Store(Error),
}

/// Keeps the bytes of a snapshot as the current one.
pub fn persist_snapshot<S: Storage>(db: &mut S, bytes: &Vec<u8>) -> (r: Result<()>)
    ensures
        match r {
            Ok(_) => final(db).held() == old(db).held().put(KEY_SNAPSHOT@, bytes@),
            Err(e) => S::fails_with(e),
        },
{
    db.put(KEY_SNAPSHOT, bytes)
}

/// The bytes of the current snapshot, if there is one.
pub fn stored_snapshot<S: Storage>(db: &S) -> (r: Result<Option<Vec<u8>>>)
    ensures
        match r {
            Ok(bytes) => is_value(bytes, db.held().meta, KEY_SNAPSHOT@),
            Err(e) => S::fails_with(e),
        },
{
    db.get(KEY_SNAPSHOT)
}

/// The state machine that a node starts with: that of the data of its snapshot, or one to
/// which nothing was applied where it has none. There is none where the data holds no sound
/// queue.
pub fn start_machine<M>(stored: Option<MachineData<M>>, membership: M) -> (r: Option<
    StateMachine<M>,
>)
    ensures
        r matches Some(s) ==> s.wf() && s.snapshots() == 0,
        match stored {
            Some(d) => d.restores_to(
                match r {
                    Some(s) => Some(s@),
                    None => None,
                },
            ),
            None => r matches Some(s) && s@ == (MachineView {
                last_applied: None,
                membership_at: None,
                membership,
                queue: QueueView::fresh(),
            }),
        },
{
    match stored {
        Some(d) => StateMachine::restore(d),
        None => Some(StateMachine::new(membership)),
    }
}

/// Installs a snapshot that came from another node: `data` is what it holds, if it could be
/// read, and `bytes` is what is stored of it. It is stored first. Where it holds no state
/// machine, neither the machine nor the store changes; where it cannot be stored, the
/// machine does not change.
pub fn install_snapshot<M, S: Storage>(
    machine: &mut StateMachine<M>,
    db: &mut S,
    data: Option<MachineData<M>>,
    bytes: &Vec<u8>,
) -> (r: std::result::Result<(), InstallError>)
    requires
        old(machine).wf(),
    ensures
        final(machine).wf(),
        final(machine).snapshots() == old(machine).snapshots(),
        match r {
            Ok(_) => {
                &&& data matches Some(d) && d.restores_to(Some(final(machine)@))
                &&& final(db).held() == old(db).held().put(KEY_SNAPSHOT@, bytes@)
            },
            Err(InstallError::NoMachine) => {
                &&& data matches Some(d) ==> d.restores_to(None)
                &&& final(machine)@ == old(machine)@
                &&& final(db).held() == old(db).held()
            },
            Err(InstallError::Store(e)) => {
                &&& data matches Some(d) && !d.restores_to(None)
                &&& S::fails_with(e)
                &&& final(machine)@ == old(machine)@
            },
        },
{
    let received = match data {
        Some(d) => match StateMachine::restore(d) {
            Some(received) => received,
            None => {
                return Err(InstallError::NoMachine);
            },
        },
        None => {
            return Err(InstallError::NoMachine);
        },
    };
    match persist_snapshot(db, bytes) {
        Ok(_) => {
            machine.install(received);
            Ok(())
        },
        Err(e) => Err(InstallError::Store(e)),
    }
}

/// The node that installs a snapshot of another one stands where that one stood when it was
/// built: it is in the same state, gives the same answers to whatever is applied later,
/// keeps the bytes as they came, and starts from them in the same state again. That holds
/// for whatever way the bytes are read, as long as they are read as what the snapshot was
/// built from.
pub proof fn an_installed_snapshot_makes_the_nodes_equal<M>(
    a: MachineView<M>,
    s: StoreView,
    bytes: Seq<u8>,
    read: spec_fn(Seq<u8>) -> Option<MachineData<M>>,
    installed: MachineView<M>,
    started: Option<MachineView<M>>,
    later: Seq<LogEntry<M>>,
)
    requires
        a.queue.wf(),
        read(bytes) matches Some(d) && d.describes(a) && d.restores_to(Some(installed)),
        read(s.put(KEY_SNAPSHOT@, bytes).meta[KEY_SNAPSHOT@]) matches Some(d) && d.restores_to(
            started,
        ),
    ensures
        installed == a,
        installed.apply_all(later) == a.apply_all(later),
        s.put(KEY_SNAPSHOT@, bytes).meta.contains_key(KEY_SNAPSHOT@),
        s.put(KEY_SNAPSHOT@, bytes).meta[KEY_SNAPSHOT@] == bytes,
        started == Some(a),
{
    let d = read(bytes)->Some_0;
    a_machine_survives_its_snapshot(d, a, Some(installed));
    a_machine_survives_its_snapshot(d, a, started);
}

} // verus!
