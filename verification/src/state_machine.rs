//! The replicated state machine: the queue, and how far the log was applied to it.
use crate::codec::LogPos;
use crate::command::{AppRequest, AppResponse, AppResponseView};
use crate::model::QueueView;
use crate::queue::{Queue, QueueMetrics};
use crate::snapshot::{restores_to, snapshots_round_trip, QueueData};
use crate::text::{append_decimal, decimal, decimals_read_back, decimals_tell_numbers_apart};
use crate::totals::capped;
use vstd::prelude::*;
use vstd::string::StringExecFns;

verus! {

/// What an entry of the log carries; `M` is a membership of the cluster.
#[derive(Debug)]
pub enum EntryPayload<M> {
    Blank,
    Normal(AppRequest),
    Membership(M),
}

/// An entry of the log.
#[derive(Debug)]
pub struct LogEntry<M> {
    pub log_id: LogPos,
    pub payload: EntryPayload<M>,
}

/// The value of a [`StateMachine`].
pub struct MachineView<M> {
    pub last_applied: Option<LogPos>,
    /// The entry that set the membership, if one did.
    pub membership_at: Option<LogPos>,
    pub membership: M,
    pub queue: QueueView,
}

impl<M> MachineView<M> {
    /// What an entry makes of the state machine, and its answer.
    #[verifier::opaque]
    pub open spec fn apply(self, e: LogEntry<M>) -> (MachineView<M>, AppResponseView) {
        let s = MachineView { last_applied: Some(e.log_id), ..self };
        match e.payload {
            EntryPayload::Blank => (s, AppResponseView::NoOp),
            EntryPayload::Membership(m) => (
                MachineView { membership_at: Some(e.log_id), membership: m, ..s },
                AppResponseView::NoOp,
            ),
            EntryPayload::Normal(req) => {
                let (queue, answer) = self.queue.step(req);
                (MachineView { queue, ..s }, answer)
            },
        }
    }

    /// What the entries make of the state machine, one after the other, and their answers.
    pub open spec fn apply_all(self, entries: Seq<LogEntry<M>>) -> (
        MachineView<M>,
        Seq<AppResponseView>,
    )
        decreases entries.len(),
    {
        if entries.len() == 0 {
            (self, Seq::empty())
        } else {
            let (before, answers) = self.apply_all(entries.drop_last());
            let (after, answer) = before.apply(entries.last());
            (after, answers.push(answer))
        }
    }

    /// The entry runs no counter over.
    pub open spec fn has_room(self, e: LogEntry<M>) -> bool {
        e.payload matches EntryPayload::Normal(req) ==> self.queue.has_room(req)
    }
}

/// A state machine as plain data.
#[derive(Debug)]
pub struct MachineData<M> {
    pub last_applied: Option<LogPos>,
    pub membership_at: Option<LogPos>,
    pub membership: M,
    pub queue: QueueData,
}

impl<M> MachineData<M> {
    /// The data is that of the state machine.
    pub open spec fn describes(self, s: MachineView<M>) -> bool {
        &&& self.last_applied == s.last_applied
        &&& self.membership_at == s.membership_at
        &&& self.membership == s.membership
        &&& self.queue.describes(s.queue)
    }

    /// What the data is restored to.
    pub open spec fn restores_to(self, r: Option<MachineView<M>>) -> bool {
        match r {
            Some(s) => {
                &&& s.last_applied == self.last_applied
                &&& s.membership_at == self.membership_at
                &&& s.membership == self.membership
                &&& restores_to(self.queue, Some(s.queue))
            },
            None => restores_to(self.queue, None),
        }
    }
}

/// The state machine: the queue, how far the log was applied to it, and the membership
/// of the cluster.
#[derive(Debug)]
pub struct StateMachine<M> {
    last_applied: Option<LogPos>,
    membership_at: Option<LogPos>,
    membership: M,
    queue: Queue,
    snapshot_seq: u64,
}

impl<M> View for StateMachine<M> {
    type V = MachineView<M>;

    closed spec fn view(&self) -> MachineView<M> {
        MachineView {
            last_applied: self.last_applied,
            membership_at: self.membership_at,
            membership: self.membership,
            queue: self.queue@,
        }
    }
}

/// The values of the answers.
pub open spec fn response_views(answers: Seq<AppResponse>) -> Seq<AppResponseView> {
    Seq::new(answers.len(), |i: int| answers[i]@)
}

/// The name of a snapshot: the index it goes up to, and its number.
pub open spec fn snapshot_name(last: Option<LogPos>, seq: u64) -> Seq<char> {
    match last {
        Some(p) => decimal(p.index as nat) + "-"@ + decimal(seq as nat),
        None => "none-"@ + decimal(seq as nat),
    }
}

impl<M> StateMachine<M> {
    pub closed spec fn wf(&self) -> bool {
        self.queue.wf()
    }

    /// How many snapshots were built.
    pub closed spec fn snapshots(&self) -> u64 {
        self.snapshot_seq
    }

    /// A state machine to which nothing was applied.
    pub fn new(membership: M) -> (r: Self)
        ensures
            r.wf(),
            r@ == (MachineView {
                last_applied: None,
                membership_at: None,
                membership,
                queue: QueueView::fresh(),
            }),
            r.snapshots() == 0,
    {
        StateMachine {
            last_applied: None,
            membership_at: None,
            membership,
            queue: Queue::default(),
            snapshot_seq: 0,
        }
    }

    /// The state machine as plain data, with the membership as it is handed in.
    pub fn snapshot(&self, membership: M) -> (r: MachineData<M>)
        requires
            self.wf(),
        ensures
            r.describes(MachineView { membership, ..self@ }),
    {
        MachineData {
            last_applied: self.last_applied,
            membership_at: self.membership_at,
            membership,
            queue: self.queue.snapshot(),
        }
    }

    /// The state machine of plain data; none where the data holds no sound queue.
    pub fn restore(d: MachineData<M>) -> (r: Option<Self>)
        ensures
            match r {
                Some(s) => s.wf() && s.snapshots() == 0 && d.restores_to(Some(s@)),
                None => d.restores_to(None),
            },
    {
        let MachineData { last_applied, membership_at, membership, queue } = d;
        match Queue::restore(queue) {
            Some(queue) => Some(
                StateMachine { last_applied, membership_at, membership, queue, snapshot_seq: 0 },
            ),
            None => None,
        }
    }

    /// Replaces what the state machine holds by what another one holds; the numbering of
    /// its own snapshots goes on.
    pub fn install(&mut self, other: Self)
        requires
            other.wf(),
        ensures
            final(self).wf(),
            final(self)@ == other@,
            final(self).snapshots() == old(self).snapshots(),
    {
        self.last_applied = other.last_applied;
        self.membership_at = other.membership_at;
        self.membership = other.membership;
        self.queue = other.queue;
    }

    /// Whether the entry runs no counter over.
    fn can_apply(&self, e: &LogEntry<M>) -> (r: bool)
        requires
            self.wf(),
        ensures
            r == self@.has_room(*e),
    {
        match &e.payload {
            EntryPayload::Normal(req) => self.queue.can_apply(req),
            _ => true,
        }
    }

    /// Applies one entry.
    fn apply_one(&mut self, e: LogEntry<M>) -> (r: AppResponse)
        requires
            old(self).wf(),
            old(self)@.has_room(e),
        ensures
            final(self).wf(),
            final(self).snapshots() == old(self).snapshots(),
            (final(self)@, r@) == old(self)@.apply(e),
    {
        proof {
            reveal(MachineView::apply);
        }
        self.last_applied = Some(e.log_id);
        match e.payload {
            EntryPayload::Blank => AppResponse::NoOp,
            EntryPayload::Membership(m) => {
                self.membership_at = Some(e.log_id);
                self.membership = m;
                AppResponse::NoOp
            },
            EntryPayload::Normal(req) => self.queue.apply(req),
        }
    }

    /// Applies entries of the log one after the other. It stops at the first entry that
    /// would run a counter over, and says which one that is.
    pub fn apply(&mut self, entries: Vec<LogEntry<M>>) -> (r: Result<Vec<AppResponse>, usize>)
        requires
            old(self).wf(),
        ensures
            final(self).wf(),
            final(self).snapshots() == old(self).snapshots(),
            match r {
                Ok(answers) => {
                    &&& (final(self)@, response_views(answers@)) == old(self)@.apply_all(entries@)
                    &&& forall|i: int|
                        0 <= i < entries@.len() ==> old(self)@.apply_all(
                            entries@.take(i),
                        ).0.has_room(#[trigger] entries@[i])
                },
                Err(n) => {
                    &&& n < entries@.len()
                    &&& final(self)@ == old(self)@.apply_all(entries@.take(n as int)).0
                    &&& !final(self)@.has_room(entries@[n as int])
                },
            },
    {
        let ghost start = self@;
        let ghost all = entries@;
        let mut answers: Vec<AppResponse> = Vec::new();
        let mut n: usize = 0;
        let len: usize = entries.len();
        proof {
            assert(all.take(0) =~= Seq::empty());
            assert(response_views(answers@) =~= Seq::empty());
        }
        for e in it: entries
            invariant
                self.wf(),
                self.snapshots() == old(self).snapshots(),
                start == old(self)@,
                all == entries@,
                it.seq() == all,
                n == it.index(),
                all.len() == len,
                (self@, response_views(answers@)) == start.apply_all(all.take(it.index())),
                forall|i: int|
                    0 <= i < it.index() ==> start.apply_all(all.take(i)).0.has_room(
                        #[trigger] all[i],
                    ),
        {
            let ghost before = response_views(answers@);
            proof {
                lemma_one_more(start, all, n as int);
            }
            if !self.can_apply(&e) {
                return Err(n);
            }
            let answer = self.apply_one(e);
            answers.push(answer);
            assert(response_views(answers@) =~= before.push(answer@));
            n += 1;
        }
        assert(all.take(all.len() as int) =~= all);
        Ok(answers)
    }

    /// How far the log was applied.
    pub fn last_applied(&self) -> (r: Option<LogPos>)
        ensures
            r == self@.last_applied,
    {
        self.last_applied
    }

    /// The membership of the cluster, and the entry that set it.
    pub fn membership(&self) -> (r: (Option<LogPos>, &M))
        ensures
            r.0 == self@.membership_at,
            *r.1 == self@.membership,
    {
        (self.membership_at, &self.membership)
    }

    /// The queue.
    pub fn queue(&self) -> (r: &Queue)
        requires
            self.wf(),
        ensures
            r.wf(),
            r@ == self@.queue,
    {
        &self.queue
    }

    /// How many snapshots were named.
    pub fn snapshot_count(&self) -> (r: u64)
        ensures
            r == self.snapshots(),
    {
        self.snapshot_seq
    }

    /// Names the next snapshot.
    pub fn next_snapshot_name(&mut self) -> (r: String)
        requires
            old(self).wf(),
            old(self).snapshots() < u64::MAX,
        ensures
            final(self).wf(),
            final(self)@ == old(self)@,
            final(self).snapshots() == old(self).snapshots() + 1,
            r@ == snapshot_name(old(self)@.last_applied, final(self).snapshots()),
    {
        self.snapshot_seq = self.snapshot_seq + 1;
        let mut name: String;
        match self.last_applied {
            Some(p) => {
                name = String::new();
                append_decimal(&mut name, p.index);
                name.append("-");
            },
            None => {
                name = "none-".to_owned();
            },
        }
        append_decimal(&mut name, self.snapshot_seq);
        assert(name@ =~= snapshot_name(self.last_applied, self.snapshot_seq));
        name
    }

    /// The rate at which a topic hands out messages, and its burst, if it is limited.
    pub fn rate_config(&self, topic: &str) -> (r: Option<(u64, u32)>)
        requires
            self.wf(),
        ensures
            r == self@.queue.rate_config(topic@),
    {
        self.queue.rate_config(topic)
    }

    /// Whether a poll at `now_ms` would find a message for the group.
    pub fn has_deliverable(&self, topic: &str, group: &str, now_ms: u64) -> (r: bool)
        requires
            self.wf(),
        ensures
            r == self@.queue.has_deliverable(topic@, group@, now_ms),
    {
        self.queue.has_deliverable(topic, group, now_ms)
    }

    /// How many topics, messages and leases there are.
    pub fn metrics(&self) -> (r: QueueMetrics)
        requires
            self.wf(),
        ensures
            r.topics == self@.queue.topics.len(),
            r.messages == capped(self@.queue.message_count()),
            r.in_flight == capped(self@.queue.in_flight_count()),
    {
        self.queue.metrics()
    }
}

/// Applying one more entry.
proof fn lemma_one_more<M>(s: MachineView<M>, entries: Seq<LogEntry<M>>, n: int)
    requires
        0 <= n < entries.len(),
    ensures
        ({
            let (before, answers) = s.apply_all(entries.take(n));
            let (after, answer) = before.apply(entries[n]);
            s.apply_all(entries.take(n + 1)) == (after, answers.push(answer))
        }),
{
    assert(entries.take(n + 1).drop_last() =~= entries.take(n));
    assert(entries.take(n + 1).last() == entries[n]);
}

/// A state machine that is stored and restored comes back as it was: the queue, how far
/// the log was applied to it, and the membership.
pub proof fn a_machine_survives_its_snapshot<M>(
    d: MachineData<M>,
    s: MachineView<M>,
    r: Option<MachineView<M>>,
)
    requires
        s.queue.wf(),
        d.describes(s),
        d.restores_to(r),
    ensures
        r == Some(s),
{
    let q = match r {
        Some(v) => Some(v.queue),
        None => None,
    };
    snapshots_round_trip(d.queue, s.queue, q);
}

/// A node that restores a snapshot and applies what follows it ends where a node is that
/// has applied the whole log, with the same answers on the way.
pub proof fn restoring_and_applying_is_applying_it_all<M>(
    start: MachineView<M>,
    first: Seq<LogEntry<M>>,
    rest: Seq<LogEntry<M>>,
    d: MachineData<M>,
    r: Option<MachineView<M>>,
)
    requires
        start.apply_all(first).0.queue.wf(),
        d.describes(start.apply_all(first).0),
        d.restores_to(r),
    ensures
        r is Some,
        r->Some_0.apply_all(rest).0 == start.apply_all(first + rest).0,
        start.apply_all(first + rest).1 == start.apply_all(first).1 + r->Some_0.apply_all(rest).1,
{
    a_machine_survives_its_snapshot(d, start.apply_all(first).0, r);
    applying_in_parts_is_applying_at_once(start, first, rest);
}

/// To apply a log in two parts is to apply it at once: a node that starts from a
/// snapshot and applies what follows it ends where all others are.
pub proof fn applying_in_parts_is_applying_at_once<M>(
    s: MachineView<M>,
    first: Seq<LogEntry<M>>,
    rest: Seq<LogEntry<M>>,
)
    ensures
        s.apply_all(first + rest).0 == s.apply_all(first).0.apply_all(rest).0,
        s.apply_all(first + rest).1 == s.apply_all(first).1 + s.apply_all(first).0.apply_all(
            rest,
        ).1,
    decreases rest.len(),
{
    if rest.len() == 0 {
        assert(first + rest =~= first);
        assert(s.apply_all(first).1 + Seq::<AppResponseView>::empty() =~= s.apply_all(first).1);
    } else {
        applying_in_parts_is_applying_at_once(s, first, rest.drop_last());
        assert((first + rest).drop_last() =~= first + rest.drop_last());
        assert((first + rest).last() == rest.last());
        let mid = s.apply_all(first).0;
        assert(s.apply_all(first + rest).1 =~= s.apply_all(first).1 + mid.apply_all(rest).1);
    }
}

/// The state machine remembers the last entry that was applied.
pub proof fn last_applied_is_the_last_entry<M>(s: MachineView<M>, entries: Seq<LogEntry<M>>)
    requires
        entries.len() > 0,
    ensures
        s.apply_all(entries).0.last_applied == Some(entries.last().log_id),
        s.apply_all(entries).1.len() == entries.len(),
    decreases entries.len(),
{
    reveal(MachineView::apply);
    if entries.len() > 1 {
        last_applied_is_the_last_entry(s, entries.drop_last());
    } else {
        assert(s.apply_all(entries.drop_last()).1.len() == 0);
    }
}

/// An entry moves the machine on to its position, whatever it carries. A command is applied
/// to the queue and answered by it; a membership takes the place of the one before, from its
/// position on; neither touches the other.
pub proof fn an_entry_moves_the_machine_on<M>(s: MachineView<M>, e: LogEntry<M>)
    ensures
        ({
            let (r, answer) = s.apply(e);
            &&& r.last_applied == Some(e.log_id)
            &&& e.payload matches EntryPayload::Normal(req) ==> {
                &&& (r.queue, answer) == s.queue.step(req)
                &&& r.membership == s.membership
                &&& r.membership_at == s.membership_at
            }
            &&& !(e.payload is Normal) ==> r.queue == s.queue && answer is NoOp
            &&& e.payload matches EntryPayload::Membership(m) ==> r.membership == m
                && r.membership_at == Some(e.log_id)
            &&& e.payload is Blank ==> r.membership == s.membership && r.membership_at
                == s.membership_at
        }),
{
    reveal(MachineView::apply);
}

/// No two snapshots of a node have the same name: the name tells the number of the snapshot
/// and the index it goes up to.
pub proof fn snapshot_names_tell_snapshots_apart(
    a: Option<LogPos>,
    m: u64,
    b: Option<LogPos>,
    n: u64,
)
    requires
        snapshot_name(a, m) == snapshot_name(b, n),
    ensures
        m == n,
        a is Some == b is Some,
        a matches Some(p) ==> b matches Some(q) && p.index == q.index,
{
    let name = snapshot_name(a, m);
    let (x, y) = (before_number(a), before_number(b));
    reveal_strlit("-");
    reveal_strlit("none-");
    decimals_read_back(m as nat);
    decimals_read_back(n as nat);
    if a is Some {
        decimals_read_back(a->Some_0.index as nat);
    }
    if b is Some {
        decimals_read_back(b->Some_0.index as nat);
    }
    let (i, j) = (x.len() as int, y.len() as int);
    assert(name =~= x + seq!['-'] + decimal(m as nat));
    assert(name =~= y + seq!['-'] + decimal(n as nat));
    assert(name[i] == '-' && name[j] == '-');
    if i < j {
        assert(name[j] == decimal(m as nat)[j - i - 1]);
    }
    if j < i {
        assert(name[i] == decimal(n as nat)[i - j - 1]);
    }
    assert(x =~= name.take(i));
    assert(y =~= name.take(i));
    assert(decimal(m as nat) =~= name.skip(i + 1));
    assert(decimal(n as nat) =~= name.skip(i + 1));
    decimals_tell_numbers_apart(m as nat, n as nat);
    if a is Some && b is Some {
        decimals_tell_numbers_apart(a->Some_0.index as nat, b->Some_0.index as nat);
    }
    if a is Some != b is Some {
        assert(x[0] == 'n' || y[0] == 'n');
    }
}

/// What a snapshot's name has before the number of the snapshot.
spec fn before_number(last: Option<LogPos>) -> Seq<char> {
    match last {
        Some(p) => decimal(p.index as nat),
        None => seq!['n', 'o', 'n', 'e'],
    }
}

} // verus!
