//! Batches: what is produced and acked at about the same time goes into one entry of
//! the replicated log.
use crate::command::{AppRequest, ProduceItem, ProduceItemView};
use crate::names::{name_before, name_before_irreflexive, name_before_transitive, rank, Rank};
use crate::protocol::{
    content_type_of, ct_from_u32, failure, map_raft_error, resp_error, write_failure, Produce, Response,
    ResponseView, WriteError,
};
use crate::text::same;
use crate::types::{GroupId, LeaseId, Offset, Priority, TopicId};
use vstd::prelude::*;
use vstd::string::StringExecFns;

verus! {

/// The highest priority of a message.
pub const MAX_PRIORITY: u32 = 7;

/// How many messages one batch may hold.
pub const PRODUCE_BATCH_MAX_ITEMS: usize = 256;

/// How many bytes of payload a batch may hold before it takes no more messages.
pub const PRODUCE_BATCH_MAX_BYTES: usize = 524_288;

/// How many acks one batch may hold.
pub const ACK_BATCH_MAX: usize = 1024;

/// Whether a batch of acks that holds `jobs` takes more.
pub fn takes_more_acks(jobs: &Vec<AckJob>) -> (r: bool)
    ensures
        r == (jobs@.len() < ACK_BATCH_MAX),
        r <==> jobs@.len() < 1024,
{
    jobs.len() < ACK_BATCH_MAX
}

/// The bytes of payload of the messages.
pub open spec fn payload_bytes(jobs: Seq<Produce>) -> nat
    decreases jobs.len(),
{
    if jobs.len() == 0 {
        0
    } else {
        payload_bytes(jobs.drop_last()) + jobs.last().payload@.len()
    }
}

/// Messages that are to be produced together.
#[derive(Debug)]
pub struct ProduceBatch {
    jobs: Vec<Produce>,
    bytes: usize,
}

/// The priority that a message gets that asks for `p`.
pub open spec fn priority_of(p: u32) -> Priority {
    Priority(
        if p < MAX_PRIORITY {
            p as u8
        } else {
            MAX_PRIORITY as u8
        },
    )
}

/// The item that a message to be produced becomes at `ts_ms`.
pub open spec fn item_of(p: Produce, ts_ms: u64) -> ProduceItemView {
    ProduceItemView {
        topic: p.topic@,
        priority: priority_of(p.priority),
        content_type: content_type_of(p.content_type),
        payload: p.payload@,
        producer_id: p.producer_id@,
        seq: p.seq,
        ts_ms,
    }
}

/// The topics of the messages, each once, in the order in which they first occur.
pub open spec fn topics_of(jobs: Seq<Produce>) -> Seq<Seq<char>>
    decreases jobs.len(),
{
    if jobs.len() == 0 {
        Seq::empty()
    } else {
        let before = topics_of(jobs.drop_last());
        if before.contains(jobs.last().topic@) {
            before
        } else {
            before.push(jobs.last().topic@)
        }
    }
}

/// The texts of a list.
pub open spec fn texts(list: Seq<String>) -> Seq<Seq<char>> {
    Seq::new(list.len(), |i: int| list[i]@)
}

/// Whether the text is in the list.
fn has_text(list: &Vec<String>, text: &str) -> (r: bool)
    ensures
        r == texts(list@).contains(text@),
{
    let mut i: usize = 0;
    while i < list.len()
        invariant
            i <= list@.len(),
            forall|j: int| 0 <= j < i ==> (#[trigger] list@[j])@ != text@,
        decreases list@.len() - i,
    {
        if same(list[i].as_str(), text) {
            assert(texts(list@)[i as int] == text@);
            return true;
        }
        i += 1;
    }
    proof {
        if texts(list@).contains(text@) {
            let j = choose|j: int| 0 <= j < texts(list@).len() && texts(list@)[j] == text@;
            assert(list@[j]@ == text@);
        }
    }
    false
}

impl View for ProduceBatch {
    type V = Seq<Produce>;

    closed spec fn view(&self) -> Seq<Produce> {
        self.jobs@
    }
}

impl ProduceBatch {
    /// The bytes are counted.
    pub closed spec fn wf(&self) -> bool {
        self.bytes == if payload_bytes(self.jobs@) <= usize::MAX {
            payload_bytes(self.jobs@)
        } else {
            usize::MAX as nat
        }
    }

    /// A batch of one message.
    pub fn new(first: Produce) -> (r: Self)
        ensures
            r.wf(),
            r@ == seq![first],
    {
        let bytes: usize = first.payload.len();
        let jobs: Vec<Produce> = vec![first];
        proof {
            assert(jobs@ =~= seq![first]);
            assert(jobs@.drop_last() =~= Seq::empty());
            assert(payload_bytes(jobs@.drop_last()) == 0);
        }
        ProduceBatch { jobs, bytes }
    }

    /// Whether the batch takes another message.
    pub fn wants_more(&self) -> (r: bool)
        requires
            self.wf(),
        ensures
            r == (self@.len() < PRODUCE_BATCH_MAX_ITEMS && payload_bytes(self@)
                < PRODUCE_BATCH_MAX_BYTES),
            r <==> self@.len() < 256 && payload_bytes(self@) < 524_288,
    {
        self.jobs.len() < PRODUCE_BATCH_MAX_ITEMS && self.bytes < PRODUCE_BATCH_MAX_BYTES
    }

    /// Adds a message.
    pub fn push(&mut self, job: Produce)
        requires
            old(self).wf(),
        ensures
            final(self).wf(),
            final(self)@ == old(self)@.push(job),
    {
        let ghost before = self.jobs@;
        self.bytes = self.bytes.saturating_add(job.payload.len());
        self.jobs.push(job);
        assert(self.jobs@.drop_last() =~= before);
    }

    /// The command that produces the messages at `ts_ms`, in their order, and the
    /// topics that get a message.
    pub fn seal(self, ts_ms: u64) -> (r: (AppRequest, Vec<String>))
        requires
            self.wf(),
        ensures
            r.0 matches AppRequest::ProduceMany { items } && items@.len() == self@.len() && forall|
                i: int,
            |
                0 <= i < self@.len() ==> (#[trigger] items@[i])@ == item_of(self@[i], ts_ms),
            r.0 matches AppRequest::ProduceMany { items } && forall|i: int|
                0 <= i < self@.len() ==> {
                    &&& (#[trigger] items@[i]).topic@ == self@[i].topic@
                    &&& items@[i].payload@ == self@[i].payload@
                    &&& items@[i].producer_id@ == self@[i].producer_id@
                    &&& items@[i].seq == self@[i].seq
                    &&& items@[i].ts_ms == ts_ms
                },
            texts(r.1@) == topics_of(self@),
    {
        let ghost all = self.jobs@;
        let mut items: Vec<ProduceItem> = Vec::new();
        let mut topics: Vec<String> = Vec::new();
        let jobs = self.jobs;
        proof {
            assert(all.take(0) =~= Seq::empty());
            assert(texts(topics@) =~= Seq::empty());
        }
        for p in it: jobs
            invariant
                it.seq() == all,
                items@.len() == it.index(),
                forall|j: int|
                    0 <= j < it.index() ==> (#[trigger] items@[j])@ == item_of(all[j], ts_ms),
                texts(topics@) == topics_of(all.take(it.index())),
        {
            let ghost n = it.index();
            let ghost before = texts(topics@);
            proof {
                assert(all.take(n + 1).drop_last() =~= all.take(n));
                assert(all.take(n + 1).last() == p);
            }
            if !has_text(&topics, p.topic.as_str()) {
                topics.push(p.topic.clone());
                assert(texts(topics@) =~= before.push(p.topic@));
            }
            let priority: u8 = if p.priority < MAX_PRIORITY {
                p.priority as u8
            } else {
                MAX_PRIORITY as u8
            };
            let item = ProduceItem {
                topic: TopicId(p.topic),
                priority: Priority(priority),
                content_type: ct_from_u32(p.content_type),
                payload: p.payload,
                producer_id: p.producer_id,
                seq: p.seq,
                ts_ms,
            };
            items.push(item);
        }
        assert(all.take(all.len() as int) =~= all);
        (AppRequest::ProduceMany { items }, topics)
    }
}

/// How the write of a batch went.
#[derive(Debug)]
pub enum BatchOutcome {
    /// The offsets of its messages.
    Offsets(Vec<Offset>),
    /// An answer that does not fit, as it is shown.
    Unexpected { shown: String },
    Failed(WriteError),
}

/// The answer to the `i`-th of the messages of a batch; none where the batch has no
/// offset for it.
pub open spec fn batch_reply(outcome: BatchOutcome, i: int) -> Option<ResponseView> {
    match outcome {
        BatchOutcome::Offsets(offsets) => if i < offsets@.len() {
            Some(ResponseView::Produced { offset: offsets@[i] })
        } else {
            None
        },
        BatchOutcome::Unexpected { shown } => Some(
            failure("internal"@, "unexpected batch response: "@ + shown@),
        ),
        BatchOutcome::Failed(e) => Some(write_failure(e)),
    }
}

/// The answers to the messages of a batch, in their order.
pub fn batch_replies(outcome: BatchOutcome, n: usize) -> (r: Vec<Option<Response>>)
    ensures
        r@.len() == n,
        forall|i: int|
            0 <= i < n ==> match #[trigger] r@[i] {
                Some(answer) => batch_reply(outcome, i) == Some(answer@),
                None => batch_reply(outcome, i) is None,
            },
{
    let mut replies: Vec<Option<Response>> = Vec::new();
    match outcome {
        BatchOutcome::Offsets(offsets) => {
            let mut i: usize = 0;
            while i < n
                invariant
                    i <= n,
                    outcome == BatchOutcome::Offsets(offsets),
                    replies@.len() == i,
                    forall|j: int|
                        0 <= j < i ==> match #[trigger] replies@[j] {
                            Some(answer) => batch_reply(outcome, j) == Some(answer@),
                            None => batch_reply(outcome, j) is None,
                        },
                decreases n - i,
            {
                if i < offsets.len() {
                    replies.push(Some(Response::Produced { offset: offsets[i] }));
                } else {
                    replies.push(None);
                }
                i += 1;
            }
        },
        BatchOutcome::Unexpected { shown } => {
            let mut message = "unexpected batch response: ".to_owned();
            message.append(shown.as_str());
            let answer = resp_error("internal", message);
            fill(&mut replies, &answer, n);
        },
        BatchOutcome::Failed(e) => {
            let answer = map_raft_error(e);
            fill(&mut replies, &answer, n);
        },
    }
    replies
}

/// Adds the same answer `n` times.
fn fill(replies: &mut Vec<Option<Response>>, answer: &Response, n: usize)
    requires
        old(replies)@.len() == 0,
    ensures
        final(replies)@.len() == n,
        forall|i: int|
            0 <= i < n ==> ((#[trigger] final(replies)@[i]) matches Some(a) && a@ == answer@),
{
    let mut i: usize = 0;
    while i < n
        invariant
            i <= n,
            replies@.len() == i,
            forall|j: int|
                0 <= j < i ==> ((#[trigger] replies@[j]) matches Some(a) && a@ == answer@),
        decreases n - i,
    {
        replies.push(Some(answer.clone()));
        i += 1;
    }
}

/// A lease to be acked or nacked.
#[derive(Debug, Clone, PartialEq, Eq)]
pub struct AckJob {
    pub topic: String,
    pub group: String,
    pub lease_id: LeaseId,
    pub nack: bool,
}

/// What is acked together: the leases of one group of one topic that are all acked or
/// all nacked.
pub struct AckKey {
    pub topic: Seq<char>,
    pub group: Seq<char>,
    pub nack: bool,
}

impl AckKey {
    /// The order of batches: by topic, then by group, acks before nacks.
    pub open spec fn before(self, other: AckKey) -> bool {
        ||| name_before(self.topic, other.topic)
        ||| self.topic == other.topic && name_before(self.group, other.group)
        ||| self.topic == other.topic && self.group == other.group && !self.nack && other.nack
    }
}

/// What a job is acked together with.
pub open spec fn key_of(job: AckJob) -> AckKey {
    AckKey { topic: job.topic@, group: job.group@, nack: job.nack }
}

/// The positions of the first `n` jobs that go by `key`.
pub open spec fn jobs_for(jobs: Seq<AckJob>, key: AckKey, n: int) -> Seq<int>
    decreases n,
{
    if n <= 0 {
        Seq::empty()
    } else if key_of(jobs[n - 1]) == key {
        jobs_for(jobs, key, n - 1).push(n - 1)
    } else {
        jobs_for(jobs, key, n - 1)
    }
}

/// The leases that go into one command, and the jobs they come from.
#[derive(Debug)]
pub struct AckBatch {
    pub topic: String,
    pub group: String,
    pub nack: bool,
    pub lease_ids: Vec<LeaseId>,
    pub jobs: Vec<usize>,
}

impl AckBatch {
    pub open spec fn key(self) -> AckKey {
        AckKey { topic: self.topic@, group: self.group@, nack: self.nack }
    }

    /// The batch holds exactly the leases of the first `n` jobs that go by its key,
    /// and there is one at least.
    pub open spec fn holds(self, jobs: Seq<AckJob>, n: int) -> bool {
        let mine = jobs_for(jobs, self.key(), n);
        &&& mine.len() > 0
        &&& self.jobs@.len() == mine.len()
        &&& self.lease_ids@.len() == mine.len()
        &&& forall|i: int|
            0 <= i < mine.len() ==> self.jobs@[i] == #[trigger] mine[i] && self.lease_ids@[i]
                == jobs[mine[i]].lease_id
    }

    /// The command that acks or nacks the leases.
    pub fn command(self) -> (r: AppRequest)
        ensures
            match r {
                AppRequest::AckMany { topic, group, lease_ids } => !self.nack && topic@
                    == self.topic@ && group@ == self.group@ && lease_ids@ == self.lease_ids@,
                AppRequest::NackMany { topic, group, lease_ids } => self.nack && topic@
                    == self.topic@ && group@ == self.group@ && lease_ids@ == self.lease_ids@,
                _ => false,
            },
    {
        if self.nack {
            AppRequest::NackMany {
                topic: TopicId(self.topic),
                group: GroupId(self.group),
                lease_ids: self.lease_ids,
            }
        } else {
            AppRequest::AckMany {
                topic: TopicId(self.topic),
                group: GroupId(self.group),
                lease_ids: self.lease_ids,
            }
        }
    }
}

/// The batches hold the first `n` jobs: each batch the jobs of one key, in the order
/// of the keys, and every job is in one of them.
pub open spec fn batched(batches: Seq<AckBatch>, jobs: Seq<AckJob>, n: int) -> bool {
    &&& forall|b: int| 0 <= b < batches.len() ==> (#[trigger] batches[b]).holds(jobs, n)
    &&& forall|a: int, b: int|
        0 <= a < b < batches.len() ==> (#[trigger] batches[a]).key().before(
            (#[trigger] batches[b]).key(),
        )
    &&& forall|i: int|
        0 <= i < n ==> exists|b: int|
            0 <= b < batches.len() && (#[trigger] batches[b]).key() == key_of(#[trigger] jobs[i])
}

/// How a job's key stands to that of a batch.
fn rank_key(job: &AckJob, b: &AckBatch) -> (r: Rank)
    ensures
        r is Before <==> key_of(*job).before(b.key()),
        r is Same <==> key_of(*job) == b.key(),
        r is After <==> b.key().before(key_of(*job)),
{
    proof {
        name_before_irreflexive(job.topic@);
        name_before_irreflexive(job.group@);
    }
    match rank(job.topic.as_str(), b.topic.as_str()) {
        Rank::Before => {
            proof {
                lemma_not_back(job.topic@, b.topic@);
            }
            Rank::Before
        },
        Rank::After => {
            proof {
                lemma_not_back(b.topic@, job.topic@);
            }
            Rank::After
        },
        Rank::Same => match rank(job.group.as_str(), b.group.as_str()) {
            Rank::Before => {
                proof {
                    lemma_not_back(job.group@, b.group@);
                }
                Rank::Before
            },
            Rank::After => {
                proof {
                    lemma_not_back(b.group@, job.group@);
                }
                Rank::After
            },
            Rank::Same => if job.nack == b.nack {
                Rank::Same
            } else if b.nack {
                Rank::Before
            } else {
                Rank::After
            },
        },
    }
}

proof fn lemma_not_back(a: Seq<char>, b: Seq<char>)
    requires
        name_before(a, b),
    ensures
        !name_before(b, a),
        a != b,
{
    name_before_irreflexive(a);
    if name_before(b, a) {
        name_before_transitive(a, b, a);
    }
}

proof fn lemma_key_transitive(a: AckKey, b: AckKey, c: AckKey)
    requires
        a.before(b),
        b.before(c),
    ensures
        a.before(c),
        a != c,
{
    if name_before(a.topic, b.topic) && name_before(b.topic, c.topic) {
        name_before_transitive(a.topic, b.topic, c.topic);
    }
    if name_before(a.group, b.group) && name_before(b.group, c.group) {
        name_before_transitive(a.group, b.group, c.group);
    }
    name_before_irreflexive(a.topic);
    name_before_irreflexive(a.group);
}

/// Sorts jobs into batches.
pub fn batch_acks(jobs: &Vec<AckJob>) -> (batches: Vec<AckBatch>)
    ensures
        batched(batches@, jobs@, jobs@.len() as int),
{
    let mut batches: Vec<AckBatch> = Vec::new();
    let mut n: usize = 0;
    while n < jobs.len()
        invariant
            n <= jobs@.len(),
            batched(batches@, jobs@, n as int),
        decreases jobs@.len() - n,
    {
        add_job(&mut batches, jobs, n);
        n += 1;
    }
    batches
}

fn add_job(batches: &mut Vec<AckBatch>, jobs: &Vec<AckJob>, n: usize)
    requires
        n < jobs@.len(),
        batched(old(batches)@, jobs@, n as int),
    ensures
        batched(final(batches)@, jobs@, n + 1),
{
    let job = &jobs[n];
    let ghost start = batches@;
    let mut at: usize = 0;
    while at < batches.len()
        invariant
            at <= batches@.len(),
            batches@ == start,
            n < jobs@.len(),
            *job == jobs@[n as int],
            batched(start, jobs@, n as int),
            forall|b: int| 0 <= b < at ==> (#[trigger] start[b]).key().before(key_of(*job)),
        ensures
            at < start.len() ==> key_of(*job).before(start[at as int].key()),
        decreases batches@.len() - at,
    {
        match rank_key(job, &batches[at]) {
            Rank::After => {
                at += 1;
            },
            Rank::Same => {
                let b = &mut batches[at];
                b.lease_ids.push(job.lease_id);
                b.jobs.push(n);
                proof {
                    lemma_joined(start, batches@, jobs@, n as int, at as int);
                }
                return;
            },
            Rank::Before => {
                break;
            },
        }
    }
    proof {
        assert forall|b: int| at <= b < start.len() implies key_of(*job).before(
            (#[trigger] start[b]).key(),
        ) by {
            if b > at {
                assert(start[at as int].key().before(start[b].key()));
                lemma_key_transitive(key_of(*job), start[at as int].key(), start[b].key());
            }
        }
    }
    let lease_ids: Vec<LeaseId> = vec![job.lease_id];
    let positions: Vec<usize> = vec![n];
    assert(lease_ids@ =~= seq![job.lease_id]);
    let fresh = AckBatch {
        topic: job.topic.clone(),
        group: job.group.clone(),
        nack: job.nack,
        lease_ids,
        jobs: positions,
    };
    batches.insert(at, fresh);
    proof {
        lemma_opened(start, batches@, jobs@, n as int, at as int);
    }
}

/// The jobs of another key are the same with one more job.
proof fn lemma_other_key(b: AckBatch, jobs: Seq<AckJob>, n: int)
    requires
        0 <= n < jobs.len(),
        b.holds(jobs, n),
        b.key() != key_of(jobs[n]),
    ensures
        b.holds(jobs, n + 1),
{
}

proof fn lemma_joined(
    before: Seq<AckBatch>,
    after: Seq<AckBatch>,
    jobs: Seq<AckJob>,
    n: int,
    at: int,
)
    requires
        0 <= n < jobs.len(),
        batched(before, jobs, n),
        0 <= at < before.len(),
        after.len() == before.len(),
        forall|b: int| 0 <= b < before.len() && b != at ==> #[trigger] after[b] == before[b],
        before[at].key() == key_of(jobs[n]),
        after[at].key() == before[at].key(),
        after[at].lease_ids@ == before[at].lease_ids@.push(jobs[n].lease_id),
        after[at].jobs@.len() == before[at].jobs@.len() + 1,
        forall|i: int|
            0 <= i < before[at].jobs@.len() ==> #[trigger] after[at].jobs@[i] == before[at].jobs@[i],
        after[at].jobs@.last() == n,
    ensures
        batched(after, jobs, n + 1),
{
    let key = key_of(jobs[n]);
    assert(before[at].holds(jobs, n));
    assert(jobs_for(jobs, key, n + 1) == jobs_for(jobs, key, n).push(n));
    assert(after[at].holds(jobs, n + 1)) by {
        let mine = jobs_for(jobs, key, n + 1);
        assert forall|i: int| 0 <= i < mine.len() implies after[at].jobs@[i] == #[trigger] mine[i]
            && after[at].lease_ids@[i] == jobs[mine[i]].lease_id by {
            if i < mine.len() - 1 {
                assert(mine[i] == jobs_for(jobs, key, n)[i]);
                assert(after[at].jobs@[i] == before[at].jobs@[i]);
            }
        }
    }
    assert forall|b: int| 0 <= b < after.len() implies (#[trigger] after[b]).holds(
        jobs,
        n + 1,
    ) by {
        if b != at {
            assert(after[b] == before[b]);
            assert(before[b].holds(jobs, n));
            lemma_apart(before, jobs, n, b, at);
            lemma_other_key(before[b], jobs, n);
        }
    }
    assert forall|a: int, b: int| 0 <= a < b < after.len() implies (#[trigger] after[a]).key().before(
        (#[trigger] after[b]).key(),
    ) by {
        assert(before[a].key().before(before[b].key()));
    }
    assert forall|i: int| 0 <= i < n + 1 implies exists|b: int|
        0 <= b < after.len() && (#[trigger] after[b]).key() == key_of(#[trigger] jobs[i]) by {
        if i < n {
            let b = choose|b: int|
                0 <= b < before.len() && (#[trigger] before[b]).key() == key_of(jobs[i]);
            assert(after[b].key() == key_of(jobs[i]));
        } else {
            assert(after[at].key() == key_of(jobs[i]));
        }
    }
}

/// Two batches have different keys.
proof fn lemma_apart(batches: Seq<AckBatch>, jobs: Seq<AckJob>, n: int, a: int, b: int)
    requires
        batched(batches, jobs, n),
        0 <= a < batches.len(),
        0 <= b < batches.len(),
        a != b,
    ensures
        batches[a].key() != batches[b].key(),
{
    name_before_irreflexive(batches[a].key().topic);
    name_before_irreflexive(batches[a].key().group);
    if a < b {
        assert(batches[a].key().before(batches[b].key()));
    } else {
        assert(batches[b].key().before(batches[a].key()));
    }
}

/// A key that no batch has is the key of no job.
proof fn lemma_no_job(batches: Seq<AckBatch>, jobs: Seq<AckJob>, key: AckKey, n: int, k: int)
    requires
        batched(batches, jobs, n),
        0 <= k <= n,
        forall|b: int| 0 <= b < batches.len() ==> (#[trigger] batches[b]).key() != key,
    ensures
        jobs_for(jobs, key, k) == Seq::<int>::empty(),
    decreases k,
{
    if k > 0 {
        lemma_no_job(batches, jobs, key, n, k - 1);
        let b = choose|b: int|
            0 <= b < batches.len() && (#[trigger] batches[b]).key() == key_of(jobs[k - 1]);
        assert(batches[b].key() == key_of(jobs[k - 1]));
    }
}

proof fn lemma_opened(
    before: Seq<AckBatch>,
    after: Seq<AckBatch>,
    jobs: Seq<AckJob>,
    n: int,
    at: int,
)
    requires
        0 <= n < jobs.len(),
        batched(before, jobs, n),
        0 <= at <= before.len(),
        after.len() == before.len() + 1,
        forall|b: int| 0 <= b < at ==> #[trigger] after[b] == before[b],
        forall|b: int| at <= b < before.len() ==> after[b + 1] == #[trigger] before[b],
        after[at].key() == key_of(jobs[n]),
        after[at].lease_ids@ == seq![jobs[n].lease_id],
        after[at].jobs@.len() == 1,
        after[at].jobs@[0] == n,
        forall|b: int| 0 <= b < at ==> (#[trigger] before[b]).key().before(key_of(jobs[n])),
        forall|b: int|
            at <= b < before.len() ==> key_of(jobs[n]).before((#[trigger] before[b]).key()),
    ensures
        batched(after, jobs, n + 1),
{
    let key = key_of(jobs[n]);
    name_before_irreflexive(key.topic);
    name_before_irreflexive(key.group);
    assert forall|b: int| 0 <= b < before.len() implies (#[trigger] before[b]).key() != key by {
        if b < at {
            assert(before[b].key().before(key));
        } else {
            assert(key.before(before[b].key()));
        }
    }
    lemma_no_job(before, jobs, key, n, n);
    assert(jobs_for(jobs, key, n + 1) == seq![n]);
    assert(after[at].holds(jobs, n + 1));
    assert forall|b: int| 0 <= b < after.len() implies (#[trigger] after[b]).holds(
        jobs,
        n + 1,
    ) by {
        if b < at {
            assert(before[b].holds(jobs, n));
            lemma_other_key(before[b], jobs, n);
        } else if b > at {
            assert(after[b] == before[b - 1]);
            assert(before[b - 1].holds(jobs, n));
            lemma_other_key(before[b - 1], jobs, n);
        }
    }
    assert forall|a: int, b: int| 0 <= a < b < after.len() implies (#[trigger] after[a]).key().before(
        (#[trigger] after[b]).key(),
    ) by {
        let (x, y) = (
            if a < at {
                a
            } else {
                a - 1
            },
            if b < at {
                b
            } else {
                b - 1
            },
        );
        if a != at {
            assert(after[a] == before[x]);
        }
        if b != at {
            assert(after[b] == before[y]);
        }
        if a != at && b != at {
            assert(before[x].key().before(before[y].key()));
        }
    }
    assert forall|i: int| 0 <= i < n + 1 implies exists|b: int|
        0 <= b < after.len() && (#[trigger] after[b]).key() == key_of(#[trigger] jobs[i]) by {
        if i < n {
            let b = choose|b: int|
                0 <= b < before.len() && (#[trigger] before[b]).key() == key_of(jobs[i]);
            let c = if b < at {
                b
            } else {
                b + 1
            };
            assert(after[c] == before[b]);
            assert(after[c].key() == key_of(jobs[i]));
        } else {
            assert(after[at].key() == key_of(jobs[i]));
        }
    }
}

} // verus!
