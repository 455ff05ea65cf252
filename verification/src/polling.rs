//! How a poll runs: from the request to its answer.
use crate::command::{delivered_views, AppRequest, AppResponse, Delivered};
use crate::protocol::{
    address_of, app_response_to_proto, leader_addr, map_raft_error, not_leader, polled,
    rate_limited, reply_to, resp_not_leader, resp_polled, resp_rate_limited, write_failure, Node,
    Poll, RaftStatus, Response, ResponseView, WriteError,
};
use crate::queue::Queue;
use crate::rate::{bucket_of, checked, refunded, Bucket, RateLimiter};
use crate::text::same;
use crate::totals::capped;
use crate::types::{GroupId, LeaseId, TopicId};
use vstd::prelude::*;

verus! {

/// How many messages a poll is for that does not say.
pub const DEFAULT_POLL_MAX: u32 = 16;

/// How many messages a poll may be for.
pub const MAX_POLL_MAX: u32 = 1024;

/// How long a lease runs where the request does not say.
pub const DEFAULT_VISIBILITY_MS: u64 = 30_000;

/// How long a poll may wait.
pub const MAX_WAIT_MS: u64 = 300_000;

/// How long a waiting poll sleeps before it looks again.
pub const PARK_NS: u64 = 200_000_000;

/// The nanoseconds of a millisecond.
pub const NS_PER_MS: u64 = 1_000_000;

/// How many messages a poll that asks for `max` is for.
pub open spec fn poll_max(max: u32) -> u32 {
    if max == 0 {
        DEFAULT_POLL_MAX
    } else if max < MAX_POLL_MAX {
        max
    } else {
        MAX_POLL_MAX
    }
}

/// How long a lease runs where `ms` is asked for.
pub open spec fn visibility_of(ms: u64) -> u64 {
    if ms == 0 {
        DEFAULT_VISIBILITY_MS
    } else {
        ms
    }
}

pub fn visibility(ms: u64) -> (r: u64)
    ensures
        r == visibility_of(ms),
{
    if ms == 0 {
        DEFAULT_VISIBILITY_MS
    } else {
        ms
    }
}

/// How long a lease runs that is handed out at `now_ms`: no longer than the clock can
/// show.
pub open spec fn lease_time(visibility_ms: u64, now_ms: u64) -> u64 {
    if visibility_ms <= u64::MAX - now_ms {
        visibility_ms
    } else {
        (u64::MAX - now_ms) as u64
    }
}

/// How long a lease runs that is handed out at `now_ms`; its deadline always fits.
pub fn fitting_lease_time(visibility_ms: u64, now_ms: u64) -> (r: u64)
    ensures
        r == lease_time(visibility_ms, now_ms),
        now_ms + r <= u64::MAX,
{
    let left: u64 = u64::MAX - now_ms;
    if visibility_ms <= left {
        visibility_ms
    } else {
        left
    }
}

/// A poll that runs.
#[derive(Debug)]
pub struct PollRun {
    pub topic: String,
    pub group: String,
    pub max: u32,
    pub visibility_ms: u64,
    pub auto_ack: bool,
    pub waits: bool,
    pub deadline_ns: u64,
    /// The tokens that were taken for the write that is under way, and the burst of
    /// the topic when they were taken.
    pub granted: Option<(u32, u32)>,
}

/// What a running poll does next.
#[derive(Debug)]
pub enum PollAction {
    /// The poll is over.
    Reply(Response),
    /// The command is written to the replicated log; the poll goes on with its outcome.
    Write(AppRequest),
    /// The command is written to the replicated log, and whatever comes of it the poll
    /// is over.
    AckThenReply(AppRequest, Response),
    /// The poll looks again after so many nanoseconds, or when something was produced
    /// to the topic.
    Park(u64),
}

/// The action ends the poll with that answer.
pub open spec fn answers(action: PollAction, answer: ResponseView) -> bool {
    action matches PollAction::Reply(r) && r@ == answer
}

/// The action writes the command of the poll for `max` messages.
pub open spec fn polls_for(action: PollAction, run: PollRun, max: u32, now_ms: u64) -> bool {
    action matches PollAction::Write(
        AppRequest::Poll { topic, group, max: m, visibility_timeout_ms, ts_ms },
    ) && topic@ == run.topic@ && group@ == run.group@ && m == max && visibility_timeout_ms
        == lease_time(run.visibility_ms, now_ms) && ts_ms == now_ms
}

/// What a poll does that has found nothing: it ends empty-handed when its time is up,
/// and looks again in a moment when it is not.
pub open spec fn idles(action: PollAction, run: PollRun, now_ns: u64) -> bool {
    if !run.waits || now_ns >= run.deadline_ns {
        answers(action, polled(Seq::empty()))
    } else {
        action == PollAction::Park(
            if run.deadline_ns - now_ns < PARK_NS {
                (run.deadline_ns - now_ns) as u64
            } else {
                PARK_NS
            },
        )
    }
}

/// The leases of the deliveries.
pub open spec fn lease_ids_of(items: Seq<Delivered>) -> Seq<LeaseId> {
    Seq::new(items.len(), |i: int| items[i].lease_id)
}

/// The command acks all deliveries at once.
pub open spec fn acks_all(
    command: AppRequest,
    topic: Seq<char>,
    group: Seq<char>,
    items: Seq<Delivered>,
) -> bool {
    command matches AppRequest::AckMany { topic: t, group: g, lease_ids } && t@ == topic && g@
        == group && lease_ids@ == lease_ids_of(items)
}

/// The command that acks all deliveries at once.
pub fn ack_all(topic: &str, group: &str, items: &Vec<Delivered>) -> (r: AppRequest)
    ensures
        acks_all(r, topic@, group@, items@),
        r matches AppRequest::AckMany { lease_ids, .. } && lease_ids@.len() == items@.len()
            && forall|i: int|
            0 <= i < items@.len() ==> #[trigger] lease_ids@[i] == items@[i].lease_id,
{
    let mut lease_ids: Vec<LeaseId> = Vec::new();
    let mut i: usize = 0;
    while i < items.len()
        invariant
            i <= items@.len(),
            lease_ids@ == lease_ids_of(items@).take(i as int),
        decreases items@.len() - i,
    {
        lease_ids.push(items[i].lease_id);
        i += 1;
        assert(lease_ids@ =~= lease_ids_of(items@).take(i as int));
    }
    assert(lease_ids@ =~= lease_ids_of(items@));
    AppRequest::AckMany {
        topic: TopicId(topic.to_owned()),
        group: GroupId(group.to_owned()),
        lease_ids,
    }
}

/// The answer to a poll or a subscription on a node that is not the leader.
pub fn leader_gate(raft: &RaftStatus, members: &Vec<Node>) -> (r: Option<Response>)
    ensures
        match r {
            Some(answer) => raft.current_leader != Some(raft.id) && answer@ == not_leader(
                address_of(raft.current_leader, members@),
            ),
            None => raft.current_leader == Some(raft.id),
        },
{
    if raft.is_leader() {
        None
    } else {
        Some(resp_not_leader(leader_addr(raft.current_leader, members)))
    }
}

/// What is given back of the tokens that were taken when `used` messages came out.
pub open spec fn after_refund(
    buckets: Map<Seq<char>, Bucket>,
    topic: Seq<char>,
    granted: Option<(u32, u32)>,
    used: nat,
) -> Map<Seq<char>, Bucket> {
    match granted {
        Some((tokens, burst)) if used < tokens && buckets.contains_key(topic) => buckets.insert(
            topic,
            refunded(buckets[topic], (tokens - used) as u32, burst),
        ),
        _ => buckets,
    }
}

/// Gives back the tokens that were taken for messages that did not come out.
pub fn refund_unused(
    limiter: &mut RateLimiter,
    topic: &str,
    granted: Option<(u32, u32)>,
    used: usize,
)
    requires
        old(limiter).wf(),
    ensures
        final(limiter).wf(),
        final(limiter)@ == after_refund(old(limiter)@, topic@, granted, used as nat),
{
    match granted {
        Some((tokens, burst)) => {
            if used < tokens as usize {
                let unused: u32 = tokens - used as u32;
                limiter.refund(topic, unused, burst);
            }
        },
        None => {},
    }
}

/// The tokens that were asked for: how many of `want` messages may come out, and what
/// the buckets hold afterwards.
pub open spec fn paced(
    buckets: Map<Seq<char>, Bucket>,
    rate: Option<(u64, u32)>,
    topic: Seq<char>,
    want: u32,
    now_ns: u64,
) -> (Map<Seq<char>, Bucket>, Result<u32, u64>) {
    match rate {
        Some((rate_milli, burst)) => {
            let (b, answer) = checked(
                bucket_of(buckets, topic, burst, now_ns),
                rate_milli,
                burst,
                want,
                now_ns,
            );
            (buckets.insert(topic, b), answer)
        },
        None => (buckets, Ok(want)),
    }
}

/// The tokens that a write holds.
pub open spec fn held_tokens(
    rate: Option<(u64, u32)>,
    answer: Result<u32, u64>,
) -> Option<(u32, u32)> {
    match (rate, answer) {
        (Some((_, burst)), Ok(n)) => Some((n, burst)),
        _ => None,
    }
}

/// Asks for tokens where the topic has a rate.
pub fn pace(
    limiter: &mut RateLimiter,
    rate: Option<(u64, u32)>,
    topic: &str,
    want: u32,
    now_ns: u64,
) -> (r: (Result<u32, u64>, Option<(u32, u32)>))
    requires
        old(limiter).wf(),
    ensures
        final(limiter).wf(),
        (final(limiter)@, r.0) == paced(old(limiter)@, rate, topic@, want, now_ns),
        r.1 == held_tokens(rate, r.0),
{
    match rate {
        Some((rate_milli, burst)) => match limiter.check(topic, rate_milli, burst, want, now_ns) {
            Ok(n) => (Ok(n), Some((n, burst))),
            Err(retry) => (Err(retry), None),
        },
        None => (Ok(want), None),
    }
}

impl PollRun {
    /// The poll as it starts: what the request leaves open is filled in.
    pub fn start(p: Poll, now_ns: u64) -> (r: Self)
        ensures
            r.topic == p.topic,
            r.group == p.group,
            r.max == poll_max(p.max),
            r.visibility_ms == visibility_of(p.visibility_timeout_ms),
            r.auto_ack == (p.ack_mode@ == "auto"@),
            r.waits == (p.wait_ms > 0),
            r.deadline_ns == {
                let wait = if p.wait_ms < MAX_WAIT_MS {
                    p.wait_ms
                } else {
                    MAX_WAIT_MS
                };
                capped((now_ns + wait * NS_PER_MS) as nat)
            },
            r.granted is None,
            now_ns <= r.deadline_ns <= now_ns + 300_000_000_000,
            p.wait_ms <= 300_000 && now_ns + p.wait_ms * 1_000_000 <= u64::MAX ==> r.deadline_ns
                == now_ns + p.wait_ms * 1_000_000,
    {
        let max: u32 = if p.max == 0 {
            DEFAULT_POLL_MAX
        } else if p.max < MAX_POLL_MAX {
            p.max
        } else {
            MAX_POLL_MAX
        };
        let wait: u64 = if p.wait_ms < MAX_WAIT_MS {
            p.wait_ms
        } else {
            MAX_WAIT_MS
        };
        PollRun {
            auto_ack: same(p.ack_mode.as_str(), "auto"),
            topic: p.topic,
            group: p.group,
            max,
            visibility_ms: visibility(p.visibility_timeout_ms),
            waits: p.wait_ms > 0,
            deadline_ns: now_ns.saturating_add(wait * NS_PER_MS),
            granted: None,
        }
    }

    fn idle(&self, now_ns: u64) -> (r: PollAction)
        ensures
            idles(r, *self, now_ns),
    {
        if !self.waits || now_ns >= self.deadline_ns {
            let items: Vec<Delivered> = Vec::new();
            assert(delivered_views(items@) =~= Seq::empty());
            return PollAction::Reply(resp_polled(items));
        }
        let left: u64 = self.deadline_ns - now_ns;
        PollAction::Park(
            if left < PARK_NS {
                left
            } else {
                PARK_NS
            },
        )
    }

    /// Looks whether there is something to deliver. Only then is a command written to
    /// the replicated log, and only for as many messages as the rate of the topic
    /// allows.
    pub fn look(
        &mut self,
        queue: &Queue,
        limiter: &mut RateLimiter,
        now_ms: u64,
        now_ns: u64,
    ) -> (action: PollAction)
        requires
            queue.wf(),
            old(limiter).wf(),
        ensures
            final(limiter).wf(),
            *final(self) == (PollRun { granted: final(self).granted, ..*old(self) }),
            if queue@.has_deliverable(old(self).topic@, old(self).group@, now_ms) {
                let rate = queue@.rate_config(old(self).topic@);
                let (buckets, answer) = paced(
                    old(limiter)@,
                    rate,
                    old(self).topic@,
                    old(self).max,
                    now_ns,
                );
                &&& final(limiter)@ == buckets
                &&& final(self).granted == held_tokens(rate, answer)
                &&& match answer {
                    Ok(n) => polls_for(action, *old(self), n, now_ms),
                    Err(retry) => answers(action, rate_limited(retry)),
                }
            } else {
                &&& final(limiter)@ == old(limiter)@
                &&& final(self).granted is None
                &&& idles(action, *old(self), now_ns)
            },
    {
        self.granted = None;
        if !queue.has_deliverable(self.topic.as_str(), self.group.as_str(), now_ms) {
            return self.idle(now_ns);
        }
        let rate = queue.rate_config(self.topic.as_str());
        let (answer, granted) = pace(limiter, rate, self.topic.as_str(), self.max, now_ns);
        self.granted = granted;
        match answer {
            Err(retry) => PollAction::Reply(resp_rate_limited(retry)),
            Ok(n) => PollAction::Write(
                AppRequest::Poll {
                    topic: TopicId(self.topic.clone()),
                    group: GroupId(self.group.clone()),
                    max: n,
                    visibility_timeout_ms: fitting_lease_time(self.visibility_ms, now_ms),
                    ts_ms: now_ms,
                },
            ),
        }
    }

    /// Goes on with the outcome of the write. Messages that came out are handed over,
    /// acked at once where the client asked for it; a poll that came back empty
    /// idles. Tokens that were not used are given back.
    pub fn written(
        &self,
        outcome: Result<AppResponse, WriteError>,
        limiter: &mut RateLimiter,
        now_ns: u64,
    ) -> (action: PollAction)
        requires
            old(limiter).wf(),
        ensures
            final(limiter).wf(),
            match outcome {
                Err(e) => {
                    &&& answers(action, write_failure(e))
                    &&& final(limiter)@ == after_refund(
                        old(limiter)@,
                        self.topic@,
                        self.granted,
                        0,
                    )
                },
                Ok(AppResponse::Polled { items }) => {
                    &&& final(limiter)@ == after_refund(
                        old(limiter)@,
                        self.topic@,
                        self.granted,
                        items@.len(),
                    )
                    &&& if items@.len() == 0 {
                        idles(action, *self, now_ns)
                    } else if self.auto_ack {
                        action matches PollAction::AckThenReply(command, r) && acks_all(
                            command,
                            self.topic@,
                            self.group@,
                            items@,
                        ) && r@ == polled(delivered_views(items@))
                    } else {
                        answers(action, polled(delivered_views(items@)))
                    }
                },
                Ok(other) => {
                    &&& answers(action, reply_to(other@))
                    &&& final(limiter)@ == after_refund(
                        old(limiter)@,
                        self.topic@,
                        self.granted,
                        0,
                    )
                },
            },
    {
        match outcome {
            Err(e) => {
                refund_unused(limiter, self.topic.as_str(), self.granted, 0);
                PollAction::Reply(map_raft_error(e))
            },
            Ok(AppResponse::Polled { items }) => {
                refund_unused(limiter, self.topic.as_str(), self.granted, items.len());
                if items.len() == 0 {
                    self.idle(now_ns)
                } else if self.auto_ack {
                    let command = ack_all(self.topic.as_str(), self.group.as_str(), &items);
                    PollAction::AckThenReply(command, resp_polled(items))
                } else {
                    PollAction::Reply(resp_polled(items))
                }
            },
            Ok(other) => {
                refund_unused(limiter, self.topic.as_str(), self.granted, 0);
                PollAction::Reply(app_response_to_proto(other))
            },
        }
    }
}

} // verus!
