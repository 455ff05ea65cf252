//! How a subscription runs: what it polls for, what it pushes and what it does with
//! the acks that come back.
use crate::batching::AckJob;
use crate::command::{delivered_views, AppRequest, AppResponse, Delivered};
use crate::polling::{
    ack_all, acks_all, after_refund, fitting_lease_time, held_tokens, lease_time, pace, paced,
    refund_unused, visibility, visibility_of, MAX_POLL_MAX,
};
use crate::protocol::{
    polled, resp_polled, RaftStatus, Request, Response, Subscribe, WriteError,
};
use crate::queue::Queue;
use crate::rate::RateLimiter;
use crate::text::same;
use crate::totals::capped;
use crate::tracking::{Delivery, SubTracking};
use crate::types::{GroupId, LeaseId, TopicId};
use vstd::prelude::*;

verus! {

/// How long an ack counts for a message that is leased again before the ack is applied.
pub const ACK_GRACE_MS: u64 = 5_000;

/// How many milliseconds a subscription waits before it looks again.
pub const SUBSCRIBE_PARK_MS: u64 = 200;

/// A subscription that runs.
#[derive(Debug)]
pub struct Subscription {
    pub topic: String,
    pub group: String,
    /// How many messages may be out and not acked.
    pub prefetch: u32,
    pub auto_ack: bool,
    pub visibility_ms: u64,
}

/// How many messages may be out where `prefetch` is asked for.
pub open spec fn prefetch_of(prefetch: u32) -> u32 {
    if prefetch < 1 {
        1
    } else if prefetch > MAX_POLL_MAX {
        MAX_POLL_MAX
    } else {
        prefetch
    }
}

/// What a subscription does next.
#[derive(Debug)]
pub enum SubAction {
    /// The subscription is over.
    Stop,
    /// The command is written to the replicated log. The tokens that were taken for
    /// it, with the burst of the topic, go along.
    Write(AppRequest, Option<(u32, u32)>),
    /// It waits for an ack, for a new message, or until so many milliseconds have passed.
    Wait(u64),
}

/// What a subscription does with what was leased for it.
#[derive(Debug)]
pub enum Leased {
    /// The subscription is over.
    Stop,
    /// Nothing came out: it waits for an ack, for a new message, or until so many
    /// milliseconds have passed.
    Wait(u64),
    /// The messages are handed on one by one; before that, the command, if there is
    /// one, is written to the replicated log.
    Messages(Option<AppRequest>, Vec<Delivered>),
}

/// What is done with one leased message.
#[derive(Debug)]
pub enum PushAction {
    /// It goes out on the connection.
    Push(Response),
    /// The consumer still has it.
    Keep,
    /// The consumer has acked it: the new lease is acked too.
    Ack(AckJob),
}

/// The job acks or nacks the lease for the subscription, and nobody waits for it.
pub open spec fn acks_lease(job: AckJob, sub: Subscription, lease_id: LeaseId, nack: bool) -> bool {
    &&& job.topic@ == sub.topic@
    &&& job.group@ == sub.group@
    &&& job.lease_id == lease_id
    &&& job.nack == nack
}

impl Subscription {
    /// The subscription as it starts: what the request leaves open is filled in.
    pub fn open(sub: Subscribe) -> (r: Self)
        ensures
            r.topic == sub.topic,
            r.group == sub.group,
            r.prefetch == prefetch_of(sub.prefetch),
            r.auto_ack == (sub.ack_mode@ == "auto"@),
            r.visibility_ms == visibility_of(sub.visibility_timeout_ms),
    {
        let prefetch: u32 = if sub.prefetch < 1 {
            1
        } else if sub.prefetch > MAX_POLL_MAX {
            MAX_POLL_MAX
        } else {
            sub.prefetch
        };
        Subscription {
            auto_ack: same(sub.ack_mode.as_str(), "auto"),
            topic: sub.topic,
            group: sub.group,
            prefetch,
            visibility_ms: visibility(sub.visibility_timeout_ms),
        }
    }

    /// Looks whether there is room on the connection and something to deliver. Only
    /// then is a command written to the replicated log, for as many messages as there
    /// is room for and as the rate of the topic allows.
    pub fn look(
        &self,
        tracking: &mut SubTracking,
        queue: &Queue,
        limiter: &mut RateLimiter,
        raft: &RaftStatus,
        closed: bool,
        now_ms: u64,
        now_ns: u64,
    ) -> (action: SubAction)
        requires
            queue.wf(),
            old(limiter).wf(),
        ensures
            final(limiter).wf(),
            if closed || raft.current_leader != Some(raft.id) {
                &&& action == SubAction::Stop
                &&& final(tracking)@ == old(tracking)@
                &&& final(limiter)@ == old(limiter)@
            } else {
                let live = final(tracking)@.live(now_ms).len();
                &&& final(tracking)@ == old(tracking)@.swept(now_ms, self.visibility_ms)
                &&& if live < self.prefetch && queue@.has_deliverable(
                    self.topic@,
                    self.group@,
                    now_ms,
                ) {
                    let rate = queue@.rate_config(self.topic@);
                    let want = (self.prefetch - live) as u32;
                    let (buckets, answer) = paced(
                        old(limiter)@,
                        rate,
                        self.topic@,
                        want,
                        now_ns,
                    );
                    &&& final(limiter)@ == buckets
                    &&& match answer {
                        Ok(n) => action matches SubAction::Write(
                            AppRequest::Poll { topic, group, max, visibility_timeout_ms, ts_ms },
                            tokens,
                        ) && topic@ == self.topic@ && group@ == self.group@ && max == n
                            && visibility_timeout_ms == lease_time(self.visibility_ms, now_ms)
                            && ts_ms == now_ms
                            && tokens == held_tokens(rate, answer),
                        Err(_) => action == SubAction::Wait(SUBSCRIBE_PARK_MS),
                    }
                } else {
                    &&& action == SubAction::Wait(SUBSCRIBE_PARK_MS)
                    &&& final(limiter)@ == old(limiter)@
                }
            },
            action matches SubAction::Wait(ms) ==> ms == 200,
    {
        if closed || !raft.is_leader() {
            return SubAction::Stop;
        }
        let live: usize = tracking.live_count(now_ms, self.visibility_ms);
        if live >= self.prefetch as usize || !queue.has_deliverable(
            self.topic.as_str(),
            self.group.as_str(),
            now_ms,
        ) {
            return SubAction::Wait(SUBSCRIBE_PARK_MS);
        }
        let rate = queue.rate_config(self.topic.as_str());
        let want: u32 = self.prefetch - live as u32;
        let (answer, tokens) = pace(limiter, rate, self.topic.as_str(), want, now_ns);
        match answer {
            Err(_) => SubAction::Wait(SUBSCRIBE_PARK_MS),
            Ok(n) => SubAction::Write(
                AppRequest::Poll {
                    topic: TopicId(self.topic.clone()),
                    group: GroupId(self.group.clone()),
                    max: n,
                    visibility_timeout_ms: fitting_lease_time(self.visibility_ms, now_ms),
                    ts_ms: now_ms,
                },
                tokens,
            ),
        }
    }

    /// Goes on with the outcome of the write. Where the consumer wants it, what came
    /// out is acked at once, before it is pushed. Tokens that were not used are given
    /// back.
    pub fn written(
        &self,
        outcome: Result<AppResponse, WriteError>,
        tokens: Option<(u32, u32)>,
        limiter: &mut RateLimiter,
    ) -> (r: Leased)
        requires
            old(limiter).wf(),
        ensures
            final(limiter).wf(),
            match outcome {
                Ok(AppResponse::Polled { items }) => {
                    &&& final(limiter)@ == after_refund(
                        old(limiter)@,
                        self.topic@,
                        tokens,
                        items@.len(),
                    )
                    &&& if items@.len() == 0 {
                        r == Leased::Wait(SUBSCRIBE_PARK_MS)
                    } else {
                        r matches Leased::Messages(command, leased) && leased == items
                            && if self.auto_ack {
                            command matches Some(c) && acks_all(
                                c,
                                self.topic@,
                                self.group@,
                                items@,
                            )
                        } else {
                            command is None
                        }
                    }
                },
                Ok(_) => {
                    &&& r == Leased::Wait(SUBSCRIBE_PARK_MS)
                    &&& final(limiter)@ == after_refund(old(limiter)@, self.topic@, tokens, 0)
                },
                Err(_) => {
                    &&& r == Leased::Stop
                    &&& final(limiter)@ == after_refund(old(limiter)@, self.topic@, tokens, 0)
                },
            },
    {
        match outcome {
            Ok(AppResponse::Polled { items }) => {
                refund_unused(limiter, self.topic.as_str(), tokens, items.len());
                if items.len() == 0 {
                    return Leased::Wait(SUBSCRIBE_PARK_MS);
                }
                let command = if self.auto_ack {
                    Some(ack_all(self.topic.as_str(), self.group.as_str(), &items))
                } else {
                    None
                };
                Leased::Messages(command, items)
            },
            Ok(_) => {
                refund_unused(limiter, self.topic.as_str(), tokens, 0);
                Leased::Wait(SUBSCRIBE_PARK_MS)
            },
            Err(_) => {
                refund_unused(limiter, self.topic.as_str(), tokens, 0);
                Leased::Stop
            },
        }
    }

    /// Decides what is done with one leased message. A consumer that acks on delivery
    /// gets every message; for any other, a message that it still works on is not
    /// pushed again, and one that it has just acked is acked again.
    pub fn push(&self, tracking: &mut SubTracking, d: Delivered, now_ms: u64) -> (r: PushAction)
        ensures
            ({
                let (after, delivery) = old(tracking)@.deliver(
                    d.offset,
                    d.lease_id,
                    capped((now_ms + self.visibility_ms) as nat),
                    now_ms,
                );
                if self.auto_ack {
                    &&& final(tracking)@ == old(tracking)@
                    &&& r matches PushAction::Push(frame) && frame@ == polled(seq![d@])
                } else {
                    &&& final(tracking)@ == after
                    &&& match delivery {
                        Delivery::Push => r matches PushAction::Push(frame) && frame@ == polled(
                            seq![d@],
                        ),
                        Delivery::Refreshed => r == PushAction::Keep,
                        Delivery::AlreadyAcked => r matches PushAction::Ack(job) && acks_lease(
                            job,
                            *self,
                            d.lease_id,
                            false,
                        ),
                    }
                }
            }),
    {
        if !self.auto_ack {
            let deadline_ms: u64 = now_ms.saturating_add(self.visibility_ms);
            match tracking.deliver(d.offset, d.lease_id, deadline_ms, now_ms) {
                Delivery::Refreshed => {
                    return PushAction::Keep;
                },
                Delivery::AlreadyAcked => {
                    return PushAction::Ack(self.job(d.lease_id, false));
                },
                Delivery::Push => {},
            }
        }
        let ghost view = d@;
        let items: Vec<Delivered> = vec![d];
        assert(delivered_views(items@) =~= seq![view]);
        PushAction::Push(resp_polled(items))
    }

    fn job(&self, lease_id: LeaseId, nack: bool) -> (r: AckJob)
        ensures
            acks_lease(r, *self, lease_id, nack),
    {
        AckJob { topic: self.topic.clone(), group: self.group.clone(), lease_id, nack }
    }

    /// Decides what is done with a frame of the consumer: an ack or nack ends the
    /// tracking of its message and goes on under the lease that holds the message now;
    /// anything else is passed over. The flag says that there is room for another
    /// message.
    pub fn on_frame(
        &self,
        tracking: &mut SubTracking,
        req: Option<Request>,
        now_ms: u64,
    ) -> (r: Option<(AckJob, bool)>)
        ensures
            match req {
                Some(Request::Ack(a)) if !self.auto_ack => {
                    let (after, lease) = old(tracking)@.resolve(
                        a.lease_id,
                        Some(capped((now_ms + ACK_GRACE_MS) as nat)),
                    );
                    &&& final(tracking)@ == after
                    &&& r matches Some((job, freed)) && freed == (lease is Some) && acks_lease(
                        job,
                        *self,
                        match lease {
                            Some(l) => l,
                            None => a.lease_id,
                        },
                        false,
                    )
                },
                Some(Request::Nack(a)) if !self.auto_ack => {
                    let (after, lease) = old(tracking)@.resolve(a.lease_id, None);
                    &&& final(tracking)@ == after
                    &&& r matches Some((job, freed)) && freed == (lease is Some) && acks_lease(
                        job,
                        *self,
                        match lease {
                            Some(l) => l,
                            None => a.lease_id,
                        },
                        true,
                    )
                },
                _ => r is None && final(tracking)@ == old(tracking)@,
            },
            !self.auto_ack && (req matches Some(Request::Ack(a)) && old(tracking)@.resolves(
                a.lease_id,
            )) ==> {
                let offset = old(tracking)@.lease_to_offset[req->Some_0->Ack_0.lease_id];
                &&& final(tracking)@.acked_recently.contains_key(offset)
                &&& final(tracking)@.acked_recently[offset] == capped((now_ms + 5_000) as nat)
            },
    {
        if self.auto_ack {
            return None;
        }
        let (lease_id, nack, until): (u64, bool, Option<u64>) = match req {
            Some(Request::Ack(a)) => (a.lease_id, false, Some(now_ms.saturating_add(ACK_GRACE_MS))),
            Some(Request::Nack(a)) => (a.lease_id, true, None),
            _ => {
                return None;
            },
        };
        match tracking.resolve(lease_id, until) {
            Some(held) => Some((self.job(held, nack), true)),
            None => Some((self.job(lease_id, nack), false)),
        }
    }
}

} // verus!
