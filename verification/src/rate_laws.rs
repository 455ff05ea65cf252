//! What the queue promises of pacing: how much flows into a bucket, and where it goes. The
//! credit of one token is a million million: a rate in thousandths of a token per second
//! brings so many units in a nanosecond.
use crate::polling::{after_refund, held_tokens, paced};
use crate::rate::{
    bucket_cap, bucket_of, checked, elapsed_ns, full_bucket, lemma_cap, lemma_retry_fits,
    lemma_tokens_fit, moved, moved_all, refilled, refunded, retry_after_is_exact, tokens_for,
    Bucket, TokenMove, TOKEN,
};
use vstd::prelude::*;

verus! {

/// How many tokens an answer grants.
pub open spec fn granted(answer: Result<u32, u64>) -> int {
    match answer {
        Ok(n) => n as int,
        Err(_) => 0,
    }
}

/// The credit of a full bucket: that of the burst, and of one token at least.
pub open spec fn burst_credit(burst: u32) -> int {
    if burst > 1 {
        burst * 1_000_000_000_000
    } else {
        1_000_000_000_000
    }
}

/// How many of `want` tokens a full bucket grants: a burst, and one token at least.
pub open spec fn within_burst(want: u32, burst: u32) -> u32 {
    let tokens = if burst > 1 {
        burst
    } else {
        1
    };
    if want < tokens {
        want
    } else {
        tokens
    }
}

/// What is in a bucket at `now_ns`, before anything is taken: what was in it and what the
/// rate has brought since, but no more than a full bucket. A clock that goes back brings
/// nothing.
pub open spec fn due(b: Bucket, rate_milli_per_sec: u64, burst: u32, now_ns: u64) -> int {
    let has = if now_ns >= b.last_ns {
        b.credit + (now_ns - b.last_ns) * rate_milli_per_sec
    } else {
        b.credit as int
    };
    if has <= burst_credit(burst) {
        has
    } else {
        burst_credit(burst)
    }
}

proof fn lemma_due(b: Bucket, rate_milli_per_sec: u64, burst: u32, now_ns: u64)
    ensures
        burst_credit(burst) == bucket_cap(burst),
        refilled(b, rate_milli_per_sec, burst, now_ns).credit == due(
            b,
            rate_milli_per_sec,
            burst,
            now_ns,
        ),
        0 <= due(b, rate_milli_per_sec, burst, now_ns) <= burst_credit(burst),
{
    lemma_cap(burst);
    assert(TOKEN * 1int == 1_000_000_000_000);
    assert(TOKEN * (burst as int) == burst * 1_000_000_000_000);
    let e = elapsed_ns(b, now_ns) * rate_milli_per_sec;
    assert(e >= 0) by (nonlinear_arith)
        requires
            e == elapsed_ns(b, now_ns) * rate_milli_per_sec,
            elapsed_ns(b, now_ns) >= 0,
            rate_milli_per_sec >= 0,
    ;
    if now_ns <= b.last_ns {
        assert(e == 0) by (nonlinear_arith)
            requires
                e == elapsed_ns(b, now_ns) * rate_milli_per_sec,
                elapsed_ns(b, now_ns) == 0,
        ;
        if now_ns == b.last_ns {
            assert((now_ns - b.last_ns) * rate_milli_per_sec == 0) by (nonlinear_arith)
                requires
                    now_ns - b.last_ns == 0,
            ;
        }
    }
}

/// Nothing that flows in is lost but what a full bucket cannot hold: what a request is
/// granted and what it leaves in the bucket are, together, exactly what was due. It is
/// granted as many tokens as it asks for and as are there, and it is turned away only where
/// there is not one.
pub proof fn what_flows_in_is_granted_or_kept(
    b: Bucket,
    rate_milli_per_sec: u64,
    burst: u32,
    want: u32,
    now_ns: u64,
)
    ensures
        ({
            let (r, answer) = checked(b, rate_milli_per_sec, burst, want, now_ns);
            let has = due(b, rate_milli_per_sec, burst, now_ns);
            &&& granted(answer) * 1_000_000_000_000 + r.credit == has
            &&& r.last_ns == now_ns
            &&& granted(answer) <= want
            &&& granted(answer) < want ==> r.credit < 1_000_000_000_000
            &&& answer is Err <==> want > 0 && has < 1_000_000_000_000
        }),
{
    lemma_due(b, rate_milli_per_sec, burst, now_ns);
    let f = refilled(b, rate_milli_per_sec, burst, now_ns);
    lemma_cap(burst);
    if !(want > 0 && f.credit < TOKEN) {
        let n = tokens_for(f, want);
        assert(f.credit as int / TOKEN as int >= 0);
        lemma_tokens_fit(f.credit as int, n);
        assert(n * TOKEN == n * 1_000_000_000_000);
        if n < want {
            assert(n == f.credit as int / TOKEN as int);
            assert(f.credit - (f.credit as int / 1_000_000_000_000) * 1_000_000_000_000
                < 1_000_000_000_000);
        }
    } else {
        assert(0int * 1_000_000_000_000 == 0);
    }
}

/// A bucket that is left alone long enough is full again, and grants a whole burst.
pub proof fn a_bucket_left_alone_is_full_again(
    b: Bucket,
    rate_milli_per_sec: u64,
    burst: u32,
    want: u32,
    now_ns: u64,
)
    requires
        now_ns >= b.last_ns,
        (now_ns - b.last_ns) * rate_milli_per_sec >= burst_credit(burst),
    ensures
        checked(b, rate_milli_per_sec, burst, want, now_ns).1 == Ok::<u32, u64>(
            within_burst(want, burst),
        ),
{
    lemma_whole_burst(b, rate_milli_per_sec, burst, want, now_ns);
}

proof fn lemma_whole_burst(
    b: Bucket,
    rate_milli_per_sec: u64,
    burst: u32,
    want: u32,
    now_ns: u64,
)
    requires
        due(b, rate_milli_per_sec, burst, now_ns) == burst_credit(burst),
    ensures
        checked(b, rate_milli_per_sec, burst, want, now_ns).1 == Ok::<u32, u64>(
            within_burst(want, burst),
        ),
{
    what_flows_in_is_granted_or_kept(b, rate_milli_per_sec, burst, want, now_ns);
    let (r, answer) = checked(b, rate_milli_per_sec, burst, want, now_ns);
    let tokens: int = if burst > 1 {
        burst as int
    } else {
        1
    };
    let n = granted(answer);
    assert(n * 1_000_000_000_000 + r.credit == tokens * 1_000_000_000_000);
    assert(n <= tokens);
    assert(n < tokens ==> r.credit >= 1_000_000_000_000);
}

/// The first request of a topic finds a full bucket: it is granted a whole burst.
pub proof fn a_new_topic_has_its_burst(
    buckets: Map<Seq<char>, Bucket>,
    topic: Seq<char>,
    rate_milli_per_sec: u64,
    burst: u32,
    want: u32,
    now_ns: u64,
)
    requires
        !buckets.contains_key(topic),
    ensures
        paced(buckets, Some((rate_milli_per_sec, burst)), topic, want, now_ns).1 == Ok::<u32, u64>(
            within_burst(want, burst),
        ),
{
    let b = full_bucket(burst, now_ns);
    lemma_due(b, rate_milli_per_sec, burst, now_ns);
    lemma_cap(burst);
    assert((now_ns - b.last_ns) * rate_milli_per_sec == 0) by (nonlinear_arith)
        requires
            now_ns - b.last_ns == 0,
    ;
    lemma_whole_burst(b, rate_milli_per_sec, burst, want, now_ns);
}

/// The requests find room in the bucket for all that the rate has brought since the one
/// before, and the clock does not go back.
pub open spec fn nothing_overflows(
    b: Bucket,
    rate_milli_per_sec: u64,
    burst: u32,
    moves: Seq<TokenMove>,
) -> bool
    decreases moves.len(),
{
    moves.len() == 0 || {
        let before = moved_all(b, rate_milli_per_sec, burst, moves.drop_last()).0;
        &&& nothing_overflows(b, rate_milli_per_sec, burst, moves.drop_last())
        &&& match moves.last() {
            TokenMove::Take { now_ns, .. } => before.last_ns <= now_ns && before.credit + (now_ns
                - before.last_ns) * rate_milli_per_sec <= burst_credit(burst),
            TokenMove::Return { tokens } => before.credit + tokens * 1_000_000_000_000
                <= burst_credit(burst),
        }
    }
}

/// A topic with a backlog drains at its rate: while the bucket does not run over, the tokens
/// that were taken and not given back, and what is left in the bucket, are together what was
/// in it and what the rate has brought. Where the last request asked for more than it got,
/// less than one token is left over.
pub proof fn a_backlog_drains_at_its_rate(
    b: Bucket,
    rate_milli_per_sec: u64,
    burst: u32,
    moves: Seq<TokenMove>,
)
    requires
        nothing_overflows(b, rate_milli_per_sec, burst, moves),
    ensures
        ({
            let (r, out) = moved_all(b, rate_milli_per_sec, burst, moves);
            &&& b.last_ns <= r.last_ns
            &&& out * 1_000_000_000_000 + r.credit == b.credit + (r.last_ns - b.last_ns)
                * rate_milli_per_sec
            &&& moves.len() > 0 && (moves.last() matches TokenMove::Take { want, .. } && out
                - moved_all(b, rate_milli_per_sec, burst, moves.drop_last()).1 < want)
                ==> out * 1_000_000_000_000 > b.credit + (r.last_ns - b.last_ns)
                * rate_milli_per_sec - 1_000_000_000_000
        }),
    decreases moves.len(),
{
    let rate = rate_milli_per_sec as int;
    if moves.len() == 0 {
        assert((b.last_ns - b.last_ns) * rate == 0) by (nonlinear_arith);
    } else {
        a_backlog_drains_at_its_rate(b, rate_milli_per_sec, burst, moves.drop_last());
        let (mid, out) = moved_all(b, rate_milli_per_sec, burst, moves.drop_last());
        let (r, more) = moved(mid, rate_milli_per_sec, burst, moves.last());
        match moves.last() {
            TokenMove::Take { want, now_ns } => {
                what_flows_in_is_granted_or_kept(mid, rate_milli_per_sec, burst, want, now_ns);
                assert((mid.last_ns - b.last_ns) * rate + (now_ns - mid.last_ns) * rate == (now_ns
                    - b.last_ns) * rate) by (nonlinear_arith);
            },
            TokenMove::Return { tokens } => {
                lemma_due(mid, rate_milli_per_sec, burst, mid.last_ns);
                lemma_cap(burst);
                assert(tokens * TOKEN == tokens * 1_000_000_000_000);
            },
        }
    }
}

/// Tokens that are given back are in the bucket again, as far as it can hold them; no time
/// passes by it.
pub proof fn returned_tokens_are_there_again(b: Bucket, tokens: u32, burst: u32)
    ensures
        ({
            let r = refunded(b, tokens, burst);
            let has = b.credit + tokens * 1_000_000_000_000;
            &&& r.last_ns == b.last_ns
            &&& has <= burst_credit(burst) ==> r.credit == has
            &&& has > burst_credit(burst) ==> r.credit == burst_credit(burst)
        }),
{
    lemma_due(b, 0, burst, b.last_ns);
    lemma_cap(burst);
    assert(tokens * TOKEN == tokens * 1_000_000_000_000);
}

/// A topic is charged for the messages that come out, and for no other: once the unused
/// tokens of a request are given back, its bucket holds what was due less one token for each
/// message. A topic without a rate is not held up and not charged, and no topic is charged
/// for another.
pub proof fn only_what_comes_out_is_charged(
    buckets: Map<Seq<char>, Bucket>,
    rate: Option<(u64, u32)>,
    topic: Seq<char>,
    want: u32,
    now_ns: u64,
    used: nat,
)
    requires
        used <= granted(paced(buckets, rate, topic, want, now_ns).1),
    ensures
        ({
            let (after, answer) = paced(buckets, rate, topic, want, now_ns);
            let r = after_refund(after, topic, held_tokens(rate, answer), used);
            &&& rate is None ==> answer == Ok::<u32, u64>(want) && r == buckets
            &&& rate matches Some((rate_milli, burst)) ==> {
                &&& r.contains_key(topic)
                &&& used * 1_000_000_000_000 + r[topic].credit == due(
                    bucket_of(buckets, topic, burst, now_ns),
                    rate_milli,
                    burst,
                    now_ns,
                )
                &&& r[topic].last_ns == now_ns
            }
            &&& forall|other: Seq<char>|
                other != topic ==> r.contains_key(other) == #[trigger] buckets.contains_key(other)
                    && r[other] == buckets[other]
        }),
{
    let (after, answer) = paced(buckets, rate, topic, want, now_ns);
    match rate {
        None => {},
        Some((rate_milli, burst)) => {
            let b = bucket_of(buckets, topic, burst, now_ns);
            what_flows_in_is_granted_or_kept(b, rate_milli, burst, want, now_ns);
            lemma_due(b, rate_milli, burst, now_ns);
            let n = granted(answer);
            if used < n {
                returned_tokens_are_there_again(after[topic], (n - used) as u32, burst);
            }
        },
    }
}

/// A request that is turned away is told how many milliseconds to wait: so long later it is
/// granted a token, and while a millisecond less has not yet passed it is turned away again.
pub proof fn the_told_wait_is_as_long_as_it_must_be(
    b: Bucket,
    rate_milli_per_sec: u64,
    burst: u32,
    want: u32,
    now_ns: u64,
    want_again: u32,
    later_ns: u64,
)
    requires
        rate_milli_per_sec > 0,
        want_again > 0,
        now_ns <= later_ns,
        checked(b, rate_milli_per_sec, burst, want, now_ns).1 is Err,
    ensures
        ({
            let (r, answer) = checked(b, rate_milli_per_sec, burst, want, now_ns);
            let wait = answer->Err_0;
            let again = checked(r, rate_milli_per_sec, burst, want_again, later_ns).1;
            &&& later_ns - now_ns >= wait * 1_000_000 ==> granted(again) > 0
            &&& later_ns - now_ns <= (wait - 1) * 1_000_000 ==> again is Err
        }),
{
    let (r, answer) = checked(b, rate_milli_per_sec, burst, want, now_ns);
    what_flows_in_is_granted_or_kept(b, rate_milli_per_sec, burst, want, now_ns);
    lemma_due(b, rate_milli_per_sec, burst, now_ns);
    retry_after_is_exact(r, rate_milli_per_sec);
    lemma_retry_fits(r, rate_milli_per_sec);
    let wait = answer->Err_0 as int;
    let rate = rate_milli_per_sec as int;
    let gap = later_ns - now_ns;
    what_flows_in_is_granted_or_kept(r, rate_milli_per_sec, burst, want_again, later_ns);
    lemma_due(r, rate_milli_per_sec, burst, later_ns);
    let per_ms = rate_milli_per_sec * 1_000_000;
    if gap >= wait * 1_000_000 {
        assert(gap * rate >= wait * per_ms) by (nonlinear_arith)
            requires
                gap >= wait * 1_000_000,
                per_ms == rate * 1_000_000,
                rate > 0,
        ;
    }
    if gap <= (wait - 1) * 1_000_000 {
        assert(gap * rate <= (wait - 1) * per_ms) by (nonlinear_arith)
            requires
                gap <= (wait - 1) * 1_000_000,
                per_ms == rate * 1_000_000,
                rate > 0,
        ;
    }
}

/// Where the rate is zero, the wait that is told is a second.
pub proof fn without_a_rate_the_wait_is_a_second(b: Bucket, burst: u32, want: u32, now_ns: u64)
    requires
        want > 0,
        due(b, 0, burst, now_ns) < 1_000_000_000_000,
    ensures
        checked(b, 0, burst, want, now_ns).1 == Err::<u32, u64>(1000),
{
    lemma_due(b, 0, burst, now_ns);
}

} // verus!
