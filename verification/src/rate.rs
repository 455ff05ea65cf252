//! Pacing of deliveries: a token bucket for every topic that has a rate.
use crate::names::NameMap;
use vstd::prelude::*;

verus! {

/// One token, in the units in which a bucket counts: a rate in thousandths of a
/// token per second, over one nanosecond, is one unit.
pub const TOKEN: u128 = 1_000_000_000_000;

/// The units that a rate of one thousandth of a token per second brings in a millisecond.
pub const UNITS_PER_MILLI: u128 = 1_000_000;

/// How long to wait where the rate is zero.
pub const RETRY_WITHOUT_RATE_MS: u64 = 1000;

/// The tokens of one topic.
#[derive(Debug, Clone, Copy)]
pub struct Bucket {
    pub credit: u128,
    pub last_ns: u64,
}

/// The smaller of two numbers.
pub open spec fn least(a: int, b: int) -> int {
    if a <= b {
        a
    } else {
        b
    }
}

/// What a bucket can hold: the burst, and one token at least.
pub open spec fn bucket_cap(burst: u32) -> int {
    TOKEN * (if burst == 0 {
        1int
    } else {
        burst as int
    })
}

/// A full bucket.
pub open spec fn full_bucket(burst: u32, now_ns: u64) -> Bucket {
    Bucket { credit: bucket_cap(burst) as u128, last_ns: now_ns }
}

/// The time since the bucket was last looked at.
pub open spec fn elapsed_ns(b: Bucket, now_ns: u64) -> int {
    if now_ns > b.last_ns {
        now_ns - b.last_ns
    } else {
        0
    }
}

/// The bucket after what has flowed in until `now_ns`.
pub open spec fn refilled(b: Bucket, rate_milli_per_sec: u64, burst: u32, now_ns: u64) -> Bucket {
    Bucket {
        credit: least(b.credit + elapsed_ns(b, now_ns) * rate_milli_per_sec, bucket_cap(burst)) as u128,
        last_ns: now_ns,
    }
}

/// The whole tokens in the bucket, up to `want`.
pub open spec fn tokens_for(b: Bucket, want: u32) -> int {
    least(b.credit as int / TOKEN as int, want as int)
}

/// How many milliseconds it takes until the bucket holds a whole token.
pub open spec fn retry_ms(b: Bucket, rate_milli_per_sec: u64) -> int {
    if rate_milli_per_sec == 0 {
        RETRY_WITHOUT_RATE_MS as int
    } else {
        let per_ms = rate_milli_per_sec * UNITS_PER_MILLI;
        (TOKEN - b.credit + per_ms - 1) / per_ms
    }
}

/// The buckets of the topics.
#[derive(Debug)]
pub struct RateLimiter {
    buckets: NameMap<Bucket>,
}

impl View for RateLimiter {
    type V = Map<Seq<char>, Bucket>;

    closed spec fn view(&self) -> Map<Seq<char>, Bucket> {
        self.buckets@
    }
}

/// The bucket of the topic, or a full one.
pub open spec fn bucket_of(
    buckets: Map<Seq<char>, Bucket>,
    topic: Seq<char>,
    burst: u32,
    now_ns: u64,
) -> Bucket {
    if buckets.contains_key(topic) {
        buckets[topic]
    } else {
        full_bucket(burst, now_ns)
    }
}

/// What a request for `want` tokens is answered, and the bucket afterwards.
pub open spec fn checked(
    b: Bucket,
    rate_milli_per_sec: u64,
    burst: u32,
    want: u32,
    now_ns: u64,
) -> (Bucket, Result<u32, u64>) {
    let r = refilled(b, rate_milli_per_sec, burst, now_ns);
    if want > 0 && r.credit < TOKEN {
        (r, Err(retry_ms(r, rate_milli_per_sec) as u64))
    } else {
        let n = tokens_for(r, want);
        (Bucket { credit: (r.credit - n * TOKEN) as u128, ..r }, Ok(n as u32))
    }
}

/// The bucket after `tokens` were given back; it holds no more than it can.
pub open spec fn refunded(b: Bucket, tokens: u32, burst: u32) -> Bucket {
    Bucket { credit: least(b.credit + tokens * TOKEN, bucket_cap(burst)) as u128, ..b }
}

impl Default for RateLimiter {
    fn default() -> (r: Self)
        ensures
            r.wf(),
            r@ == Map::<Seq<char>, Bucket>::empty(),
    {
        RateLimiter { buckets: NameMap::new() }
    }
}

fn cap_of(burst: u32) -> (r: u128)
    ensures
        r == bucket_cap(burst),
        TOKEN <= r <= TOKEN * u32::MAX,
{
    let n: u128 = if burst == 0 {
        1
    } else {
        burst as u128
    };
    assert(TOKEN <= TOKEN * n <= TOKEN * u32::MAX) by (nonlinear_arith)
        requires
            1 <= n <= u32::MAX,
            TOKEN == 1_000_000_000_000,
    ;
    assert(TOKEN * u32::MAX <= u128::MAX) by (nonlinear_arith)
        requires
            TOKEN == 1_000_000_000_000,
    ;
    TOKEN * n
}

/// Adds to a credit without going over the cap.
fn topped_up(credit: u128, gain: u128, cap: u128) -> (r: u128)
    ensures
        r == least(credit + gain, cap as int),
{
    if credit >= cap || gain >= cap - credit {
        cap
    } else {
        credit + gain
    }
}

impl RateLimiter {
    pub closed spec fn wf(&self) -> bool {
        self.buckets.wf()
    }

    /// Takes up to `want` tokens of the topic, or says after how many milliseconds
    /// there will be one.
    pub fn check(
        &mut self,
        topic: &str,
        rate_milli_per_sec: u64,
        burst: u32,
        want: u32,
        now_ns: u64,
    ) -> (r: Result<u32, u64>)
        requires
            old(self).wf(),
        ensures
            final(self).wf(),
            ({
                let (b, answer) = checked(
                    bucket_of(old(self)@, topic@, burst, now_ns),
                    rate_milli_per_sec,
                    burst,
                    want,
                    now_ns,
                );
                r == answer && final(self)@ == old(self)@.insert(topic@, b)
            }),
    {
        let cap: u128 = cap_of(burst);
        let b: Bucket = match self.buckets.get(topic) {
            Some(b) => *b,
            None => Bucket { credit: cap, last_ns: now_ns },
        };
        let elapsed: u64 = now_ns.saturating_sub(b.last_ns);
        assert(elapsed * rate_milli_per_sec <= u128::MAX) by (nonlinear_arith)
            requires
                0 <= elapsed <= u64::MAX,
                0 <= rate_milli_per_sec <= u64::MAX,
        ;
        let gain: u128 = elapsed as u128 * rate_milli_per_sec as u128;
        let credit: u128 = topped_up(b.credit, gain, cap);
        let ghost r = refilled(b, rate_milli_per_sec, burst, now_ns);
        assert(r.credit == credit);
        if want > 0 && credit < TOKEN {
            self.buckets.insert(topic.to_owned(), Bucket { credit, last_ns: now_ns });
            if rate_milli_per_sec == 0 {
                return Err(RETRY_WITHOUT_RATE_MS);
            }
            proof {
                lemma_retry_fits(r, rate_milli_per_sec);
            }
            let per_ms: u128 = rate_milli_per_sec as u128 * UNITS_PER_MILLI;
            let wait: u128 = (TOKEN - credit + (per_ms - 1)) / per_ms;
            return Err(wait as u64);
        }
        let whole: u128 = credit / TOKEN;
        let n: u32 = if whole <= want as u128 {
            whole as u32
        } else {
            want
        };
        proof {
            lemma_tokens_fit(credit as int, n as int);
        }
        let left: u128 = credit - n as u128 * TOKEN;
        self.buckets.insert(topic.to_owned(), Bucket { credit: left, last_ns: now_ns });
        Ok(n)
    }

    /// Gives tokens back that were not used.
    pub fn refund(&mut self, topic: &str, tokens: u32, burst: u32)
        requires
            old(self).wf(),
        ensures
            final(self).wf(),
            final(self)@ == if old(self)@.contains_key(topic@) {
                old(self)@.insert(topic@, refunded(old(self)@[topic@], tokens, burst))
            } else {
                old(self)@
            },
    {
        let cap: u128 = cap_of(burst);
        let b: Bucket = match self.buckets.get(topic) {
            Some(b) => *b,
            None => {
                return;
            },
        };
        assert(tokens * TOKEN <= u128::MAX) by (nonlinear_arith)
            requires
                0 <= tokens <= u32::MAX,
                TOKEN == 1_000_000_000_000,
        ;
        let credit: u128 = topped_up(b.credit, tokens as u128 * TOKEN, cap);
        self.buckets.insert(topic.to_owned(), Bucket { credit, last_ns: b.last_ns });
    }

    /// Forgets the topic: its next bucket is a full one.
    pub fn forget(&mut self, topic: &str)
        requires
            old(self).wf(),
        ensures
            final(self).wf(),
            final(self)@ == old(self)@.remove(topic@),
    {
        self.buckets.remove(topic);
    }
}

/// The wait for a token is a few minutes at most, and its computation fits.
pub proof fn lemma_retry_fits(b: Bucket, rate_milli_per_sec: u64)
    requires
        rate_milli_per_sec > 0,
        b.credit < TOKEN,
    ensures
        UNITS_PER_MILLI <= rate_milli_per_sec * UNITS_PER_MILLI <= u64::MAX * UNITS_PER_MILLI,
        0 < retry_ms(b, rate_milli_per_sec) <= 1_000_001,
{
    let per_ms = rate_milli_per_sec * UNITS_PER_MILLI;
    let need = TOKEN - b.credit + per_ms - 1;
    assert(UNITS_PER_MILLI <= per_ms <= u64::MAX * UNITS_PER_MILLI) by (nonlinear_arith)
        requires
            1 <= rate_milli_per_sec <= u64::MAX,
            UNITS_PER_MILLI == 1_000_000,
            per_ms == rate_milli_per_sec * UNITS_PER_MILLI,
    ;
    let q = need / per_ms;
    assert(q > 0 && q <= 1_000_001) by (nonlinear_arith)
        requires
            q == need / per_ms,
            per_ms >= 1_000_000,
            need >= per_ms,
            need <= 1_000_000_000_000 + per_ms - 1,
    ;
}

pub proof fn lemma_tokens_fit(credit: int, n: int)
    requires
        0 <= n <= credit / TOKEN as int,
        0 <= credit <= u128::MAX,
    ensures
        0 <= n * TOKEN <= credit,
{
    assert(n * TOKEN <= (credit / TOKEN as int) * TOKEN <= credit) by (nonlinear_arith)
        requires
            0 <= n <= credit / TOKEN as int,
            0 <= credit,
            TOKEN == 1_000_000_000_000,
    ;
}

/// A request takes no more from a bucket than it held and than has flowed in, and
/// leaves no more in it than it can hold.
pub proof fn tokens_are_not_made_up(
    b: Bucket,
    rate_milli_per_sec: u64,
    burst: u32,
    want: u32,
    now_ns: u64,
)
    ensures
        ({
            let (r, answer) = checked(b, rate_milli_per_sec, burst, want, now_ns);
            &&& r.credit <= bucket_cap(burst)
            &&& answer matches Ok(n) ==> n <= want && r.credit + n * TOKEN <= b.credit
                + elapsed_ns(b, now_ns) * rate_milli_per_sec
            &&& answer is Err ==> r.credit <= b.credit + elapsed_ns(b, now_ns)
                * rate_milli_per_sec
            &&& (want > 0 && answer is Ok) ==> answer->Ok_0 > 0
        }),
{
    lemma_cap(burst);
    let e = elapsed_ns(b, now_ns) * rate_milli_per_sec;
    assert(e >= 0) by (nonlinear_arith)
        requires
            e == elapsed_ns(b, now_ns) * rate_milli_per_sec,
            elapsed_ns(b, now_ns) >= 0,
            rate_milli_per_sec >= 0,
    ;
    let f = refilled(b, rate_milli_per_sec, burst, now_ns);
    assert(f.credit == least(b.credit + e, bucket_cap(burst)));
    if !(want > 0 && f.credit < TOKEN) {
        let n = tokens_for(f, want);
        assert(n >= 0) by {
            assert(f.credit as int / TOKEN as int >= 0);
        }
        lemma_tokens_fit(f.credit as int, n);
        assert(f.credit >= TOKEN ==> f.credit as int / TOKEN as int >= 1);
    }
}

pub proof fn lemma_cap(burst: u32)
    ensures
        TOKEN <= bucket_cap(burst) <= u128::MAX,
{
    let n = if burst == 0 {
        1int
    } else {
        burst as int
    };
    assert(TOKEN <= TOKEN * n <= TOKEN * u32::MAX) by (nonlinear_arith)
        requires
            1 <= n <= u32::MAX,
            TOKEN == 1_000_000_000_000,
    ;
    assert(TOKEN * u32::MAX <= u128::MAX) by (nonlinear_arith)
        requires
            TOKEN == 1_000_000_000_000,
    ;
}

/// What happens to a bucket: tokens are asked for, or tokens that were not used are
/// given back.
pub enum TokenMove {
    Take { want: u32, now_ns: u64 },
    Return { tokens: u32 },
}

/// The bucket after a move, and how many tokens the move has taken out of it.
pub open spec fn moved(b: Bucket, rate_milli_per_sec: u64, burst: u32, m: TokenMove) -> (
    Bucket,
    int,
) {
    match m {
        TokenMove::Take { want, now_ns } => {
            let (r, answer) = checked(b, rate_milli_per_sec, burst, want, now_ns);
            (
                r,
                match answer {
                    Ok(n) => n as int,
                    Err(_) => 0,
                },
            )
        },
        TokenMove::Return { tokens } => (refunded(b, tokens, burst), -(tokens as int)),
    }
}

/// The bucket after the moves, and how many tokens they have taken out of it and not
/// given back.
pub open spec fn moved_all(
    b: Bucket,
    rate_milli_per_sec: u64,
    burst: u32,
    moves: Seq<TokenMove>,
) -> (Bucket, int)
    decreases moves.len(),
{
    if moves.len() == 0 {
        (b, 0)
    } else {
        let (before, out) = moved_all(b, rate_milli_per_sec, burst, moves.drop_last());
        let (after, more) = moved(before, rate_milli_per_sec, burst, moves.last());
        (after, out + more)
    }
}

/// The clock does not go back from one request to the next.
pub open spec fn clock_ascends(
    b: Bucket,
    rate_milli_per_sec: u64,
    burst: u32,
    moves: Seq<TokenMove>,
) -> bool
    decreases moves.len(),
{
    moves.len() == 0 || {
        &&& clock_ascends(b, rate_milli_per_sec, burst, moves.drop_last())
        &&& moves.last() matches TokenMove::Take { now_ns, .. } ==> moved_all(
            b,
            rate_milli_per_sec,
            burst,
            moves.drop_last(),
        ).0.last_ns <= now_ns
    }
}

/// Over any time, a topic hands out no more messages than its bucket held and what its rate
/// brings in that time: so many tokens at most are taken and not given back. A bucket holds
/// no more than the burst.
pub proof fn deliveries_are_paced(
    b: Bucket,
    rate_milli_per_sec: u64,
    burst: u32,
    moves: Seq<TokenMove>,
)
    requires
        clock_ascends(b, rate_milli_per_sec, burst, moves),
    ensures
        ({
            let (r, out) = moved_all(b, rate_milli_per_sec, burst, moves);
            let flowed_in = (r.last_ns - b.last_ns) * rate_milli_per_sec;
            &&& b.last_ns <= r.last_ns
            &&& out * TOKEN + r.credit <= b.credit + flowed_in
            &&& b.credit <= bucket_cap(burst) ==> out * TOKEN + r.credit <= bucket_cap(burst)
                + flowed_in && r.credit <= bucket_cap(burst)
        }),
    decreases moves.len(),
{
    lemma_cap(burst);
    let rate = rate_milli_per_sec as int;
    if moves.len() == 0 {
        assert((b.last_ns - b.last_ns) * rate == 0) by (nonlinear_arith);
    } else {
        deliveries_are_paced(b, rate_milli_per_sec, burst, moves.drop_last());
        let (mid, out) = moved_all(b, rate_milli_per_sec, burst, moves.drop_last());
        let (r, more) = moved(mid, rate_milli_per_sec, burst, moves.last());
        assert((out + more) * TOKEN == out * TOKEN + more * TOKEN) by (nonlinear_arith);
        match moves.last() {
            TokenMove::Take { want, now_ns } => {
                tokens_are_not_made_up(mid, rate_milli_per_sec, burst, want, now_ns);
                assert((mid.last_ns - b.last_ns) * rate + (now_ns - mid.last_ns) * rate == (now_ns
                    - b.last_ns) * rate) by (nonlinear_arith);
            },
            TokenMove::Return { tokens } => {
                assert(more * TOKEN == -(tokens * TOKEN)) by (nonlinear_arith)
                    requires
                        more == -(tokens as int),
                ;
                assert(tokens * TOKEN >= 0) by (nonlinear_arith)
                    requires
                        tokens >= 0,
                        TOKEN == 1_000_000_000_000,
                ;
            },
        }
    }
}

/// How many tokens a full bucket holds.
pub open spec fn burst_tokens(burst: u32) -> int {
    if burst == 0 {
        1
    } else {
        burst as int
    }
}

/// Requests for one token each, all at one instant.
pub open spec fn takes_at_once(n: nat, now_ns: u64) -> Seq<TokenMove> {
    Seq::new(n, |i: int| TokenMove::Take { want: 1, now_ns })
}

/// Of the requests for one token that a full bucket gets at one instant, the first ones are
/// granted, as many as its burst, and the next one is turned away.
pub proof fn the_burst_is_granted_at_once(
    rate_milli_per_sec: u64,
    burst: u32,
    now_ns: u64,
    n: nat,
)
    requires
        n <= burst_tokens(burst),
    ensures
        ({
            let (b, out) = moved_all(
                full_bucket(burst, now_ns),
                rate_milli_per_sec,
                burst,
                takes_at_once(n, now_ns),
            );
            let answer = checked(b, rate_milli_per_sec, burst, 1, now_ns).1;
            &&& out == n
            &&& b.last_ns == now_ns
            &&& b.credit == bucket_cap(burst) - n * TOKEN
            &&& n < burst_tokens(burst) ==> answer == Ok::<u32, u64>(1)
            &&& n == burst_tokens(burst) ==> answer is Err
        }),
    decreases n,
{
    lemma_cap(burst);
    let start = full_bucket(burst, now_ns);
    let moves = takes_at_once(n, now_ns);
    let (b, out) = moved_all(start, rate_milli_per_sec, burst, moves);
    if n > 0 {
        let m = (n - 1) as nat;
        the_burst_is_granted_at_once(rate_milli_per_sec, burst, now_ns, m);
        assert(moves.drop_last() =~= takes_at_once(m, now_ns));
        let (a, _) = moved_all(start, rate_milli_per_sec, burst, takes_at_once(m, now_ns));
        lemma_no_time_passes(a, rate_milli_per_sec, burst, now_ns);
        lemma_one_token(a, burst, m as int);
    }
    assert(b.credit == bucket_cap(burst) - n * TOKEN);
    lemma_no_time_passes(b, rate_milli_per_sec, burst, now_ns);
    lemma_one_token(b, burst, n as int);
}

proof fn lemma_no_time_passes(b: Bucket, rate_milli_per_sec: u64, burst: u32, now_ns: u64)
    requires
        b.last_ns == now_ns,
        b.credit <= bucket_cap(burst),
    ensures
        refilled(b, rate_milli_per_sec, burst, now_ns) == b,
{
    assert(elapsed_ns(b, now_ns) * rate_milli_per_sec == 0) by (nonlinear_arith)
        requires
            elapsed_ns(b, now_ns) == 0,
    ;
}

/// What a full bucket holds after `n` of its tokens were taken.
proof fn lemma_one_token(b: Bucket, burst: u32, n: int)
    requires
        0 <= n <= burst_tokens(burst),
        b.credit == bucket_cap(burst) - n * TOKEN,
    ensures
        n < burst_tokens(burst) ==> b.credit >= TOKEN && tokens_for(b, 1) == 1,
        n == burst_tokens(burst) ==> b.credit == 0,
        b.credit <= bucket_cap(burst),
        b.credit - TOKEN == bucket_cap(burst) - (n + 1) * TOKEN,
{
    let k = burst_tokens(burst);
    assert(bucket_cap(burst) == TOKEN * k);
    assert(n < k ==> TOKEN * k - n * TOKEN >= TOKEN) by (nonlinear_arith)
        requires
            TOKEN == 1_000_000_000_000,
    ;
    assert(n == k ==> TOKEN * k - n * TOKEN == 0) by (nonlinear_arith);
    assert((n + 1) * TOKEN == n * TOKEN + TOKEN) by (nonlinear_arith);
    assert(n * TOKEN >= 0) by (nonlinear_arith)
        requires
            n >= 0,
            TOKEN == 1_000_000_000_000,
    ;
    if n < k {
        assert(b.credit as int / TOKEN as int >= 1);
    }
}

/// A request that was turned away is granted after the time it was told, and not a
/// whole millisecond earlier.
pub proof fn retry_after_is_exact(b: Bucket, rate_milli_per_sec: u64)
    requires
        rate_milli_per_sec > 0,
        b.credit < TOKEN,
    ensures
        ({
            let wait = retry_ms(b, rate_milli_per_sec);
            let per_ms = rate_milli_per_sec * UNITS_PER_MILLI;
            &&& b.credit + wait * per_ms >= TOKEN
            &&& b.credit + (wait - 1) * per_ms < TOKEN
        }),
{
    lemma_retry_fits(b, rate_milli_per_sec);
    let per_ms = rate_milli_per_sec * UNITS_PER_MILLI;
    let need = TOKEN - b.credit;
    let wait = (need + per_ms - 1) / per_ms;
    assert(wait * per_ms >= need && (wait - 1) * per_ms < need) by (nonlinear_arith)
        requires
            wait == (need + per_ms - 1) / per_ms,
            per_ms > 0,
            need > 0,
    ;
}

} // verus!
