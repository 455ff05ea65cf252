//! Which messages a poll hands out, and in which order.
use crate::model::{
    by_rank, by_rank_from, choose_from, head_of, of_priority, reserved_slots, rest_of, Candidate,
    RESERVED_DEN,
};
use crate::seqs::{lemma_filter, lemma_filter_ordered, lemma_filter_push, lemma_filter_take};
use std::collections::BTreeSet;
use vstd::prelude::*;

verus! {

/// The candidate `a` is delivered before `b`: its priority is higher, or it is as
/// high and `a` is older.
pub open spec fn outranks(a: Candidate, b: Candidate) -> bool {
    a.priority > b.priority || (a.priority == b.priority && a.offset < b.offset)
}

/// Every candidate outranks those that come after it.
pub open spec fn in_delivery_order(c: Seq<Candidate>) -> bool {
    forall|i: int, j: int| 0 <= i < j < c.len() ==> outranks(#[trigger] c[i], #[trigger] c[j])
}

/// The candidates stand in the order of their offsets.
pub open spec fn oldest_first(c: Seq<Candidate>) -> bool {
    forall|i: int, j: int|
        0 <= i < j < c.len() ==> (#[trigger] c[i]).offset < (#[trigger] c[j]).offset
}

/// What is chosen from candidates that stand oldest first stands oldest first.
proof fn lemma_filter_oldest_first(c: Seq<Candidate>, p: spec_fn(Candidate) -> bool)
    requires
        oldest_first(c),
    ensures
        oldest_first(c.filter(p)),
{
    lemma_filter_ordered(c, p, |a: Candidate, b: Candidate| a.offset < b.offset);
    assert forall|i: int, j: int| 0 <= i < j < c.filter(p).len() implies (
    #[trigger] c.filter(p)[i]).offset < (#[trigger] c.filter(p)[j]).offset by {}
}

proof fn lemma_by_rank_from(c: Seq<Candidate>, p: int)
    requires
        p <= 255,
        oldest_first(c),
    ensures
        in_delivery_order(by_rank_from(c, p)),
        forall|x: Candidate| #[trigger]
            by_rank_from(c, p).contains(x) <==> c.contains(x) && x.priority <= p,
    decreases p + 1,
{
    if p >= 0 {
        lemma_by_rank_from(c, p - 1);
        let pred = |x: Candidate| x.priority as int == p;
        lemma_filter(c, pred);
        lemma_filter_oldest_first(c, pred);
        let top = of_priority(c, p);
        let low = by_rank_from(c, p - 1);
        let all = by_rank_from(c, p);
        assert forall|i: int, j: int| 0 <= i < j < all.len() implies outranks(
            #[trigger] all[i],
            #[trigger] all[j],
        ) by {
            if i < top.len() {
                assert(top.contains(top[i]));
            }
            if j < top.len() {
                assert(top.contains(top[j]));
            } else {
                assert(low.contains(low[j - top.len()]));
                if i >= top.len() {
                    assert(outranks(low[i - top.len()], low[j - top.len()]));
                }
            }
        }
        assert forall|x: Candidate| #[trigger] all.contains(x) <==> c.contains(x) && x.priority
            <= p by {
            if all.contains(x) {
                let i = choose|i: int| 0 <= i < all.len() && all[i] == x;
                if i < top.len() {
                    assert(top.contains(top[i]));
                } else {
                    assert(low.contains(low[i - top.len()]));
                }
            }
            if c.contains(x) && x.priority == p {
                assert(top.contains(x));
                let i = choose|i: int| 0 <= i < top.len() && top[i] == x;
                assert(all[i] == x);
            }
            if c.contains(x) && x.priority < p {
                assert(low.contains(x));
                let i = choose|i: int| 0 <= i < low.len() && low[i] == x;
                assert(all[top.len() + i] == x);
            }
        }
    }
}

proof fn lemma_by_rank_from_push(c: Seq<Candidate>, x: Candidate, p: int)
    requires
        p <= 255,
    ensures
        by_rank_from(c.push(x), p).len() == by_rank_from(c, p).len() + if x.priority <= p {
            1int
        } else {
            0
        },
    decreases p + 1,
{
    if p >= 0 {
        lemma_by_rank_from_push(c, x, p - 1);
        lemma_filter_push(c, |x: Candidate| x.priority as int == p, x);
    }
}

proof fn lemma_by_rank_from_empty(p: int)
    ensures
        by_rank_from(Seq::empty(), p) == Seq::<Candidate>::empty(),
    decreases p + 1,
{
    reveal(Seq::filter);
    if p >= 0 {
        lemma_by_rank_from_empty(p - 1);
        assert(by_rank_from(Seq::empty(), p) =~= Seq::<Candidate>::empty());
    }
}

proof fn lemma_by_rank_len(c: Seq<Candidate>)
    ensures
        by_rank(c).len() == c.len(),
    decreases c.len(),
{
    if c.len() == 0 {
        lemma_by_rank_from_empty(255);
        assert(c =~= Seq::empty());
    } else {
        lemma_by_rank_len(c.drop_last());
        lemma_by_rank_from_push(c.drop_last(), c.last(), 255);
        assert(c.drop_last().push(c.last()) =~= c);
    }
}

/// Ranking reorders the candidates: the result is in the order of delivery and
/// holds the same candidates.
pub proof fn lemma_by_rank(c: Seq<Candidate>)
    requires
        oldest_first(c),
    ensures
        in_delivery_order(by_rank(c)),
        by_rank(c).len() == c.len(),
        forall|x: Candidate| #[trigger] by_rank(c).contains(x) <==> c.contains(x),
{
    lemma_by_rank_from(c, 255);
    lemma_by_rank_len(c);
}

/// Sorts candidates that stand oldest first into the order of delivery.
pub fn rank_candidates(c: &Vec<Candidate>) -> (r: Vec<Candidate>)
    ensures
        r@ == by_rank(c@),
{
    let mut buckets: Vec<Vec<Candidate>> = Vec::new();
    let mut n: usize = 0;
    while n < 256
        invariant
            n <= 256,
            buckets@.len() == n,
            forall|p: int| 0 <= p < n ==> (#[trigger] buckets@[p])@ == Seq::<Candidate>::empty(),
        decreases 256 - n,
    {
        buckets.push(Vec::new());
        n += 1;
    }
    let mut i: usize = 0;
    proof {
        assert forall|p: int| 0 <= p < 256 implies (#[trigger] buckets@[p])@ == of_priority(
            c@.take(0),
            p,
        ) by {
            reveal(Seq::filter);
            assert(c@.take(0) =~= Seq::empty());
        }
    }
    while i < c.len()
        invariant
            i <= c.len(),
            buckets@.len() == 256,
            forall|p: int|
                0 <= p < 256 ==> (#[trigger] buckets@[p])@ == of_priority(c@.take(i as int), p),
        decreases c.len() - i,
    {
        let x = c[i];
        let at: usize = x.priority as usize;
        let ghost before = buckets@;
        buckets[at].push(x);
        proof {
            assert forall|p: int| 0 <= p < 256 implies (#[trigger] buckets@[p])@ == of_priority(
                c@.take(i + 1),
                p,
            ) by {
                assert(before[p]@ == of_priority(c@.take(i as int), p));
                lemma_filter_take(c@, |x: Candidate| x.priority as int == p, i as int);
            }
        }
        i += 1;
    }
    proof {
        assert(c@.take(i as int) =~= c@);
    }
    let mut r: Vec<Candidate> = Vec::new();
    let mut left: usize = 256;
    while left > 0
        invariant
            left <= 256,
            buckets@.len() == 256,
            forall|p: int| 0 <= p < 256 ==> (#[trigger] buckets@[p])@ == of_priority(c@, p),
            r@ + by_rank_from(c@, left - 1) == by_rank(c@),
        decreases left,
    {
        left -= 1;
        let ghost done = r@;
        r.extend_from_slice(buckets[left].as_slice());
        proof {
            assert(r@ =~= done + of_priority(c@, left as int));
            assert(r@ + by_rank_from(c@, left - 1) =~= done + by_rank_from(c@, left as int));
        }
    }
    proof {
        assert(r@ =~= r@ + by_rank_from(c@, -1));
    }
    r
}

/// Candidates that stand oldest first, or in the order of delivery, are distinct.
proof fn lemma_distinct(c: Seq<Candidate>)
    requires
        oldest_first(c) || in_delivery_order(c),
    ensures
        c.no_duplicates(),
{
    assert forall|i: int, j: int| 0 <= i < c.len() && 0 <= j < c.len() && i != j implies c[i]
        != c[j] by {
        if i < j {
            assert(c[i] != c[j]);
        } else {
            assert(c[j] != c[i]);
        }
    }
}

/// What a poll chooses: as many candidates as there are slots for, each of them
/// once and in the order of delivery; among them those that rank highest, up to
/// the number of slots that go by priority, and the oldest of the others.
pub proof fn lemma_choose_from(c: Seq<Candidate>, max: nat, poll_count: nat)
    requires
        oldest_first(c),
    ensures
        in_delivery_order(choose_from(c, max, poll_count)),
        choose_from(c, max, poll_count).len() == if c.len() < max {
            c.len()
        } else {
            max
        },
        forall|x: Candidate| #[trigger]
            choose_from(c, max, poll_count).contains(x) <==> head_of(c, max, poll_count).contains(x)
                || rest_of(c, head_of(c, max, poll_count), max).contains(x),
        forall|x: Candidate| #[trigger]
            choose_from(c, max, poll_count).contains(x) ==> c.contains(x),
{
    let head = head_of(c, max, poll_count);
    let rest = rest_of(c, head, max);
    let free = |x: Candidate| !head.contains(x);
    let chosen = |x: Candidate| head.contains(x) || rest.contains(x);
    let others = c.filter(free);
    let picks = c.filter(chosen);
    lemma_by_rank(c);
    lemma_filter(c, free);
    lemma_filter(c, chosen);
    lemma_filter_oldest_first(c, free);
    lemma_filter_oldest_first(c, chosen);
    lemma_by_rank(picks);
    lemma_distinct(c);
    lemma_distinct(by_rank(c));
    lemma_distinct(others);
    lemma_distinct(picks);
    assert forall|x: Candidate| head.contains(x) implies c.contains(x) by {
        let i = choose|i: int| 0 <= i < head.len() && head[i] == x;
        assert(by_rank(c)[i] == x);
        assert(by_rank(c).contains(x));
    }
    assert forall|x: Candidate| rest.contains(x) implies others.contains(x) by {
        let i = choose|i: int| 0 <= i < rest.len() && rest[i] == x;
        assert(others[i] == x);
    }
    assert(head.no_duplicates());
    assert(rest.no_duplicates());
    head.unique_seq_to_set();
    rest.unique_seq_to_set();
    others.unique_seq_to_set();
    picks.unique_seq_to_set();
    c.unique_seq_to_set();
    assert(others.to_set() =~= c.to_set().difference(head.to_set()));
    assert(head.to_set().subset_of(c.to_set()));
    vstd::set_lib::lemma_set_disjoint_lens(others.to_set(), head.to_set());
    assert(others.to_set() + head.to_set() =~= c.to_set());
    assert(others.len() + head.len() == c.len());
    assert(picks.to_set() =~= head.to_set() + rest.to_set());
    assert(head.to_set().disjoint(rest.to_set()));
    vstd::set_lib::lemma_set_disjoint_lens(head.to_set(), rest.to_set());
    assert(picks.len() == head.len() + rest.len());
}

/// Chooses the messages that a poll hands out, in the order of delivery.
pub fn choose_candidates(c: &Vec<Candidate>, max: u32, poll_count: u64) -> (r: Vec<Candidate>)
    requires
        oldest_first(c@),
        poll_count < u64::MAX,
    ensures
        r@ == choose_from(c@, max as nat, poll_count as nat),
{
    let slots: usize = max as usize;
    let bonus: usize = if (poll_count + 1) % RESERVED_DEN == 0 {
        1
    } else {
        0
    };
    let base: usize = slots / (RESERVED_DEN as usize);
    let reserved: usize = if base + bonus < slots {
        base + bonus
    } else {
        slots
    };
    let by_priority: usize = slots - reserved;
    let ranked = rank_candidates(c);
    let ghost head = head_of(c@, max as nat, poll_count as nat);
    let ghost free = |x: Candidate| !head.contains(x);
    proof {
        assert(reserved == reserved_slots(max as nat, poll_count as nat));
        lemma_by_rank(c@);
    }
    let mut chosen: BTreeSet<u64> = BTreeSet::new();
    let mut taken: usize = 0;
    while taken < ranked.len() && taken < by_priority
        invariant
            taken <= ranked.len(),
            taken <= by_priority,
            forall|o: u64| #[trigger]
                chosen@.contains(o) <==> exists|k: int|
                    0 <= k < taken && (#[trigger] ranked@[k]).offset == o,
        decreases ranked.len() - taken,
    {
        let ghost before = chosen@;
        let x = ranked[taken];
        chosen.insert(x.offset);
        proof {
            assert forall|o: u64| #[trigger] chosen@.contains(o) <==> exists|k: int|
                0 <= k < taken + 1 && (#[trigger] ranked@[k]).offset == o by {
                if o == x.offset {
                    assert(ranked@[taken as int].offset == o);
                } else if before.contains(o) {
                    let k = choose|k: int| 0 <= k < taken && (#[trigger] ranked@[k]).offset == o;
                    assert(ranked@[k].offset == o);
                }
            }
        }
        taken += 1;
    }
    let ghost first = taken;
    proof {
        assert(head =~= ranked@.take(first as int));
        assert forall|x: Candidate| c@.contains(x) implies (chosen@.contains(x.offset)
            <==> #[trigger] head.contains(x)) by {
            lemma_chosen_head(c@, ranked@, head, x);
            if chosen@.contains(x.offset) {
                let k = choose|k: int|
                    0 <= k < first && (#[trigger] ranked@[k]).offset == x.offset;
                assert(head[k] == ranked@[k]);
            }
            if head.contains(x) {
                let k = choose|k: int| 0 <= k < head.len() && head[k] == x;
                assert(ranked@[k].offset == x.offset);
            }
        }
    }
    let mut i: usize = 0;
    proof {
        assert(c@.take(0).filter(free) =~= Seq::empty()) by {
            reveal(Seq::filter);
        }
    }
    let ghost heads = chosen@;
    while i < c.len() && taken < slots
        invariant
            oldest_first(c@),
            free == (|x: Candidate| !head.contains(x)),
            i <= c.len(),
            taken <= slots,
            head.len() == first,
            taken == first + c@.take(i as int).filter(free).len(),
            forall|x: Candidate|
                c@.contains(x) ==> (heads.contains(x.offset) <==> #[trigger] head.contains(x)),
            forall|x: Candidate|
                c@.contains(x) ==> (#[trigger] chosen@.contains(x.offset) <==> head.contains(x)
                    || c@.take(i as int).filter(free).contains(x)),
        decreases c.len() - i,
    {
        let x = c[i];
        let ghost seen = c@.take(i as int).filter(free);
        let ghost before = chosen@;
        let fresh: bool = chosen.insert(x.offset);
        proof {
            lemma_filter(c@.take(i as int), free);
            lemma_filter_take(c@, free, i as int);
            assert(c@.contains(x));
            assert(!seen.contains(x)) by {
                if seen.contains(x) {
                    let k = choose|k: int| 0 <= k < i && c@.take(i as int)[k] == x;
                    assert(c@[k] == x);
                }
            }
            assert(fresh == free(x));
            let now = c@.take(i + 1).filter(free);
            assert forall|y: Candidate| c@.contains(y) implies (#[trigger] chosen@.contains(y.offset)
                <==> head.contains(y) || now.contains(y)) by {
                let k = choose|k: int| 0 <= k < c@.len() && c@[k] == y;
                assert(y.offset == x.offset ==> y == x);
                if fresh {
                    assert(now == seen.push(x));
                    assert(now.contains(y) <==> seen.contains(y) || y == x) by {
                        if seen.contains(y) {
                            let m = choose|m: int| 0 <= m < seen.len() && seen[m] == y;
                            assert(now[m] == y);
                        }
                        assert(now[seen.len() as int] == x);
                    }
                }
            }
        }
        if fresh {
            taken += 1;
        }
        i += 1;
    }
    let ghost rest = rest_of(c@, head, max as nat);
    let ghost pick = |x: Candidate| head.contains(x) || rest.contains(x);
    proof {
        let seen = c@.take(i as int).filter(free);
        assert(c@ =~= c@.take(i as int) + c@.skip(i as int));
        Seq::filter_distributes_over_add(c@.take(i as int), c@.skip(i as int), free);
        assert(c@.filter(free) == seen + c@.skip(i as int).filter(free));
        if i == c.len() {
            assert(c@.take(i as int) =~= c@);
            assert(rest =~= seen);
        } else {
            assert(taken == slots);
            assert(c@.filter(free).take(seen.len() as int) =~= seen);
            assert(rest =~= seen);
        }
    }
    let mut picks: Vec<Candidate> = Vec::new();
    let mut j: usize = 0;
    proof {
        assert(c@.take(0).filter(pick) =~= Seq::empty()) by {
            reveal(Seq::filter);
        }
    }
    while j < c.len()
        invariant
            j <= c.len(),
            pick == (|x: Candidate| head.contains(x) || rest.contains(x)),
            picks@ == c@.take(j as int).filter(pick),
            forall|x: Candidate|
                c@.contains(x) ==> (#[trigger] chosen@.contains(x.offset) <==> head.contains(x)
                    || rest.contains(x)),
        decreases c.len() - j,
    {
        let x = c[j];
        proof {
            lemma_filter_take(c@, pick, j as int);
            assert(c@.contains(x));
        }
        if chosen.contains(&x.offset) {
            picks.push(x);
        }
        j += 1;
    }
    proof {
        assert(c@.take(j as int) =~= c@);
    }
    rank_candidates(&picks)
}

/// A candidate that has the offset of one in the head is in the head.
proof fn lemma_chosen_head(
    c: Seq<Candidate>,
    ranked: Seq<Candidate>,
    head: Seq<Candidate>,
    x: Candidate,
)
    requires
        oldest_first(c),
        forall|y: Candidate| #[trigger] ranked.contains(y) <==> c.contains(y),
        c.contains(x),
        head.len() <= ranked.len(),
        head == ranked.take(head.len() as int),
    ensures
        forall|k: int|
            0 <= k < head.len() && (#[trigger] head[k]).offset == x.offset ==> head[k] == x,
{
    assert forall|k: int| 0 <= k < head.len() && (#[trigger] head[k]).offset
        == x.offset implies head[k] == x by {
        assert(ranked[k] == head[k]);
        assert(ranked.contains(head[k]));
        let a = choose|a: int| 0 <= a < c.len() && c[a] == head[k];
        let b = choose|b: int| 0 <= b < c.len() && c[b] == x;
        if a < b {
            assert(c[a].offset < c[b].offset);
        }
        if b < a {
            assert(c[b].offset < c[a].offset);
        }
    }
}

} // verus!
