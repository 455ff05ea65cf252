//! Sums over the values of a map, and numbers that may not fit.
use vstd::prelude::*;

verus! {

/// The number, or the largest one that fits where it does not fit.
pub open spec fn capped(n: nat) -> u64 {
    if n <= u64::MAX {
        n as u64
    } else {
        u64::MAX
    }
}

/// The sum of `f` over the values of a finite map.
pub open spec fn total<V>(m: Map<Seq<char>, V>, f: spec_fn(V) -> nat) -> nat
    decreases m.dom().len(),
    when m.dom().finite()
{
    if m.dom().len() == 0 {
        0
    } else {
        let k = m.dom().choose();
        f(m[k]) + total(m.remove(k), f)
    }
}

/// Any key may be taken out of the sum first.
pub proof fn lemma_total_remove<V>(m: Map<Seq<char>, V>, f: spec_fn(V) -> nat, k: Seq<char>)
    requires
        m.dom().finite(),
        m.contains_key(k),
    ensures
        total(m, f) == f(m[k]) + total(m.remove(k), f),
    decreases m.dom().len(),
{
    assert(m.dom().contains(k));
    assert(m.dom().len() > 0);
    let c = m.dom().choose();
    assert(m.dom().contains(c));
    if c != k {
        lemma_total_remove(m.remove(c), f, k);
        lemma_total_remove(m.remove(k), f, c);
        assert(m.remove(c).remove(k) =~= m.remove(k).remove(c));
    }
}

/// The sum over the first `i` of the names of a map.
pub open spec fn total_of<V>(
    m: Map<Seq<char>, V>,
    f: spec_fn(V) -> nat,
    names: Seq<Seq<char>>,
    i: int,
) -> nat
    decreases i,
{
    if i <= 0 {
        0
    } else {
        total_of(m, f, names, i - 1) + f(m[names[i - 1]])
    }
}

/// Adding up a map name by name gives its total.
pub proof fn lemma_total_of<V>(m: Map<Seq<char>, V>, f: spec_fn(V) -> nat, names: Seq<Seq<char>>)
    requires
        names.no_duplicates(),
        names.to_set() == m.dom(),
    ensures
        m.dom().finite(),
        total_of(m, f, names, names.len() as int) == total(m, f),
    decreases names.len(),
{
    names.unique_seq_to_set();
    if names.len() > 0 {
        let front = names.drop_last();
        let last = names.last();
        let rest = m.remove(last);
        assert(names.to_set().contains(last));
        assert(front.to_set() =~= rest.dom()) by {
            assert forall|n: Seq<char>| rest.dom().contains(n) implies front.to_set().contains(
                n,
            ) by {
                assert(names.to_set().contains(n));
                let i = choose|i: int| 0 <= i < names.len() && names[i] == n;
                assert(front[i] == n);
            }
            assert forall|n: Seq<char>| front.to_set().contains(n) implies rest.dom().contains(
                n,
            ) by {
                let i = choose|i: int| 0 <= i < front.len() && front[i] == n;
                assert(names[i] == n);
                assert(names.to_set().contains(n));
            }
        }
        lemma_total_of(rest, f, front);
        lemma_total_of_same(m, rest, f, names, front, front.len() as int);
        lemma_total_remove(m, f, last);
    }
}

proof fn lemma_total_of_same<V>(
    a: Map<Seq<char>, V>,
    b: Map<Seq<char>, V>,
    f: spec_fn(V) -> nat,
    names: Seq<Seq<char>>,
    front: Seq<Seq<char>>,
    i: int,
)
    requires
        i <= front.len() <= names.len(),
        forall|j: int|
            0 <= j < front.len() ==> front[j] == #[trigger] names[j] && a[names[j]] == b[names[j]],
    ensures
        total_of(a, f, names, i) == total_of(b, f, front, i),
    decreases i,
{
    if i > 0 {
        lemma_total_of_same(a, b, f, names, front, i - 1);
        assert(front[i - 1] == names[i - 1]);
    }
}

} // verus!
