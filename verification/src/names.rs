//! A map keyed by names, kept in the byte order of the names.
use vstd::prelude::*;
use vstd::utf8::encode_utf8;

verus! {

/// `a` and `b` agree below `i`, and at `i` it is decided that `a` comes first.
pub open spec fn splits_at(a: Seq<u8>, b: Seq<u8>, i: int) -> bool {
    &&& 0 <= i <= a.len()
    &&& i < b.len()
    &&& forall|j: int| 0 <= j < i ==> a[j] == b[j]
    &&& i < a.len() ==> a[i] < b[i]
}

/// The lexicographic order of byte strings.
pub open spec fn bytes_before(a: Seq<u8>, b: Seq<u8>) -> bool {
    exists|i: int| splits_at(a, b, i)
}

/// The order of names: that of their UTF-8 bytes.
pub open spec fn name_before(a: Seq<char>, b: Seq<char>) -> bool {
    bytes_before(encode_utf8(a), encode_utf8(b))
}

/// The order of names is transitive.
pub proof fn name_before_transitive(a: Seq<char>, b: Seq<char>, c: Seq<char>)
    requires
        name_before(a, b),
        name_before(b, c),
    ensures
        name_before(a, c),
{
    let (x, y, z) = (encode_utf8(a), encode_utf8(b), encode_utf8(c));
    let i = choose|i: int| splits_at(x, y, i);
    let j = choose|j: int| splits_at(y, z, j);
    assert(splits_at(x, z, if i < j { i } else { j }));
}

/// No name comes before itself.
pub proof fn name_before_irreflexive(a: Seq<char>)
    ensures
        !name_before(a, a),
{
}

proof fn lemma_same_bytes_same_name(a: Seq<char>, b: Seq<char>)
    requires
        encode_utf8(a) == encode_utf8(b),
    ensures
        a == b,
{
    vstd::utf8::encode_utf8_decode_utf8(a);
    vstd::utf8::encode_utf8_decode_utf8(b);
}

/// How one name stands to another.
#[derive(Debug, Clone, Copy, PartialEq, Eq)]
pub enum Rank {
    Before,
    Same,
    After,
}

/// Compares two names by their bytes.
pub fn rank(a: &str, b: &str) -> (r: Rank)
    ensures
        r is Before <==> name_before(a@, b@),
        r is Same <==> a@ == b@,
        r is After <==> name_before(b@, a@),
{
    let x = a.as_bytes();
    let y = b.as_bytes();
    let mut i: usize = 0;
    while i < x.len() && i < y.len()
        invariant
            x@ == encode_utf8(a@),
            y@ == encode_utf8(b@),
            i <= x.len(),
            i <= y.len(),
            forall|j: int| 0 <= j < i ==> x[j] == y[j],
        decreases x.len() - i,
    {
        if x[i] < y[i] {
            proof {
                lemma_first(a@, b@, i as int);
            }
            return Rank::Before;
        }
        if y[i] < x[i] {
            proof {
                lemma_first(b@, a@, i as int);
            }
            return Rank::After;
        }
        i += 1;
    }
    if i < y.len() {
        proof {
            lemma_first(a@, b@, i as int);
        }
        Rank::Before
    } else if i < x.len() {
        proof {
            lemma_first(b@, a@, i as int);
        }
        Rank::After
    } else {
        proof {
            assert(x@ =~= y@);
            lemma_same_bytes_same_name(a@, b@);
            name_before_irreflexive(a@);
        }
        Rank::Same
    }
}

proof fn lemma_first(a: Seq<char>, b: Seq<char>, i: int)
    requires
        splits_at(encode_utf8(a), encode_utf8(b), i),
    ensures
        name_before(a, b),
        !name_before(b, a),
        a != b,
{
    name_before_irreflexive(a);
    if name_before(b, a) {
        name_before_transitive(a, b, a);
    }
}

/// One name and what it stands for.
#[derive(Debug)]
pub struct NameEntry<V> {
    pub name: String,
    pub value: V,
}

/// A map from names to values that lists its entries in name order.
#[derive(Debug)]
pub struct NameMap<V> {
    entries: Vec<NameEntry<V>>,
}

proof fn lemma_inserted<V>(small: NameMap<V>, large: NameMap<V>, at: int, name: Seq<char>, value: V)
    requires
        small.wf(),
        large.wf(),
        0 <= at <= small.entries@.len(),
        large.entries@.len() == small.entries@.len() + 1,
        large.entries@[at].name@ == name,
        large.entries@[at].value == value,
        forall|i: int| 0 <= i < at ==> large.entries@[i] == #[trigger] small.entries@[i],
        forall|i: int|
            at <= i < small.entries@.len() ==> large.entries@[i + 1] == #[trigger] small.entries@[i],
    ensures
        large@ == small@.insert(name, value),
{
    large.lemma_at(at);
    assert forall|n: Seq<char>| #[trigger]
        large@.contains_key(n) implies small@.insert(name, value).contains_key(n) && large@[n]
        == small@.insert(name, value)[n] by {
        let k = large.names().index_of(n);
        assert(large.names()[k] == n);
        large.lemma_at(k);
        if k < at {
            assert(large.entries@[k] == small.entries@[k]);
            small.lemma_at(k);
            name_before_irreflexive(n);
            assert(name_before(large.entries@[k].name@, large.entries@[at].name@));
        } else if k > at {
            assert(large.entries@[k] == small.entries@[k - 1]);
            small.lemma_at(k - 1);
            name_before_irreflexive(n);
            assert(name_before(large.entries@[at].name@, large.entries@[k].name@));
        }
    }
    assert forall|n: Seq<char>| #[trigger]
        small@.contains_key(n) implies large@.contains_key(n) by {
        let k = small.names().index_of(n);
        assert(small.names()[k] == n);
        large.lemma_at(if k < at { k } else { k + 1 });
    }
    assert(large@ =~= small@.insert(name, value));
}

/// The keys of a sequence of entries.
pub open spec fn entry_names<V>(entries: Seq<NameEntry<V>>) -> Seq<Seq<char>> {
    Seq::new(entries.len(), |i: int| entries[i].name@)
}

impl<V> View for NameMap<V> {
    type V = Map<Seq<char>, V>;

    closed spec fn view(&self) -> Map<Seq<char>, V> {
        Map::new(
            |n: Seq<char>| self.names().contains(n),
            |n: Seq<char>| self.entries@[self.names().index_of(n)].value,
        )
    }
}

impl<V> NameMap<V> {
    /// The names of the map, in order.
    pub closed spec fn names(&self) -> Seq<Seq<char>> {
        entry_names(self.entries@)
    }

    /// The names are strictly increasing.
    pub closed spec fn wf(&self) -> bool {
        forall|i: int, j: int|
            0 <= i < j < self.entries@.len() ==> name_before(
                #[trigger] self.entries@[i].name@,
                #[trigger] self.entries@[j].name@,
            )
    }

    /// What the map holds at position `i` of its name order.
    proof fn lemma_at(&self, i: int)
        requires
            self.wf(),
            0 <= i < self.entries@.len(),
        ensures
            self@.contains_key(self.entries@[i].name@),
            self@[self.entries@[i].name@] == self.entries@[i].value,
            self.names().index_of(self.entries@[i].name@) == i,
    {
        let n = self.entries@[i].name@;
        assert(self.names()[i] == n);
        let k = self.names().index_of(n);
        assert(self.names()[k] == n);
        if k < i {
            name_before_irreflexive(n);
        }
        if i < k {
            name_before_irreflexive(n);
        }
    }

    /// The names of a well-formed map are its domain, in strictly increasing order.
    pub proof fn lemma_names(&self)
        requires
            self.wf(),
        ensures
            forall|i: int, j: int|
                0 <= i < j < self.names().len() ==> name_before(
                    #[trigger] self.names()[i],
                    #[trigger] self.names()[j],
                ),
            self.names().no_duplicates(),
            self.names().to_set() == self@.dom(),
            self@.dom().finite(),
            self@.len() == self.names().len(),
    {
        assert forall|i: int, j: int|
            0 <= i < self.names().len() && 0 <= j < self.names().len() && i
                != j implies self.names()[i] != self.names()[j] by {
            self.lemma_at(i);
            self.lemma_at(j);
        }
        assert forall|i: int, j: int| 0 <= i < j < self.names().len() implies name_before(
            #[trigger] self.names()[i],
            #[trigger] self.names()[j],
        ) by {
            assert(self.names()[i] == self.entries@[i].name@);
            assert(self.names()[j] == self.entries@[j].name@);
        }
        self.names().unique_seq_to_set();
        assert(self.names().to_set() =~= self@.dom());
    }

    /// The empty map.
    pub fn new() -> (r: Self)
        ensures
            r.wf(),
            r@ == Map::<Seq<char>, V>::empty(),
            r.names() == Seq::<Seq<char>>::empty(),
    {
        let r = NameMap { entries: Vec::new() };
        proof {
            assert(r.names() =~= Seq::<Seq<char>>::empty());
            assert(r@ =~= Map::<Seq<char>, V>::empty());
        }
        r
    }

    /// The number of names.
    pub fn len(&self) -> (r: usize)
        ensures
            r == self.names().len(),
    {
        self.entries.len()
    }

    /// The position of `name`, or the position at which it would be inserted.
    fn locate(&self, name: &str) -> (r: (bool, usize))
        requires
            self.wf(),
        ensures
            r.0 == self@.contains_key(name@),
            r.0 ==> r.1 < self.entries@.len() && self.entries@[r.1 as int].name@ == name@,
            !r.0 ==> {
                &&& r.1 <= self.entries@.len()
                &&& forall|i: int|
                    0 <= i < r.1 ==> name_before(#[trigger] self.entries@[i].name@, name@)
                &&& forall|i: int|
                    r.1 <= i < self.entries@.len() ==> name_before(
                        name@,
                        #[trigger] self.entries@[i].name@,
                    )
            },
    {
        let mut lo: usize = 0;
        let mut hi: usize = self.entries.len();
        while lo < hi
            invariant
                self.wf(),
                lo <= hi <= self.entries@.len(),
                forall|i: int|
                    0 <= i < lo ==> name_before(#[trigger] self.entries@[i].name@, name@),
                forall|i: int|
                    hi <= i < self.entries@.len() ==> name_before(
                        name@,
                        #[trigger] self.entries@[i].name@,
                    ),
            decreases hi - lo,
        {
            let mid: usize = lo + (hi - lo) / 2;
            match rank(self.entries[mid].name.as_str(), name) {
                Rank::Same => {
                    proof {
                        self.lemma_at(mid as int);
                    }
                    return (true, mid);
                },
                Rank::Before => {
                    proof {
                        assert forall|i: int| 0 <= i < mid + 1 implies name_before(
                            #[trigger] self.entries@[i].name@,
                            name@,
                        ) by {
                            if i < mid {
                                name_before_transitive(
                                    self.entries@[i].name@,
                                    self.entries@[mid as int].name@,
                                    name@,
                                );
                            }
                        }
                    }
                    lo = mid + 1;
                },
                Rank::After => {
                    proof {
                        assert forall|i: int|
                            mid <= i < self.entries@.len() implies name_before(
                            name@,
                            #[trigger] self.entries@[i].name@,
                        ) by {
                            if mid < i {
                                name_before_transitive(
                                    name@,
                                    self.entries@[mid as int].name@,
                                    self.entries@[i].name@,
                                );
                            }
                        }
                    }
                    hi = mid;
                },
            }
        }
        proof {
            if self@.contains_key(name@) {
                let k = self.names().index_of(name@);
                assert(self.names()[k] == self.entries@[k].name@);
                name_before_irreflexive(name@);
            }
        }
        (false, lo)
    }

    /// What `name` stands for.
    pub fn get(&self, name: &str) -> (r: Option<&V>)
        requires
            self.wf(),
        ensures
            match r {
                Some(v) => self@.contains_key(name@) && *v == self@[name@],
                None => !self@.contains_key(name@),
            },
    {
        let (found, at) = self.locate(name);
        if found {
            proof {
                self.lemma_at(at as int);
            }
            Some(&self.entries[at].value)
        } else {
            None
        }
    }

    /// Write access to what `name` stands for.
    pub fn get_mut(&mut self, name: &str) -> (r: Option<&mut V>)
        requires
            old(self).wf(),
        ensures
            final(self).wf(),
            final(self).names() == old(self).names(),
            match r {
                Some(v) => {
                    &&& old(self)@.contains_key(name@)
                    &&& *v == old(self)@[name@]
                    &&& final(self)@ == old(self)@.insert(name@, *final(v))
                },
                None => !old(self)@.contains_key(name@) && final(self)@ == old(self)@,
            },
    {
        let (found, at) = self.locate(name);
        if found {
            Some(self.value_at_mut(at))
        } else {
            None
        }
    }

    /// The name at position `i`.
    pub fn name_at(&self, i: usize) -> (r: &String)
        requires
            self.wf(),
            i < self.names().len(),
        ensures
            r@ == self.names()[i as int],
            self@.contains_key(r@),
    {
        proof {
            self.lemma_at(i as int);
        }
        &self.entries[i].name
    }

    /// The value at position `i`.
    pub fn value_at(&self, i: usize) -> (r: &V)
        requires
            self.wf(),
            i < self.names().len(),
        ensures
            self@.contains_key(self.names()[i as int]),
            *r == self@[self.names()[i as int]],
    {
        proof {
            self.lemma_at(i as int);
        }
        &self.entries[i].value
    }

    /// Write access to the value at position `i`.
    pub fn value_at_mut(&mut self, i: usize) -> (r: &mut V)
        requires
            old(self).wf(),
            i < old(self).names().len(),
        ensures
            *r == old(self)@[old(self).names()[i as int]],
            old(self)@.contains_key(old(self).names()[i as int]),
            final(self).wf(),
            final(self).names() == old(self).names(),
            final(self)@ == old(self)@.insert(old(self).names()[i as int], *final(r)),
    {
        proof {
            self.lemma_at(i as int);
        }
        let r = &mut self.entries[i].value;
        r
    }

    /// Lets `name` stand for `value`, whatever it stood for before.
    pub fn insert(&mut self, name: String, value: V)
        requires
            old(self).wf(),
        ensures
            final(self).wf(),
            final(self)@ == old(self)@.insert(name@, value),
    {
        let (found, at) = self.locate(name.as_str());
        if found {
            let v = self.value_at_mut(at);
            *v = value;
        } else {
            let ghost n = name@;
            self.entries.insert(at, NameEntry { name, value });
            proof {
                lemma_inserted(*old(self), *self, at as int, n, value);
            }
        }
    }

    /// Forgets `name` and returns what it stood for.
    pub fn remove(&mut self, name: &str) -> (r: Option<V>)
        requires
            old(self).wf(),
        ensures
            final(self).wf(),
            final(self)@ == old(self)@.remove(name@),
            match r {
                Some(v) => old(self)@.contains_key(name@) && v == old(self)@[name@],
                None => !old(self)@.contains_key(name@),
            },
    {
        let (found, at) = self.locate(name);
        if found {
            proof {
                self.lemma_at(at as int);
            }
            let e = self.entries.remove(at);
            proof {
                lemma_inserted(*self, *old(self), at as int, name@, e.value);
                name_before_irreflexive(name@);
                assert(!self@.contains_key(name@)) by {
                    if self@.contains_key(name@) {
                        let k = self.names().index_of(name@);
                        assert(self.names()[k] == name@);
                        assert(self.entries@[k].name@ == name@);
                        let o = if k < at { k } else { k + 1 };
                        assert(old(self).entries@[o] == self.entries@[k]);
                        assert(old(self).entries@[at as int].name@ == name@);
                    }
                }
                assert(self@ =~= old(self)@.remove(name@));
            }
            Some(e.value)
        } else {
            proof {
                assert(self@ =~= old(self)@.remove(name@));
            }
            None
        }
    }
}

} // verus!
