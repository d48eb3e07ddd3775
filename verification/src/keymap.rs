//! A map with text keys, kept in the order of its keys.

use vstd::prelude::*;

use crate::text::{
    compare_text, lemma_text_lt_irreflexive, lemma_text_lt_transitive, text_lt,
    Order,
};

verus! {

/// A value of which a copy with the same contents can be made.
pub trait Duplicate: View + Sized {
    fn duplicate(&self) -> (r: Self)
        ensures
            r@ == self@,
    ;
}

impl Duplicate for u32 {
    fn duplicate(&self) -> (r: Self) {
        *self
    }
}

impl Duplicate for u64 {
    fn duplicate(&self) -> (r: Self) {
        *self
    }
}

impl Duplicate for Vec<u8> {
    fn duplicate(&self) -> (r: Self) {
        vstd::slice::slice_to_vec(self.as_slice())
    }
}

/// Values under text keys, in the order of the keys. A key occurs once.
#[derive(Debug)]
pub struct KeyMap<V> {
    keys: Vec<String>,
    values: Vec<V>,
}

/// The contents of the strings in `v`.
pub open spec fn texts(v: Seq<String>) -> Seq<Seq<char>> {
    v.map_values(|s: String| s@)
}

/// Whether `ks` is strictly increasing in the order of strings.
pub open spec fn increasing(ks: Seq<Seq<char>>) -> bool {
    forall|i: int, j: int| 0 <= i < j < ks.len() ==> text_lt(#[trigger] ks[i], #[trigger] ks[j])
}

impl<V> KeyMap<V> {
    #[verifier::type_invariant]
    spec fn wf(self) -> bool {
        &&& self.keys@.len() == self.values@.len()
        &&& increasing(texts(self.keys@))
    }
}

impl<V: View> KeyMap<V> {
    /// The keys, in order.
    pub closed spec fn order(&self) -> Seq<Seq<char>> {
        texts(self.keys@)
    }

    /// The value at position `i` of the order.
    pub closed spec fn nth(&self, i: int) -> V {
        self.values@[i]
    }
}

impl<V: View> View for KeyMap<V> {
    type V = Map<Seq<char>, V::V>;

    open spec fn view(&self) -> Map<Seq<char>, V::V> {
        Map::new(
            |k: Seq<char>| self.order().contains(k),
            |k: Seq<char>| self.nth(self.order().index_of(k))@,
        )
    }
}

proof fn lemma_index_of(ks: Seq<Seq<char>>, i: int)
    requires
        increasing(ks),
        0 <= i < ks.len(),
    ensures
        ks.contains(ks[i]),
        ks.index_of(ks[i]) == i,
{
    let j = ks.index_of(ks[i]);
    assert(0 <= j < ks.len() && ks[j] == ks[i]);
    lemma_text_lt_irreflexive(ks[i]);
    if j < i {
        assert(text_lt(ks[j], ks[i]));
    } else if i < j {
        assert(text_lt(ks[i], ks[j]));
    }
}

impl<V: View> KeyMap<V> {
    /// An empty map.
    pub fn new() -> (r: Self)
        ensures
            r@ == Map::<Seq<char>, V::V>::empty(),
            r.order() == Seq::<Seq<char>>::empty(),
    {
        let r = KeyMap { keys: Vec::new(), values: Vec::new() };
        assert(r.order() =~= Seq::<Seq<char>>::empty());
        assert(r@ =~= Map::<Seq<char>, V::V>::empty());
        r
    }

    /// How many keys there are. The order lists each key of the contents once,
    /// increasing.
    pub fn len(&self) -> (n: usize)
        ensures
            n == self.order().len(),
            increasing(self.order()),
            forall|i: int|
                0 <= i < self.order().len() ==> self@.contains_key(#[trigger] self.order()[i])
                    && self@[self.order()[i]] == self.nth(i)@,
            forall|k: Seq<char>| self@.contains_key(k) ==> self.order().contains(k),
    {
        proof {
            use_type_invariant(self);
            assert forall|i: int| 0 <= i < self.order().len() implies self@.contains_key(
                #[trigger] self.order()[i],
            ) && self@[self.order()[i]] == self.nth(i)@ by {
                lemma_index_of(self.order(), i);
            }
        }
        self.keys.len()
    }

    /// The key at position `i` of the order.
    pub fn key(&self, i: usize) -> (k: &String)
        requires
            i < self.order().len(),
        ensures
            k@ == self.order()[i as int],
    {
        &self.keys[i]
    }

    /// The value at position `i` of the order.
    pub fn value(&self, i: usize) -> (v: &V)
        requires
            i < self.order().len(),
        ensures
            *v == self.nth(i as int),
    {
        proof {
            use_type_invariant(self);
        }
        &self.values[i]
    }

    /// Where `key` stands in the order, or would stand.
    fn position(&self, key: &str) -> (r: (usize, bool))
        ensures
            r.0 <= self.order().len(),
            r.1 ==> r.0 < self.order().len() && self.order()[r.0 as int] == key@,
            !r.1 ==> !self.order().contains(key@) && (forall|j: int|
                r.0 <= j < self.order().len() ==> text_lt(key@, #[trigger] self.order()[j])),
            forall|j: int| 0 <= j < r.0 ==> text_lt(#[trigger] self.order()[j], key@),
    {
        proof {
            use_type_invariant(self);
        }
        let mut i: usize = 0;
        while i < self.keys.len()
            invariant
                i <= self.keys@.len(),
                increasing(self.order()),
                self.order() == texts(self.keys@),
                forall|j: int| 0 <= j < i ==> text_lt(#[trigger] self.order()[j], key@),
            decreases self.keys@.len() - i,
        {
            match compare_text(self.keys[i].as_str(), key) {
                Order::Before => {
                    assert(self.order()[i as int] == self.keys@[i as int]@);
                },
                Order::Same => {
                    return (i, true);
                },
                Order::After => {
                    proof {
                        assert(self.order()[i as int] == self.keys@[i as int]@);
                        assert forall|j: int| i <= j < self.order().len() implies text_lt(
                            key@,
                            #[trigger] self.order()[j],
                        ) by {
                            if j > i {
                                lemma_text_lt_transitive(
                                    key@,
                                    self.order()[i as int],
                                    self.order()[j],
                                );
                            }
                        }
                        lemma_text_lt_irreflexive(key@);
                    }
                    return (i, false);
                },
            }
            i += 1;
        }
        proof {
            lemma_text_lt_irreflexive(key@);
        }
        (i, false)
    }

    /// The value under `key`.
    pub fn get(&self, key: &str) -> (r: Option<&V>)
        ensures
            match r {
                Some(v) => self@.contains_key(key@) && self@[key@] == v@,
                None => !self@.contains_key(key@),
            },
    {
        let (i, found) = self.position(key);
        proof {
            use_type_invariant(self);
        }
        if found {
            proof {
                lemma_index_of(self.order(), i as int);
            }
            Some(&self.values[i])
        } else {
            None
        }
    }

    /// Puts `value` under `key`, in place of the value there, if any.
    pub fn insert(&mut self, key: String, value: V)
        ensures
            final(self)@ == old(self)@.insert(key@, value@),
    {
        let (i, found) = self.position(key.as_str());
        proof {
            use_type_invariant(&*self);
        }
        let ghost ks = self.order();
        let ghost vs = self.values@;
        let ghost k = key@;
        let mut fresh: KeyMap<V> = KeyMap { keys: Vec::new(), values: Vec::new() };
        std::mem::swap(self, &mut fresh);
        let KeyMap { keys: mut keys, values: mut values } = fresh;
        if found {
            values.set(i, value);
            *self = KeyMap { keys, values };
            proof {
                lemma_index_of(ks, i as int);
                assert(self.order() == ks);
                assert forall|q: Seq<char>| ks.contains(q) && q != k implies ks.index_of(q) != i by {
                    assert(ks[ks.index_of(q)] == q);
                }
                assert(self@ =~= old(self)@.insert(k, value@));
            }
        } else {
            keys.insert(i, key);
            values.insert(i, value);
            let ghost next = texts(keys@);
            proof {
                assert(next =~= ks.insert(i as int, k));
                assert forall|a: int, b: int| 0 <= a < b < next.len() implies text_lt(
                    #[trigger] next[a],
                    #[trigger] next[b],
                ) by {
                    let a0 = if a < i { a } else { a - 1 };
                    let b0 = if b < i { b } else { b - 1 };
                    if a != i {
                        assert(next[a] == ks[a0]);
                    }
                    if b != i {
                        assert(next[b] == ks[b0]);
                    }
                }
            }
            *self = KeyMap { keys, values };
            proof {
                assert forall|q: Seq<char>| next.contains(q) == (ks.contains(q) || q == k) by {
                    if ks.contains(q) {
                        let x = ks.index_of(q);
                        assert(ks[x] == q);
                        let y = if x < i { x } else { x + 1 };
                        assert(next[y] == q);
                    }
                    if q == k {
                        assert(next[i as int] == q);
                    }
                    if next.contains(q) && q != k {
                        let y = next.index_of(q);
                        assert(next[y] == q);
                        let x = if y < i { y } else { y - 1 };
                        assert(ks[x] == q);
                    }
                }
                assert forall|q: Seq<char>| next.contains(q) implies #[trigger] self@[q]
                    == old(self)@.insert(k, value@)[q] by {
                    if q == k {
                        assert(next[i as int] == k);
                        lemma_index_of(next, i as int);
                    } else {
                        let x = ks.index_of(q);
                        assert(ks.contains(q));
                        assert(ks[x] == q);
                        let y = if x < i { x } else { x + 1 };
                        assert(next[y] == q);
                        lemma_index_of(next, y);
                    }
                }
                assert(self@ =~= old(self)@.insert(k, value@));
            }
        }
    }
}

impl<V: Duplicate> KeyMap<V> {
    /// A copy with the same contents.
    pub fn duplicate_map(&self) -> (r: Self)
        ensures
            r@ == self@,
            r.order() == self.order(),
    {
        proof {
            use_type_invariant(self);
        }
        let mut keys: Vec<String> = Vec::new();
        let mut values: Vec<V> = Vec::new();
        let mut i: usize = 0;
        while i < self.keys.len()
            invariant
                i <= self.keys@.len(),
                self.keys@.len() == self.values@.len(),
                keys@ == self.keys@.take(i as int),
                values@.len() == i,
                forall|j: int| 0 <= j < i ==> (#[trigger] values@[j])@ == self.values@[j]@,
            decreases self.keys@.len() - i,
        {
            keys.push(self.keys[i].clone());
            values.push(self.values[i].duplicate());
            i += 1;
            assert(keys@ =~= self.keys@.take(i as int));
        }
        assert(keys@ =~= self.keys@);
        let r = KeyMap { keys, values };
        assert(r@ =~= self@);
        r
    }
}

/// A value that can be compared with another for equal contents.
pub trait Same: View + Sized {
    fn same(&self, other: &Self) -> (r: bool)
        ensures
            r == (self@ == other@),
    ;
}

impl<V: Same> KeyMap<V> {
    /// Whether two maps have the same contents.
    pub fn same_map(&self, other: &Self) -> (r: bool)
        ensures
            r == (self@ == other@),
    {
        let n: usize = self.len();
        let m: usize = other.len();
        let mut i: usize = 0;
        while i < n
            invariant
                i <= n,
                n == self.order().len(),
                forall|j: int|
                    0 <= j < self.order().len() ==> self@.contains_key(#[trigger] self.order()[j])
                        && self@[self.order()[j]] == self.nth(j)@,
                forall|j: int|
                    0 <= j < i ==> other@.contains_key(#[trigger] self.order()[j])
                        && other@[self.order()[j]] == self@[self.order()[j]],
            decreases n - i,
        {
            match other.get(self.key(i).as_str()) {
                None => {
                    return false;
                },
                Some(v) => {
                    if !self.value(i).same(v) {
                        return false;
                    }
                },
            }
            i += 1;
        }
        let mut k: usize = 0;
        while k < m
            invariant
                k <= m,
                m == other.order().len(),
                forall|j: int|
                    0 <= j < other.order().len() ==> other@.contains_key(
                        #[trigger] other.order()[j],
                    ),
                forall|j: int| 0 <= j < k ==> self@.contains_key(#[trigger] other.order()[j]),
            decreases m - k,
        {
            if self.get(other.key(k).as_str()).is_none() {
                return false;
            }
            k += 1;
        }
        proof {
            assert forall|q: Seq<char>| self@.contains_key(q) implies other@.contains_key(q)
                && other@[q] == self@[q] by {
                assert(self.order()[self.order().index_of(q)] == q);
            }
            assert forall|q: Seq<char>| other@.contains_key(q) implies self@.contains_key(q) by {
                assert(other.order()[other.order().index_of(q)] == q);
            }
            assert(self@ =~= other@);
        }
        true
    }
}

} // verus!
