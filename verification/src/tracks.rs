//! Maps keyed by track id, and their ascending order.

use std::collections::BTreeMap;

use vstd::prelude::*;

verus! {

/// Whether `s` is strictly ascending.
pub open spec fn ascending(s: Seq<u32>) -> bool {
    forall|i: int, j: int| 0 <= i < j < s.len() ==> #[trigger] s[i] < #[trigger] s[j]
}

/// Whether `s` lists the ids in `ids`, ascending.
pub open spec fn lists(s: Seq<u32>, ids: Set<u32>) -> bool {
    ascending(s) && forall|k: u32| #[trigger] s.contains(k) == ids.contains(k)
}

/// The ids in `ids`, ascending.
pub open spec fn sorted(ids: Set<u32>) -> Seq<u32> {
    choose|s: Seq<u32>| lists(s, ids)
}

/// A set of ids is listed ascending in one way only.
pub proof fn lemma_lists_unique(a: Seq<u32>, b: Seq<u32>, ids: Set<u32>)
    requires
        lists(a, ids),
        lists(b, ids),
    ensures
        a == b,
    decreases a.len(),
{
    if a.len() == 0 {
        if b.len() > 0 {
            assert(b.contains(b[0]));
            assert(a.contains(b[0]));
        }
        assert(a =~= b);
    } else {
        assert(a.contains(a.last()));
        assert(b.contains(a.last()));
        assert(b.contains(b.last()));
        assert(a.contains(b.last()));
        let i = b.index_of(a.last());
        assert(b[i] == a.last());
        let j = a.index_of(b.last());
        assert(a[j] == b.last());
        assert(a.last() == b.last());
        let x = a.last();
        let rest = ids.remove(x);
        assert forall|k: u32| #[trigger] a.drop_last().contains(k) == rest.contains(k) by {
            lemma_drop_last_contains(a, k);
        }
        assert forall|k: u32| #[trigger] b.drop_last().contains(k) == rest.contains(k) by {
            lemma_drop_last_contains(b, k);
        }
        lemma_lists_unique(a.drop_last(), b.drop_last(), rest);
        assert(a =~= a.drop_last().push(x));
        assert(b =~= b.drop_last().push(x));
    }
}

proof fn lemma_drop_last_contains(s: Seq<u32>, k: u32)
    requires
        ascending(s),
        s.len() > 0,
    ensures
        s.drop_last().contains(k) == (s.contains(k) && k != s.last()),
{
    if s.drop_last().contains(k) {
        let i = s.drop_last().index_of(k);
        assert(s[i] == k);
        assert(s[i] < s[s.len() - 1]);
    }
    if s.contains(k) && k != s.last() {
        let i = s.index_of(k);
        assert(s.drop_last()[i] == k);
    }
}

/// `sorted` lists its set where anything does.
pub proof fn lemma_sorted(s: Seq<u32>, ids: Set<u32>)
    requires
        lists(s, ids),
    ensures
        sorted(ids) == s,
{
    lemma_lists_unique(s, sorted(ids), ids);
}

/// Puts `k` into its place in `v`.
pub fn insert_sorted(v: &mut Vec<u32>, k: u32)
    requires
        ascending(old(v)@),
    ensures
        ascending(final(v)@),
        forall|q: u32| #[trigger] final(v)@.contains(q) == (old(v)@.contains(q) || q == k),
{
    let ghost s = v@;
    let mut i: usize = 0;
    while i < v.len() && v[i] < k
        invariant
            v@ == s,
            i <= s.len(),
            ascending(s),
            forall|j: int| 0 <= j < i ==> #[trigger] s[j] < k,
        decreases s.len() - i,
    {
        i += 1;
    }
    if i < v.len() && v[i] == k {
        assert(s.contains(k)) by {
            assert(s[i as int] == k);
        }
        return;
    }
    v.insert(i, k);
    proof {
        let t = v@;
        assert(t == s.insert(i as int, k));
        assert forall|q: u32| #[trigger] t.contains(q) == (s.contains(q) || q == k) by {
            if s.contains(q) {
                let x = s.index_of(q);
                let y = if x < i { x } else { x + 1 };
                assert(t[y] == q);
            }
            assert(t[i as int] == k);
            if t.contains(q) && q != k {
                let y = t.index_of(q);
                let x = if y < i { y } else { y - 1 };
                assert(s[x] == q);
            }
        }
        assert forall|a: int, b: int| 0 <= a < b < t.len() implies #[trigger] t[a]
            < #[trigger] t[b] by {
            let a0 = if a < i { a } else { a - 1 };
            let b0 = if b < i { b } else { b - 1 };
            if a != i {
                assert(t[a] == s[a0]);
            }
            if b != i {
                assert(t[b] == s[b0]);
            }
            if i < s.len() {
                assert(s[i as int] > k);
                if b0 > i {
                    assert(s[i as int] < s[b0]);
                }
            }
        }
    }
}

/// The keys of `m`, ascending.
pub fn keys_of<V>(m: &BTreeMap<u32, V>) -> (r: Vec<u32>)
    ensures
        lists(r@, m@.dom()),
        r@ == sorted(m@.dom()),
{
    let mut out: Vec<u32> = Vec::new();
    for kv in it: m.iter()
        invariant
            ascending(out@),
            forall|i: int| 0 <= i < it.index() ==> out@.contains(*(#[trigger] it.seq()[i]).0),
            forall|k: u32| #[trigger] out@.contains(k) ==> m@.contains_key(k),
            forall|i: int| 0 <= i < it.seq().len() ==> m@.contains_key(*(#[trigger] it.seq()[i]).0),
            forall|k: u32| #[trigger] m@.contains_key(k) ==> it.seq().contains((&k, &m@[k])),
    {
        insert_sorted(&mut out, *kv.0);
    }
    proof {
        assert forall|k: u32| #[trigger] out@.contains(k) == m@.dom().contains(k) by {
            if m@.contains_key(k) {
                assert(out@.contains(k));
            }
        }
        lemma_sorted(out@, m@.dom());
    }
    out
}

} // verus!
