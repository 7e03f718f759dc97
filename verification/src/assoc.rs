//! An insertion-ordered association list from 32-bit keys to values.
//!
//! Inserting an existing key replaces its value in place, so the entry order
//! is the order of first insertion.  The matcher ranks candidates with ties
//! broken by insertion order, so this determinism is part of the engine's
//! contract.

use vstd::prelude::*;

verus! {

/// A map from `u32` keys to values, ordered by first insertion.
pub struct OrderedMap<V> {
    pub entries: Vec<(u32, V)>,
}

/// Whether a key occurs in an entry sequence.
pub open spec fn seq_contains_key<V>(s: Seq<(u32, V)>, k: u32) -> bool {
    exists|i: int| 0 <= i < s.len() && (#[trigger] s[i]).0 == k
}

/// The index of the entry with key `k` (unique in a well-formed sequence).
pub open spec fn seq_index_of_key<V>(s: Seq<(u32, V)>, k: u32) -> int {
    choose|i: int| 0 <= i < s.len() && (#[trigger] s[i]).0 == k
}

/// The value stored under key `k`.
pub open spec fn seq_value_of<V>(s: Seq<(u32, V)>, k: u32) -> V {
    s[seq_index_of_key(s, k)].1
}

/// Entry keys are pairwise distinct.
pub open spec fn keys_unique<V>(s: Seq<(u32, V)>) -> bool {
    forall|i: int, j: int| 0 <= i < j < s.len() ==> (#[trigger] s[i]).0 != (#[trigger] s[j]).0
}

/// Insertion into an entry sequence: replaces the value in place when the
/// key is present, appends otherwise.
pub open spec fn seq_insert<V>(s: Seq<(u32, V)>, k: u32, v: V) -> Seq<(u32, V)> {
    if seq_contains_key(s, k) {
        s.update(seq_index_of_key(s, k), (k, v))
    } else {
        s.push((k, v))
    }
}

impl<V> View for OrderedMap<V> {
    type V = Seq<(u32, V)>;

    open spec fn view(&self) -> Seq<(u32, V)> {
        self.entries@
    }
}

impl<V> OrderedMap<V> {
    /// Well-formed: no key occurs twice.
    pub open spec fn wf(&self) -> bool {
        keys_unique(self@)
    }

    /// The empty map.
    pub fn new() -> (r: OrderedMap<V>)
        ensures
            r@ == Seq::<(u32, V)>::empty(),
            r.wf(),
    {
        OrderedMap { entries: Vec::new() }
    }

    /// Number of entries.
    pub fn len(&self) -> (r: usize)
        ensures
            r == self@.len(),
    {
        self.entries.len()
    }

    /// The position of key `k`, if it is present.
    pub fn index_of(&self, k: u32) -> (r: Option<usize>)
        requires
            self.wf(),
        ensures
            r matches Some(i) ==> 0 <= i < self@.len() && self@[i as int].0 == k && i as int
                == seq_index_of_key(self@, k) && seq_contains_key(self@, k),
            r is None ==> !seq_contains_key(self@, k),
    {
        let mut i: usize = 0;
        while i < self.entries.len()
            invariant
                self.wf(),
                i <= self@.len(),
                forall|j: int| 0 <= j < i as int ==> (#[trigger] self@[j]).0 != k,
            decreases self@.len() - i as int,
        {
            if self.entries[i].0 == k {
                proof {
                    let ci = seq_index_of_key(self@, k);
                    assert(0 <= ci < self@.len() && self@[ci].0 == k);
                }
                return Some(i);
            }
            i = i + 1;
        }
        None
    }

    /// Inserts `v` under `k`: replaces the value in place when the key is
    /// present, appends a new entry otherwise.
    pub fn insert(&mut self, k: u32, v: V)
        requires
            old(self).wf(),
        ensures
            final(self)@ == seq_insert(old(self)@, k, v),
            final(self).wf(),
    {
        let mut i: usize = 0;
        while i < self.entries.len()
            invariant
                self.wf(),
                self@ == old(self)@,
                i <= self@.len(),
                forall|j: int| 0 <= j < i as int ==> (#[trigger] self@[j]).0 != k,
            decreases self@.len() - i as int,
        {
            if self.entries[i].0 == k {
                proof {
                    let ci = seq_index_of_key(self@, k);
                    assert(0 <= ci < self@.len() && self@[ci].0 == k);
                    assert(ci == i as int);
                }
                self.entries.set(i, (k, v));
                return ;
            }
            i = i + 1;
        }
        self.entries.push((k, v));
        proof {
            assert(!seq_contains_key(old(self)@, k));
            assert forall|a: int, b: int| 0 <= a < b < self@.len() implies (#[trigger] self@[a]).0
                != (#[trigger] self@[b]).0 by {
                if b < self@.len() - 1 {
                    assert(old(self).wf());
                } else {
                    assert(self@[a] == old(self)@[a]);
                }
            }
        }
    }
}

/// What insertion does to each key: the inserted key maps to the new value,
/// every other key keeps its binding.
pub proof fn lemma_seq_insert_at<V>(s: Seq<(u32, V)>, k: u32, v: V, k2: u32)
    requires
        keys_unique(s),
    ensures
        keys_unique(seq_insert(s, k, v)),
        seq_contains_key(seq_insert(s, k, v), k2) == (k2 == k || seq_contains_key(s, k2)),
        k2 == k ==> seq_value_of(seq_insert(s, k, v), k2) == v,
        k2 != k && seq_contains_key(s, k2) ==> seq_value_of(seq_insert(s, k, v), k2)
            == seq_value_of(s, k2),
{
    let s2 = seq_insert(s, k, v);
    if seq_contains_key(s, k) {
        let i = seq_index_of_key(s, k);
        assert(0 <= i < s.len() && s[i].0 == k);
        assert forall|a: int, b: int| 0 <= a < b < s2.len() implies (#[trigger] s2[a]).0 != (
        #[trigger] s2[b]).0 by {
            assert(s2[a].0 == s[a].0 && s2[b].0 == s[b].0);
        }
        if k2 == k {
            assert(s2[i].0 == k2);
            assert(seq_contains_key(s2, k2));
            let i2 = seq_index_of_key(s2, k2);
            assert(s2[i2].0 == k2 && s[i2].0 == k2);
            if i2 != i {
                assert(false);
            }
        } else {
            if seq_contains_key(s, k2) {
                let i1 = seq_index_of_key(s, k2);
                assert(s2[i1].0 == k2);
                assert(seq_contains_key(s2, k2));
                let i2 = seq_index_of_key(s2, k2);
                assert(s2[i2].0 == k2 && s[i2].0 == k2);
                if i2 != i1 {
                    assert(false);
                }
                assert(i2 != i);
            }
            if seq_contains_key(s2, k2) {
                let i2 = seq_index_of_key(s2, k2);
                assert(s2[i2].0 == k2);
                assert(s[i2].0 == k2);
                assert(seq_contains_key(s, k2));
            }
        }
    } else {
        assert forall|a: int, b: int| 0 <= a < b < s2.len() implies (#[trigger] s2[a]).0 != (
        #[trigger] s2[b]).0 by {
            if b < s2.len() - 1 {
                assert(s2[a] == s[a] && s2[b] == s[b]);
            } else {
                assert(s2[a] == s[a]);
                if s[a].0 == k {
                    assert(seq_contains_key(s, k));
                }
            }
        }
        if k2 == k {
            assert(s2[s.len() as int].0 == k2);
            assert(seq_contains_key(s2, k2));
            let i2 = seq_index_of_key(s2, k2);
            assert(s2[i2].0 == k2);
            if i2 != s.len() {
                assert(s[i2].0 == k2);
                assert(false);
            }
        } else {
            if seq_contains_key(s, k2) {
                let i1 = seq_index_of_key(s, k2);
                assert(s2[i1].0 == k2);
                assert(seq_contains_key(s2, k2));
                let i2 = seq_index_of_key(s2, k2);
                assert(s2[i2].0 == k2);
                if i2 == s.len() {
                    assert(false);
                }
                assert(s[i2].0 == k2);
                if i2 != i1 {
                    assert(false);
                }
            }
            if seq_contains_key(s2, k2) {
                let i2 = seq_index_of_key(s2, k2);
                assert(s2[i2].0 == k2);
                if i2 == s.len() {
                    assert(false);
                }
                assert(s[i2].0 == k2);
                assert(seq_contains_key(s, k2));
            }
        }
    }
}

/// Copies a vector of plain values.
pub fn copy_vec<T: Copy>(v: &Vec<T>) -> (r: Vec<T>)
    ensures
        r@ == v@,
{
    let mut r: Vec<T> = Vec::new();
    let mut i: usize = 0;
    while i < v.len()
        invariant
            i <= v@.len(),
            r@ == v@.subrange(0, i as int),
        decreases v@.len() - i,
    {
        r.push(v[i]);
        proof {
            assert(r@ =~= v@.subrange(0, i as int + 1));
        }
        i = i + 1;
    }
    proof {
        assert(r@ =~= v@);
    }
    r
}

/// A sequence of vector-valued entries seen with each value as a sequence.
pub open spec fn nested_view<T>(s: Seq<(u32, Vec<T>)>) -> Seq<(u32, Seq<T>)> {
    Seq::new(s.len(), |i: int| (s[i].0, s[i].1@))
}

/// Keys and key positions agree between an entry sequence and its nested
/// view.
pub proof fn lemma_nested_view_keys<T>(s: Seq<(u32, Vec<T>)>, k: u32)
    ensures
        nested_view(s).len() == s.len(),
        seq_contains_key(nested_view(s), k) == seq_contains_key(s, k),
        keys_unique(s) && seq_contains_key(s, k) ==> seq_index_of_key(nested_view(s), k)
            == seq_index_of_key(s, k),
        keys_unique(s) ==> keys_unique(nested_view(s)),
{
    let nv = nested_view(s);
    if seq_contains_key(s, k) {
        let i = seq_index_of_key(s, k);
        assert(nv[i].0 == k);
        assert(seq_contains_key(nv, k));
    }
    if seq_contains_key(nv, k) {
        let i = seq_index_of_key(nv, k);
        assert(s[i].0 == k);
        assert(seq_contains_key(s, k));
    }
    if keys_unique(s) && seq_contains_key(s, k) {
        let a = seq_index_of_key(nv, k);
        let b = seq_index_of_key(s, k);
        assert(nv[a].0 == k && s[b].0 == k);
        if a != b {
            assert(s[a].0 == k);
            assert(false);
        }
    }
}

/// Insertion commutes with taking the nested view.
pub proof fn lemma_nested_view_insert<T>(s: Seq<(u32, Vec<T>)>, k: u32, v: Vec<T>)
    requires
        keys_unique(s),
    ensures
        nested_view(seq_insert(s, k, v)) == seq_insert(nested_view(s), k, v@),
{
    lemma_nested_view_keys(s, k);
    if seq_contains_key(s, k) {
        assert(nested_view(seq_insert(s, k, v)) =~~= seq_insert(nested_view(s), k, v@));
    } else {
        assert(nested_view(seq_insert(s, k, v)) =~~= seq_insert(nested_view(s), k, v@));
    }
}

} // verus!
