//! A map whose entries are held in the canonical key order, each key at most once.

use vstd::prelude::*;
use crate::canonical_order::{
    key_lt, key_order, lemma_key_lt_asymmetric, lemma_key_lt_irreflexive, lemma_key_lt_total,
    lemma_key_lt_transitive, KeyOrder,
};
use crate::identity::CanonicalKey;

verus! {

/// Whether the keys of `s` strictly increase in the canonical order.
pub open spec fn sorted_keys<K: CanonicalKey, V>(s: Seq<(K, V)>) -> bool {
    forall|i: int, j: int| 0 <= i < j < s.len() ==> key_lt(#[trigger] s[i].0.key(), #[trigger] s[j].0.key())
}

/// Whether some entry of `s` has key `k`.
pub open spec fn has_key<K: CanonicalKey, V>(s: Seq<(K, V)>, k: Seq<Seq<u8>>) -> bool {
    exists|i: int| 0 <= i < s.len() && #[trigger] s[i].0.key() == k
}

/// A map held as a key-sorted sequence of entries.
#[derive(Debug, PartialEq, Eq)]
pub struct CanonicalMap<K, V> {
    entries: Vec<(K, V)>,
}

impl<K, V> View for CanonicalMap<K, V> {
    type V = Seq<(K, V)>;

    closed spec fn view(&self) -> Seq<(K, V)> {
        self.entries@
    }
}

impl<K: Clone, V: Clone> Clone for CanonicalMap<K, V> {
    fn clone(&self) -> (r: Self) {
        CanonicalMap { entries: self.entries.clone() }
    }
}

/// Sorted keys are distinct.
pub proof fn lemma_sorted_keys_distinct<K: CanonicalKey, V>(s: Seq<(K, V)>, i: int, j: int)
    requires
        sorted_keys(s),
        0 <= i < s.len(),
        0 <= j < s.len(),
        i != j,
    ensures
        s[i].0.key() != s[j].0.key(),
{
    if i < j {
        lemma_key_lt_asymmetric(s[i].0.key(), s[j].0.key());
    } else {
        lemma_key_lt_asymmetric(s[j].0.key(), s[i].0.key());
    }
}

impl<K: CanonicalKey, V> CanonicalMap<K, V> {
    pub open spec fn wf(&self) -> bool {
        sorted_keys(self@)
    }

    /// The number of entries fits a `usize`.
    pub proof fn lemma_len_fits(&self)
        ensures
            self@.len() <= usize::MAX,
    {
        assert(self.entries@.len() == self.entries.len());
    }

    pub fn new() -> (r: Self)
        ensures
            r@ == Seq::<(K, V)>::empty(),
            r.wf(),
    {
        CanonicalMap { entries: Vec::new() }
    }

    pub fn len(&self) -> (r: usize)
        ensures
            r == self@.len(),
    {
        self.entries.len()
    }

    /// The entries in canonical key order.
    pub fn entries(&self) -> (r: &Vec<(K, V)>)
        ensures
            r@ == self@,
    {
        &self.entries
    }

    /// The position of the entry with key `key`, if any.
    pub fn position(&self, key: &K) -> (r: Option<usize>)
        ensures
            match r {
                Some(i) => i < self@.len() && self@[i as int].0.key() == key.key(),
                None => !has_key(self@, key.key()),
            },
    {
        let mut i: usize = 0;
        while i < self.entries.len()
            invariant
                0 <= i <= self@.len(),
                self@ == self.entries@,
                forall|j: int| 0 <= j < i ==> #[trigger] self@[j].0.key() != key.key(),
            decreases self@.len() - i,
        {
            match self.entries[i].0.order_key(key) {
                KeyOrder::Equal => {
                    return Some(i);
                },
                _ => {},
            }
            i = i + 1;
        }
        None
    }

    /// Whether an entry has key `key`.
    pub fn contains_key(&self, key: &K) -> (r: bool)
        ensures
            r == has_key(self@, key.key()),
    {
        match self.position(key) {
            Some(_) => true,
            None => false,
        }
    }

    /// The value stored under `key`, if any.
    pub fn get(&self, key: &K) -> (r: Option<&V>)
        ensures
            match r {
                Some(v) => exists|i: int|
                    0 <= i < self@.len() && #[trigger] self@[i].0.key() == key.key() && self@[i].1
                        == *v,
                None => !has_key(self@, key.key()),
            },
    {
        match self.position(key) {
            Some(i) => Some(&self.entries[i].1),
            None => None,
        }
    }

    /// Inserts `(key, value)` at its canonical position unless the key is already present,
    /// in which case the map is unchanged and `false` is returned.
    #[verifier::spinoff_prover]
    pub fn insert_new(&mut self, key: K, value: V) -> (r: bool)
        requires
            old(self).wf(),
        ensures
            final(self).wf(),
            r == !has_key(old(self)@, key.key()),
            !r ==> final(self)@ == old(self)@,
            r ==> exists|p: int|
                0 <= p <= old(self)@.len() && final(self)@ == old(self)@.insert(p, (key, value)),
    {
        if self.contains_key(&key) {
            return false;
        }
        let mut p: usize = 0;
        let mut placed = false;
        while p < self.entries.len() && !placed
            invariant
                0 <= p <= self@.len(),
                self@ == self.entries@,
                self@ == old(self)@,
                sorted_keys(self@),
                !has_key(self@, key.key()),
                placed ==> p < self@.len() && key_lt(key.key(), self@[p as int].0.key()),
                forall|j: int| 0 <= j < p ==> key_lt(#[trigger] self@[j].0.key(), key.key()),
            decreases self@.len() - p, if placed { 0int } else { 1int },
        {
            let o = key.order_key(&self.entries[p].0);
            match o {
                KeyOrder::Less => {
                    placed = true;
                },
                _ => {
                    proof {
                        assert(self@[p as int].0.key() != key.key());
                        lemma_key_lt_total(self@[p as int].0.key(), key.key());
                    }
                    p = p + 1;
                },
            }
        }
        let ghost old_s = self@;
        proof {
            if p < old_s.len() {
                assert(key_lt(key.key(), old_s[p as int].0.key()));
                assert forall|j: int| p <= j < old_s.len() implies key_lt(
                    key.key(),
                    #[trigger] old_s[j].0.key(),
                ) by {
                    if j > p {
                        lemma_key_lt_transitive(
                            key.key(),
                            old_s[p as int].0.key(),
                            old_s[j].0.key(),
                        );
                    }
                }
            }
        }
        self.entries.insert(p, (key, value));
        proof {
            let s = self@;
            let kk = s[p as int].0.key();
            assert(s == old_s.insert(p as int, s[p as int]));
            assert forall|i: int, j: int| 0 <= i < j < s.len() implies key_lt(
                #[trigger] s[i].0.key(),
                #[trigger] s[j].0.key(),
            ) by {
                if j < p {
                    assert(s[i] == old_s[i] && s[j] == old_s[j]);
                } else if j == p {
                    assert(s[i] == old_s[i]);
                } else if i < p {
                    assert(s[i] == old_s[i] && s[j] == old_s[j - 1]);
                    lemma_key_lt_transitive(s[i].0.key(), kk, s[j].0.key());
                } else if i == p {
                    assert(s[j] == old_s[j - 1]);
                } else {
                    assert(s[i] == old_s[i - 1] && s[j] == old_s[j - 1]);
                }
            }
        }
        true
    }

    /// A map of entries already in canonical key order.
    pub fn from_sorted(entries: Vec<(K, V)>) -> (r: Self)
        requires
            sorted_keys(entries@),
        ensures
            r@ == entries@,
            r.wf(),
    {
        CanonicalMap { entries }
    }

    /// Replaces the value at position `index`, keeping its key.
    pub fn replace_value(&mut self, index: usize, value: V)
        requires
            old(self).wf(),
            index < old(self)@.len(),
        ensures
            final(self).wf(),
            final(self)@.len() == old(self)@.len(),
            final(self)@[index as int].0 == old(self)@[index as int].0,
            final(self)@[index as int].1 == value,
            forall|j: int|
                0 <= j < old(self)@.len() && j != index ==> final(self)@[j] == old(self)@[j],
    {
        let ghost old_s = self@;
        let (k, _v) = self.entries.remove(index);
        self.entries.insert(index, (k, value));
        proof {
            let s = self@;
            assert forall|i: int, j: int| 0 <= i < j < s.len() implies key_lt(
                #[trigger] s[i].0.key(),
                #[trigger] s[j].0.key(),
            ) by {
                assert(s[i].0 == old_s[i].0);
                assert(s[j].0 == old_s[j].0);
            }
        }
    }
}

} // verus!
