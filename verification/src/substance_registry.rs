//! The modelled substances, sparse per-substance amounts and initial compartment stocks.

use vstd::prelude::*;
use crate::artifact_builder::canonical_order_of;
use crate::canonical_map::{has_key, CanonicalMap};
use crate::identity::{CanonicalKey, CompartmentId, Ident, SubstanceId};
use crate::topology::Topology;

verus! {

/// Whether some identity of `ids` equals `id`.
pub open spec fn lists(ids: Seq<Ident>, id: Seq<u8>) -> bool {
    exists|i: int| 0 <= i < ids.len() && #[trigger] ids[i]@ == id
}

/// Whether the identities of `ids` are pairwise distinct.
pub open spec fn distinct_ids(ids: Seq<Ident>) -> bool {
    forall|i: int, j: int|
        0 <= i < ids.len() && 0 <= j < ids.len() && i != j ==> #[trigger] ids[i]@ != #[trigger] ids[j]@
}

/// The identities of `ids`, by their bytes.
pub open spec fn id_views(ids: Seq<Ident>) -> Seq<Seq<u8>> {
    ids.map_values(|i: Ident| i@)
}

/// The key of an identity's bytes: the identity alone.
pub open spec fn single_key() -> spec_fn(Seq<u8>) -> Seq<Seq<u8>> {
    |x: Seq<u8>| seq![x]
}

/// The ordered set of modelled substances.
#[derive(Debug, PartialEq, Eq)]
pub struct SubstanceRegistry {
    pub members: Vec<SubstanceId>,
}

impl SubstanceRegistry {
    /// Members are distinct.
    pub open spec fn wf(&self) -> bool {
        distinct_ids(self.members@)
    }

    /// Whether two registries list the same members in the same order.
    pub open spec fn same(&self, other: &SubstanceRegistry) -> bool {
        self.members@.len() == other.members@.len() && forall|i: int|
            0 <= i < self.members@.len() ==> (#[trigger] self.members@[i])@ == other.members@[i]@
    }

    /// The registry of the substances of `members`: each once, in canonical order of their
    /// identities.
    pub fn new(members: Vec<SubstanceId>) -> (r: SubstanceRegistry)
        ensures
            r.wf(),
            canonical_order_of(id_views(r.members@), id_views(members@), single_key()),
    {
        let ghost src = members@;
        let mut m: CanonicalMap<Ident, ()> = CanonicalMap::new();
        let mut i: usize = 0;
        while i < members.len()
            invariant
                0 <= i <= src.len(),
                src == members@,
                m.wf(),
                forall|p: int| 0 <= p < m@.len() ==> #[trigger] lists(src, m@[p].0@),
                forall|j: int| 0 <= j < i ==> has_key(m@, seq![(#[trigger] src[j])@]),
            decreases src.len() - i,
        {
            let k = members[i].clone();
            let ghost old_m = m@;
            let inserted = m.insert_new(k, ());
            proof {
                assert(k.key() == seq![src[i as int]@]);
                if inserted {
                    let pos = choose|q: int| 0 <= q <= old_m.len() && m@ == old_m.insert(q, (k, ()));
                    assert(m@[pos] == (k, ()));
                    assert forall|p: int| 0 <= p < m@.len() implies #[trigger] lists(src, m@[p].0@) by {
                        if p < pos {
                            assert(m@[p] == old_m[p]);
                        } else if p > pos {
                            assert(m@[p] == old_m[p - 1]);
                        } else {
                            assert(src[i as int]@ == m@[p].0@);
                        }
                    }
                    assert forall|j: int| 0 <= j <= i implies has_key(m@, seq![(#[trigger] src[j])@]) by {
                        if j < i {
                            let q = choose|q: int| 0 <= q < old_m.len() && #[trigger] old_m[q].0.key() == seq![src[j]@];
                            if q < pos {
                                assert(m@[q] == old_m[q]);
                            } else {
                                assert(m@[q + 1] == old_m[q]);
                            }
                        } else {
                            assert(m@[pos].0.key() == seq![src[j]@]);
                        }
                    }
                }
            }
            i = i + 1;
        }
        let entries = m.entries();
        let ghost em = m@;
        let mut out: Vec<SubstanceId> = Vec::new();
        let mut j: usize = 0;
        while j < entries.len()
            invariant
                0 <= j <= entries@.len(),
                entries@ == em,
                out@.len() == j,
                forall|p: int| 0 <= p < j ==> out@[p] == (#[trigger] em[p]).0,
            decreases entries@.len() - j,
        {
            out.push(entries[j].0.clone());
            j = j + 1;
        }
        proof {
            let ov = id_views(out@);
            let sv = id_views(src);
            assert forall|a: int, c: int| 0 <= a < c < ov.len() implies crate::canonical_order::key_lt(
                single_key()(#[trigger] ov[a]),
                single_key()(#[trigger] ov[c]),
            ) by {
                assert(crate::canonical_order::key_lt(em[a].0.key(), em[c].0.key()));
            }
            assert forall|p: int| 0 <= p < ov.len() implies #[trigger] crate::artifact_builder::listed_value(sv, ov[p]) by {
                assert(lists(src, em[p].0@));
                let k = choose|k: int| 0 <= k < src.len() && #[trigger] src[k]@ == em[p].0@;
                assert(sv[k] == ov[p]);
            }
            assert forall|k: int| 0 <= k < sv.len() implies #[trigger] crate::artifact_builder::listed_value(ov, sv[k]) by {
                assert(has_key(em, seq![src[k]@]));
                let p = choose|p: int| 0 <= p < em.len() && #[trigger] em[p].0.key() == seq![src[k]@];
                crate::model_artifact::lemma_single_key(em[p].0@, src[k]@);
                assert(ov[p] == sv[k]);
            }
            assert forall|a: int, c: int|
                0 <= a < out@.len() && 0 <= c < out@.len() && a != c implies #[trigger] out@[a]@ != #[trigger] out@[c]@ by {
                if a < c {
                    crate::canonical_map::lemma_sorted_keys_distinct(em, a, c);
                } else {
                    crate::canonical_map::lemma_sorted_keys_distinct(em, c, a);
                }
            }
        }
        SubstanceRegistry { members: out }
    }

    /// Whether `substance` is modelled.
    pub fn contains(&self, substance: &Ident) -> (r: bool)
        ensures
            r == lists(self.members@, substance@),
    {
        let mut i: usize = 0;
        while i < self.members.len()
            invariant
                0 <= i <= self.members@.len(),
                forall|j: int| 0 <= j < i ==> (#[trigger] self.members@[j])@ != substance@,
            decreases self.members@.len() - i,
        {
            if self.members[i].same(substance) {
                return true;
            }
            i = i + 1;
        }
        false
    }

    /// Whether two registries are the same.
    pub fn same_as(&self, other: &SubstanceRegistry) -> (r: bool)
        ensures
            r == self.same(other),
    {
        if self.members.len() != other.members.len() {
            return false;
        }
        let mut i: usize = 0;
        while i < self.members.len()
            invariant
                0 <= i <= self.members@.len(),
                self.members@.len() == other.members@.len(),
                forall|j: int| 0 <= j < i ==> (#[trigger] self.members@[j])@ == other.members@[j]@,
            decreases self.members@.len() - i,
        {
            if !self.members[i].same(&other.members[i]) {
                return false;
            }
            i = i + 1;
        }
        true
    }
}

/// One substance amount, held as the IEEE-754 bit pattern of its binary64 value.
#[derive(Debug, PartialEq, Eq)]
pub struct SubstanceAmount {
    pub substance: SubstanceId,
    pub amount_bits: u64,
}

/// Per-substance amounts bound to a registry.
#[derive(Debug, PartialEq, Eq)]
pub struct SparseSubstanceVector {
    pub registry: SubstanceRegistry,
    pub entries: Vec<SubstanceAmount>,
}

/// The stock of one compartment.
#[derive(Debug, PartialEq, Eq)]
pub struct CompartmentStock {
    pub compartment: CompartmentId,
    pub stock: SparseSubstanceVector,
}

/// Initial stocks bound to a topology and registry snapshot.
#[derive(Debug, PartialEq, Eq)]
pub struct InitialStocks {
    pub topology: Topology,
    pub registry: SubstanceRegistry,
    pub entries: Vec<CompartmentStock>,
}

} // verus!
