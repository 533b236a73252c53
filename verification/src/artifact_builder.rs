//! Assembling a model artifact: the builder, and the checks that bind its components together.

use vstd::prelude::*;
use crate::artifact_error::{ArtifactErrorModel, ModelArtifactError};
use crate::binding_validation::{first_error, lemma_first_error_prefix, lemma_first_error_step};
use crate::canonical_map::{has_key, lemma_sorted_keys_distinct, sorted_keys, CanonicalMap};
use crate::canonical_order::{key_lt, lemma_key_lt_irreflexive, lemma_key_lt_transitive};
use crate::forcing::ForcingSeries;
use crate::identity::{CanonicalKey, Ident};
use crate::interpolation_table::InterpolationTable;
use crate::temporal::RunHorizon;
use crate::versions::NumericalSemanticsVersion;
use crate::identity::RuleCoordinate;
use crate::model_artifact::{ModelVersions, RuleDefinition, SubstanceUnit};
use crate::projection::{ProjectionSet, ProjectionSpec};
use crate::reference_validation::{outcome_view, rule_reference_outcome, validate_rule_references};
use crate::rule_references::id_keys;
use crate::substance_registry::{lists, SubstanceRegistry};
use crate::topology::{declares, Topology};
use crate::substance_registry::{CompartmentStock, InitialStocks, SubstanceAmount};
use crate::artifact::{
    content_payload, forcing_entry_emitter, rule_emit, rule_entry_emitter, table_entry_emitter, unit_emitter, ModelArtifact,
};
use crate::component_encoding::{initial_stocks_emit, registry_emit, topology_emit};
use crate::forcing::forcing_emit;
use crate::interpolation_table::table_emit;
use crate::binding_validation::{and_then, binding_stages_outcome, carrier_check, validate_carrier_partitions, validate_execution_bindings};
use crate::canonical_encoding::{lemma_emit_each_pointwise, spec_encode, Emitted};
use crate::execution_bindings::{ExecutionBindings, ExecutionBindingsError, RuleInputBinding, TransferBranchBinding};
use crate::graph_validation::{cyclic_report, sustaining_ids};
use crate::projection_validation::{selectors_outcome, validate_projection_fact_selectors};
use crate::temporal::FixedStepCalendar;
use crate::model_artifact::lemma_single_key;

verus! {

// ---------------------------------------------------------------------------------------------
// Canonical arrangements of lists
// ---------------------------------------------------------------------------------------------

/// `m` holds exactly the values of `src`, each under its key, in canonical key order.
pub open spec fn arranges<K: CanonicalKey, V>(m: Seq<(K, V)>, src: Seq<V>, key: spec_fn(V) -> Seq<Seq<u8>>) -> bool {
    &&& sorted_keys(m)
    &&& m.len() == src.len()
    &&& forall|p: int| 0 <= p < m.len() ==> (#[trigger] m[p]).0.key() == key(m[p].1)
    &&& forall|p: int| 0 <= p < m.len() ==> #[trigger] listed_value(src, m[p].1)
    &&& forall|i: int| 0 <= i < src.len() ==> #[trigger] mapped_value(m, src[i])
}

/// Whether `v` is a value of `src`.
pub open spec fn listed_value<V>(src: Seq<V>, v: V) -> bool {
    exists|i: int| 0 <= i < src.len() && src[i] == v
}

/// Whether `v` is a value of `m`.
pub open spec fn mapped_value<K, V>(m: Seq<(K, V)>, v: V) -> bool {
    exists|p: int| 0 <= p < m.len() && m[p].1 == v
}

/// Whether an earlier value of `src` than position `i` has the key of `src[i]`.
pub open spec fn repeats_key<V>(src: Seq<V>, key: spec_fn(V) -> Seq<Seq<u8>>, i: int) -> bool {
    exists|j: int| 0 <= j < i && key(#[trigger] src[j]) == key(src[i])
}

/// The positions `0..n`.
pub open spec fn positions(n: nat) -> Seq<int> {
    Seq::new(n, |i: int| i)
}

/// An arrangement of a prefix holds the key of a value exactly when an earlier value has it.
pub proof fn lemma_arranged_key<K: CanonicalKey, V>(m: Seq<(K, V)>, src: Seq<V>, key: spec_fn(V) -> Seq<Seq<u8>>, i: int)
    requires
        0 <= i < src.len(),
        arranges(m, src.take(i), key),
    ensures
        has_key(m, key(src[i])) == repeats_key(src, key, i),
{
    let t = src.take(i);
    if has_key(m, key(src[i])) {
        let p = choose|p: int| 0 <= p < m.len() && #[trigger] m[p].0.key() == key(src[i]);
        assert(listed_value(t, m[p].1));
        let j = choose|j: int| 0 <= j < t.len() && t[j] == m[p].1;
        assert(src[j] == t[j]);
        assert(key(src[j]) == key(src[i]));
    }
    if repeats_key(src, key, i) {
        let j = choose|j: int| 0 <= j < i && key(#[trigger] src[j]) == key(src[i]);
        assert(t[j] == src[j]);
        assert(mapped_value(m, t[j]));
        let p = choose|p: int| 0 <= p < m.len() && m[p].1 == t[j];
        assert(m[p].0.key() == key(src[i]));
    }
}

/// Whether every entry of `m` is keyed by the key `keyof` gives its value.
pub open spec fn keyed_by<K, V>(m: Seq<(K, V)>, keyof: spec_fn(V) -> K) -> bool {
    forall|p: int| 0 <= p < m.len() ==> (#[trigger] m[p]).0 == keyof(m[p].1)
}

/// Inserting an entry keyed by its value keeps every entry keyed by its value.
pub proof fn lemma_keyed_insert<K, V>(m: Seq<(K, V)>, m2: Seq<(K, V)>, pos: int, e: (K, V), keyof: spec_fn(V) -> K)
    requires
        keyed_by(m, keyof),
        0 <= pos <= m.len(),
        m2 == m.insert(pos, e),
        e.0 == keyof(e.1),
    ensures
        keyed_by(m2, keyof),
{
    assert forall|p: int| 0 <= p < m2.len() implies (#[trigger] m2[p]).0 == keyof(m2[p].1) by {
        if p < pos {
            assert(m2[p] == m[p]);
        } else if p > pos {
            assert(m2[p] == m[p - 1]);
        }
    }
}

/// Inserting the next value of `src` under its key extends the arrangement by it.
pub proof fn lemma_arranges_insert<K: CanonicalKey, V>(
    m: Seq<(K, V)>,
    m2: Seq<(K, V)>,
    src: Seq<V>,
    key: spec_fn(V) -> Seq<Seq<u8>>,
    i: int,
    pos: int,
    k: K,
)
    requires
        0 <= i < src.len(),
        arranges(m, src.take(i), key),
        sorted_keys(m2),
        0 <= pos <= m.len(),
        m2 == m.insert(pos, (k, src[i])),
        k.key() == key(src[i]),
    ensures
        arranges(m2, src.take(i + 1), key),
{
    let t = src.take(i);
    let t1 = src.take(i + 1);
    assert(m2[pos] == (k, src[i]));
    assert(t1[i] == src[i]);
    assert forall|p: int| 0 <= p < m2.len() implies (#[trigger] m2[p]).0.key() == key(m2[p].1) by {
        if p < pos {
            assert(m2[p] == m[p]);
        } else if p > pos {
            assert(m2[p] == m[p - 1]);
        }
    }
    assert forall|p: int| 0 <= p < m2.len() implies #[trigger] listed_value(t1, m2[p].1) by {
        let v = m2[p].1;
        if p != pos {
            let q = if p < pos { p } else { p - 1 };
            assert(m2[p] == m[q]);
            assert(listed_value(t, m[q].1));
            let j = choose|j: int| 0 <= j < t.len() && t[j] == v;
            assert(t1[j] == t[j]);
        }
        else {
            assert(t1[i] == v);
        }
    }
    assert forall|j: int| 0 <= j < t1.len() implies #[trigger] mapped_value(m2, t1[j]) by {
        if j < i {
            assert(t1[j] == t[j]);
            assert(mapped_value(m, t[j]));
            let p = choose|p: int| 0 <= p < m.len() && m[p].1 == t[j];
            if p < pos {
                assert(m2[p] == m[p]);
            } else {
                assert(m2[p + 1] == m[p]);
            }
        } else {
            assert(m2[pos].1 == t1[j]);
        }
    }
}

/// Whether two lists hold the same values, whatever their order.
pub open spec fn same_values<V>(a: Seq<V>, b: Seq<V>) -> bool {
    &&& forall|i: int| 0 <= i < a.len() ==> #[trigger] listed_value(b, a[i])
    &&& forall|j: int| 0 <= j < b.len() ==> #[trigger] listed_value(a, b[j])
}

/// `b` lists the values of `a` in another order: `b[i]` is `a[perm[i]]`, and `perm` takes each
/// position of `a` exactly once.
pub open spec fn reorders<T>(a: Seq<T>, b: Seq<T>, perm: Seq<int>) -> bool {
    &&& a.len() == b.len()
    &&& perm.len() == b.len()
    &&& forall|i: int| 0 <= i < b.len() ==> 0 <= #[trigger] perm[i] < a.len() && b[i] == a[perm[i]]
    &&& forall|i: int, j: int| 0 <= i < j < b.len() ==> #[trigger] perm[i] != #[trigger] perm[j]
    &&& forall|j: int| 0 <= j < a.len() ==> exists|i: int| 0 <= i < b.len() && #[trigger] perm[i] == j && b[i] == #[trigger] a[j]
}

/// `out` holds the values of `src` and only those, strictly increasing by key.
pub open spec fn canonical_order_of<V>(out: Seq<V>, src: Seq<V>, key: spec_fn(V) -> Seq<Seq<u8>>) -> bool {
    &&& forall|i: int, j: int| 0 <= i < j < out.len() ==> key_lt(key(#[trigger] out[i]), key(#[trigger] out[j]))
    &&& forall|p: int| 0 <= p < out.len() ==> #[trigger] listed_value(src, out[p])
    &&& forall|i: int| 0 <= i < src.len() ==> #[trigger] listed_value(out, src[i])
}

/// The values of an arrangement are a canonical order of the arranged list.
pub proof fn lemma_arrangement_values<K: CanonicalKey, V>(
    m: Seq<(K, V)>,
    out: Seq<V>,
    src: Seq<V>,
    key: spec_fn(V) -> Seq<Seq<u8>>,
)
    requires
        arranges(m, src, key),
        out.len() == m.len(),
        forall|p: int| 0 <= p < out.len() ==> out[p] == (#[trigger] m[p]).1,
    ensures
        canonical_order_of(out, src, key),
        out.len() == src.len(),
{
    assert forall|a: int, c: int| 0 <= a < c < out.len() implies key_lt(key(#[trigger] out[a]), key(#[trigger] out[c])) by {
        assert(key_lt(m[a].0.key(), m[c].0.key()));
        assert(out[a] == m[a].1 && out[c] == m[c].1);
    }
    assert forall|p: int| 0 <= p < out.len() implies #[trigger] listed_value(src, out[p]) by {
        assert(listed_value(src, m[p].1));
    }
    assert forall|k: int| 0 <= k < src.len() implies #[trigger] listed_value(out, src[k]) by {
        assert(mapped_value(m, src[k]));
        let p = choose|p: int| 0 <= p < m.len() && m[p].1 == src[k];
        assert(out[p] == m[p].1);
    }
}

/// Lists strictly increasing by key, each holding every value of the other, are equal.
proof fn lemma_sorted_values_agree<V>(o1: Seq<V>, o2: Seq<V>, key: spec_fn(V) -> Seq<Seq<u8>>)
    requires
        forall|i: int, j: int| 0 <= i < j < o1.len() ==> key_lt(key(#[trigger] o1[i]), key(#[trigger] o1[j])),
        forall|i: int, j: int| 0 <= i < j < o2.len() ==> key_lt(key(#[trigger] o2[i]), key(#[trigger] o2[j])),
        forall|p: int| 0 <= p < o1.len() ==> #[trigger] listed_value(o2, o1[p]),
        forall|q: int| 0 <= q < o2.len() ==> #[trigger] listed_value(o1, o2[q]),
    ensures
        o1 =~= o2,
    decreases o1.len(),
{
    if o1.len() == 0 {
        if o2.len() > 0 {
            assert(listed_value(o1, o2[0]));
        }
    } else if o2.len() == 0 {
        assert(listed_value(o2, o1[0]));
    } else {
        assert(listed_value(o2, o1[0]));
        let q = choose|q: int| 0 <= q < o2.len() && o2[q] == o1[0];
        assert(listed_value(o1, o2[0]));
        let p = choose|p: int| 0 <= p < o1.len() && o1[p] == o2[0];
        if q != 0 {
            assert(key_lt(key(o2[0]), key(o2[q])));
            if p != 0 {
                assert(key_lt(key(o1[0]), key(o1[p])));
                lemma_key_lt_transitive(key(o1[0]), key(o1[p]), key(o2[q]));
                lemma_key_lt_irreflexive(key(o1[0]));
            } else {
                lemma_key_lt_irreflexive(key(o2[0]));
            }
        }
        let t1 = o1.drop_first();
        let t2 = o2.drop_first();
        assert forall|i: int| 0 <= i < t1.len() implies #[trigger] listed_value(t2, t1[i]) by {
            assert(t1[i] == o1[i + 1]);
            assert(listed_value(o2, o1[i + 1]));
            let k = choose|k: int| 0 <= k < o2.len() && o2[k] == o1[i + 1];
            if k == 0 {
                assert(key_lt(key(o1[0]), key(o1[i + 1])));
                lemma_key_lt_irreflexive(key(o1[0]));
            }
            assert(t2[k - 1] == o2[k]);
        }
        assert forall|i: int| 0 <= i < t2.len() implies #[trigger] listed_value(t1, t2[i]) by {
            assert(t2[i] == o2[i + 1]);
            assert(listed_value(o1, o2[i + 1]));
            let k = choose|k: int| 0 <= k < o1.len() && o1[k] == o2[i + 1];
            if k == 0 {
                assert(key_lt(key(o2[0]), key(o2[i + 1])));
                lemma_key_lt_irreflexive(key(o2[0]));
            }
            assert(t1[k - 1] == o1[k]);
        }
        assert forall|i: int, j: int| 0 <= i < j < t1.len() implies key_lt(key(#[trigger] t1[i]), key(#[trigger] t1[j])) by {
            assert(t1[i] == o1[i + 1] && t1[j] == o1[j + 1]);
        }
        assert forall|i: int, j: int| 0 <= i < j < t2.len() implies key_lt(key(#[trigger] t2[i]), key(#[trigger] t2[j])) by {
            assert(t2[i] == o2[i + 1] && t2[j] == o2[j + 1]);
        }
        lemma_sorted_values_agree(t1, t2, key);
        assert forall|i: int| 0 <= i < o1.len() implies o1[i] == o2[i] by {
            if i > 0 {
                assert(t1[i - 1] == o1[i] && t2[i - 1] == o2[i]);
            }
        }
    }
}

/// A canonical order does not depend on the order in which the values were listed: canonical
/// orders of two lists that hold the same values are the same list.
pub proof fn lemma_canonical_order_ignores_listing_order<V>(
    out1: Seq<V>,
    out2: Seq<V>,
    src1: Seq<V>,
    src2: Seq<V>,
    key: spec_fn(V) -> Seq<Seq<u8>>,
)
    requires
        canonical_order_of(out1, src1, key),
        canonical_order_of(out2, src2, key),
        same_values(src1, src2),
    ensures
        out1 == out2,
{
    assert forall|p: int| 0 <= p < out1.len() implies #[trigger] listed_value(out2, out1[p]) by {
        assert(listed_value(src1, out1[p]));
        let i = choose|i: int| 0 <= i < src1.len() && src1[i] == out1[p];
        assert(listed_value(src2, src1[i]));
        let j = choose|j: int| 0 <= j < src2.len() && src2[j] == src1[i];
        assert(listed_value(out2, src2[j]));
    }
    assert forall|q: int| 0 <= q < out2.len() implies #[trigger] listed_value(out1, out2[q]) by {
        assert(listed_value(src2, out2[q]));
        let j = choose|j: int| 0 <= j < src2.len() && src2[j] == out2[q];
        assert(listed_value(src1, src2[j]));
        let i = choose|i: int| 0 <= i < src1.len() && src1[i] == src2[j];
        assert(listed_value(out1, src1[i]));
    }
    lemma_sorted_values_agree(out1, out2, key);
}

/// Whether `s` holds a value with the key and the encoding of `v`.
pub open spec fn encoded_in<V>(s: Seq<V>, v: V, key: spec_fn(V) -> Seq<Seq<u8>>, enc: spec_fn(V) -> Emitted) -> bool {
    exists|i: int| 0 <= i < s.len() && key(#[trigger] s[i]) == key(v) && enc(s[i]) == enc(v)
}

/// Whether every value of each list has a value in the other with the same key and the same
/// encoding, whatever the order of the lists.
pub open spec fn same_encoded_values<V>(
    a: Seq<V>,
    b: Seq<V>,
    key: spec_fn(V) -> Seq<Seq<u8>>,
    enc: spec_fn(V) -> Emitted,
) -> bool {
    &&& forall|i: int| 0 <= i < a.len() ==> #[trigger] encoded_in(b, a[i], key, enc)
    &&& forall|j: int| 0 <= j < b.len() ==> #[trigger] encoded_in(a, b[j], key, enc)
}

/// Whether two entry lists hold, at every position, values with the same encoding.
pub open spec fn same_entry_encodings<K, V>(a: Seq<(K, V)>, b: Seq<(K, V)>, enc: spec_fn(V) -> Emitted) -> bool {
    &&& a.len() == b.len()
    &&& forall|p: int| 0 <= p < a.len() ==> enc((#[trigger] a[p]).1) == enc(b[p].1)
}

/// Key-sorted entry lists whose keys are those of their values, each holding a value with the
/// key and encoding of every value of the other, hold values with the same encoding at every
/// position.
proof fn lemma_sorted_entries_agree<K: CanonicalKey, V>(
    m1: Seq<(K, V)>,
    m2: Seq<(K, V)>,
    key: spec_fn(V) -> Seq<Seq<u8>>,
    enc: spec_fn(V) -> Emitted,
)
    requires
        sorted_keys(m1),
        sorted_keys(m2),
        forall|p: int| 0 <= p < m1.len() ==> (#[trigger] m1[p]).0.key() == key(m1[p].1),
        forall|p: int| 0 <= p < m2.len() ==> (#[trigger] m2[p]).0.key() == key(m2[p].1),
        forall|p: int| 0 <= p < m1.len() ==> #[trigger] entry_encoded(m2, m1[p].1, key, enc),
        forall|q: int| 0 <= q < m2.len() ==> #[trigger] entry_encoded(m1, m2[q].1, key, enc),
    ensures
        same_entry_encodings(m1, m2, enc),
    decreases m1.len(),
{
    if m1.len() == 0 {
        if m2.len() > 0 {
            assert(entry_encoded(m1, m2[0].1, key, enc));
        }
    } else if m2.len() == 0 {
        assert(entry_encoded(m2, m1[0].1, key, enc));
    } else {
        assert(entry_encoded(m2, m1[0].1, key, enc));
        let q = choose|q: int| 0 <= q < m2.len() && key((#[trigger] m2[q]).1) == key(m1[0].1) && enc(m2[q].1) == enc(m1[0].1);
        assert(entry_encoded(m1, m2[0].1, key, enc));
        let p = choose|p: int| 0 <= p < m1.len() && key((#[trigger] m1[p]).1) == key(m2[0].1) && enc(m1[p].1) == enc(m2[0].1);
        assert(m2[q].0.key() == m1[0].0.key());
        assert(m1[p].0.key() == m2[0].0.key());
        if q != 0 {
            if p != 0 {
                assert(key_lt(m1[0].0.key(), m1[p].0.key()));
                assert(key_lt(m2[0].0.key(), m2[q].0.key()));
                lemma_key_lt_transitive(m1[0].0.key(), m1[p].0.key(), m2[q].0.key());
                lemma_key_lt_irreflexive(m1[0].0.key());
            } else {
                lemma_sorted_keys_distinct(m2, 0, q);
            }
        }
        let t1 = m1.drop_first();
        let t2 = m2.drop_first();
        assert forall|i: int| 0 <= i < t1.len() implies #[trigger] entry_encoded(t2, t1[i].1, key, enc) by {
            assert(t1[i] == m1[i + 1]);
            assert(entry_encoded(m2, m1[i + 1].1, key, enc));
            let k = choose|k: int| 0 <= k < m2.len() && key((#[trigger] m2[k]).1) == key(m1[i + 1].1) && enc(m2[k].1) == enc(m1[i + 1].1);
            if k == 0 {
                lemma_sorted_keys_distinct(m1, 0, i + 1);
            }
            assert(t2[k - 1] == m2[k]);
        }
        assert forall|i: int| 0 <= i < t2.len() implies #[trigger] entry_encoded(t1, t2[i].1, key, enc) by {
            assert(t2[i] == m2[i + 1]);
            assert(entry_encoded(m1, m2[i + 1].1, key, enc));
            let k = choose|k: int| 0 <= k < m1.len() && key((#[trigger] m1[k]).1) == key(m2[i + 1].1) && enc(m1[k].1) == enc(m2[i + 1].1);
            if k == 0 {
                lemma_sorted_keys_distinct(m2, 0, i + 1);
            }
            assert(t1[k - 1] == m1[k]);
        }
        assert forall|i: int, j: int| 0 <= i < j < t1.len() implies key_lt(#[trigger] t1[i].0.key(), #[trigger] t1[j].0.key()) by {
            assert(t1[i] == m1[i + 1] && t1[j] == m1[j + 1]);
        }
        assert forall|i: int, j: int| 0 <= i < j < t2.len() implies key_lt(#[trigger] t2[i].0.key(), #[trigger] t2[j].0.key()) by {
            assert(t2[i] == m2[i + 1] && t2[j] == m2[j + 1]);
        }
        assert forall|i: int| 0 <= i < t1.len() implies (#[trigger] t1[i]).0.key() == key(t1[i].1) by {
            assert(t1[i] == m1[i + 1]);
        }
        assert forall|i: int| 0 <= i < t2.len() implies (#[trigger] t2[i]).0.key() == key(t2[i].1) by {
            assert(t2[i] == m2[i + 1]);
        }
        lemma_sorted_entries_agree(t1, t2, key, enc);
        assert forall|i: int| 0 <= i < m1.len() implies enc((#[trigger] m1[i]).1) == enc(m2[i].1) by {
            if i > 0 {
                assert(t1[i - 1] == m1[i] && t2[i - 1] == m2[i]);
            }
        }
    }
}

/// Whether entry list `m` holds a value with the key and the encoding of `v`.
pub open spec fn entry_encoded<K, V>(m: Seq<(K, V)>, v: V, key: spec_fn(V) -> Seq<Seq<u8>>, enc: spec_fn(V) -> Emitted) -> bool {
    exists|q: int| 0 <= q < m.len() && key((#[trigger] m[q]).1) == key(v) && enc(m[q].1) == enc(v)
}

/// The canonical arrangement of a list does not depend on the order in which its values were
/// listed: arrangements of two lists whose values correspond by key and encoding hold values
/// with the same encoding at every position.
pub proof fn lemma_arrangement_ignores_listing_order<K: CanonicalKey, V>(
    m1: Seq<(K, V)>,
    m2: Seq<(K, V)>,
    src1: Seq<V>,
    src2: Seq<V>,
    key: spec_fn(V) -> Seq<Seq<u8>>,
    enc: spec_fn(V) -> Emitted,
)
    requires
        arranges(m1, src1, key),
        arranges(m2, src2, key),
        same_encoded_values(src1, src2, key, enc),
    ensures
        same_entry_encodings(m1, m2, enc),
{
    assert forall|p: int| 0 <= p < m1.len() implies #[trigger] entry_encoded(m2, m1[p].1, key, enc) by {
        assert(listed_value(src1, m1[p].1));
        let i = choose|i: int| 0 <= i < src1.len() && src1[i] == m1[p].1;
        assert(encoded_in(src2, src1[i], key, enc));
        let j = choose|j: int| 0 <= j < src2.len() && key(#[trigger] src2[j]) == key(src1[i]) && enc(src2[j]) == enc(src1[i]);
        assert(mapped_value(m2, src2[j]));
        let q = choose|q: int| 0 <= q < m2.len() && m2[q].1 == src2[j];
        assert(key(m2[q].1) == key(m1[p].1) && enc(m2[q].1) == enc(m1[p].1));
    }
    assert forall|q: int| 0 <= q < m2.len() implies #[trigger] entry_encoded(m1, m2[q].1, key, enc) by {
        assert(listed_value(src2, m2[q].1));
        let j = choose|j: int| 0 <= j < src2.len() && src2[j] == m2[q].1;
        assert(encoded_in(src1, src2[j], key, enc));
        let i = choose|i: int| 0 <= i < src1.len() && key(#[trigger] src1[i]) == key(src2[j]) && enc(src1[i]) == enc(src2[j]);
        assert(mapped_value(m1, src1[i]));
        let p = choose|p: int| 0 <= p < m1.len() && m1[p].1 == src1[i];
        assert(key(m1[p].1) == key(m2[q].1) && enc(m1[p].1) == enc(m2[q].1));
    }
    lemma_sorted_entries_agree(m1, m2, key, enc);
}

// ---------------------------------------------------------------------------------------------
// Forcings and tables
// ---------------------------------------------------------------------------------------------

/// The key of a forcing: its identity.
pub open spec fn forcing_key() -> spec_fn(ForcingSeries) -> Seq<Seq<u8>> {
    |f: ForcingSeries| seq![f.id@]
}

/// The identity a forcing is keyed by.
pub open spec fn forcing_id() -> spec_fn(ForcingSeries) -> Ident {
    |f: ForcingSeries| f.id
}

/// What checking forcing `i` gives: it must cover the horizon, then have an identity not seen
/// before.
pub open spec fn forcing_check(forcings: Seq<ForcingSeries>, horizon: RunHorizon) -> spec_fn(int) -> Result<(), ArtifactErrorModel> {
    |i: int|
        if forcings[i].horizon != horizon {
            Err(ArtifactErrorModel::ForcingHorizonMismatch { forcing: forcings[i].id@ })
        } else if repeats_key(forcings, forcing_key(), i) {
            Err(ArtifactErrorModel::DuplicateForcing { forcing: forcings[i].id@ })
        } else {
            Ok(())
        }
}

/// Keys the forcings by identity, checking each in order.
#[verifier::loop_isolation(false)]
pub fn collect_forcings(forcings: Vec<ForcingSeries>, horizon: RunHorizon) -> (r: Result<
    CanonicalMap<Ident, ForcingSeries>,
    ModelArtifactError,
>)
    ensures
        match r {
            Ok(m) => first_error(positions(forcings@.len()), forcing_check(forcings@, horizon)) == Ok::<(), ArtifactErrorModel>(())
                && m.wf() && arranges(m@, forcings@, forcing_key()) && keyed_by(m@, forcing_id()),
            Err(e) => first_error(positions(forcings@.len()), forcing_check(forcings@, horizon)) == Err::<(), ArtifactErrorModel>(e@),
        },
{
    let ghost src = forcings@;
    let ghost n = src.len();
    let ghost check = forcing_check(src, horizon);
    let mut m: CanonicalMap<Ident, ForcingSeries> = CanonicalMap::new();
    let mut rest = forcings;
    let count = rest.len();
    let mut i: usize = 0;
    proof {
        assert(rest@ =~= src.skip(0));
        assert(positions(n).take(0) =~= Seq::<int>::empty());
        assert(src.take(0) =~= Seq::<ForcingSeries>::empty());
    }
    while i < count
        invariant
            0 <= i <= count,
            count == n,
            n == src.len(),
            rest@ == src.skip(i as int),
            check == forcing_check(src, horizon),
            m.wf(),
            arranges(m@, src.take(i as int), forcing_key()),
            keyed_by(m@, forcing_id()),
            first_error(positions(n).take(i as int), check) == Ok::<(), ArtifactErrorModel>(()),
        decreases count - i,
    {
        let forcing = rest.remove(0);
        proof {
            assert(src[i as int] == forcing) by {
                assert(src.skip(i as int)[0] == src[i as int]);
            }
            assert(rest@ =~= src.skip(i + 1));
            assert(positions(n)[i as int] == i as int);
            lemma_first_error_step(positions(n), check, i as int);
            lemma_arranged_key(m@, src, forcing_key(), i as int);
        }
        if forcing.horizon != horizon {
            proof {
                lemma_first_error_prefix(positions(n), check, i + 1);
            }
            return Err(ModelArtifactError::ForcingHorizonMismatch { forcing: forcing.id });
        }
        let id = forcing.id.clone();
        let ghost old_m = m@;
        let kept = forcing.id.clone();
        if !m.insert_new(kept, forcing) {
            proof {
                lemma_first_error_prefix(positions(n), check, i + 1);
            }
            return Err(ModelArtifactError::DuplicateForcing { forcing: id });
        }
        proof {
            let pos = choose|p: int| 0 <= p <= old_m.len() && m@ == old_m.insert(p, (kept, src[i as int]));
            lemma_arranges_insert(old_m, m@, src, forcing_key(), i as int, pos, kept);
            lemma_keyed_insert(old_m, m@, pos, (kept, src[i as int]), forcing_id());
        }
        i = i + 1;
    }
    proof {
        assert(src.take(n as int) =~= src);
        assert(positions(n).take(n as int) =~= positions(n));
    }
    Ok(m)
}

/// The key of an interpolation table: its identity.
pub open spec fn table_key() -> spec_fn(InterpolationTable) -> Seq<Seq<u8>> {
    |t: InterpolationTable| seq![t.id@]
}

/// The identity a table is keyed by.
pub open spec fn table_id() -> spec_fn(InterpolationTable) -> Ident {
    |t: InterpolationTable| t.id
}

/// What checking table `i` gives: it must use the artifact's numerical semantics, then have an
/// identity not seen before.
pub open spec fn table_check(tables: Seq<InterpolationTable>, version: NumericalSemanticsVersion) -> spec_fn(int) -> Result<
    (),
    ArtifactErrorModel,
> {
    |i: int|
        if tables[i].numerical_semantics_version != version {
            Err(ArtifactErrorModel::TableNumericalVersionMismatch { table: tables[i].id@ })
        } else if repeats_key(tables, table_key(), i) {
            Err(ArtifactErrorModel::DuplicateTable { table: tables[i].id@ })
        } else {
            Ok(())
        }
}

/// Keys the tables by identity, checking each in order.
#[verifier::loop_isolation(false)]
pub fn collect_tables(tables: Vec<InterpolationTable>, version: NumericalSemanticsVersion) -> (r: Result<
    CanonicalMap<Ident, InterpolationTable>,
    ModelArtifactError,
>)
    ensures
        match r {
            Ok(m) => first_error(positions(tables@.len()), table_check(tables@, version)) == Ok::<(), ArtifactErrorModel>(())
                && m.wf() && arranges(m@, tables@, table_key()) && keyed_by(m@, table_id()),
            Err(e) => first_error(positions(tables@.len()), table_check(tables@, version)) == Err::<(), ArtifactErrorModel>(e@),
        },
{
    let ghost src = tables@;
    let ghost n = src.len();
    let ghost check = table_check(src, version);
    let mut m: CanonicalMap<Ident, InterpolationTable> = CanonicalMap::new();
    let mut rest = tables;
    let count = rest.len();
    let mut i: usize = 0;
    proof {
        assert(rest@ =~= src.skip(0));
        assert(positions(n).take(0) =~= Seq::<int>::empty());
        assert(src.take(0) =~= Seq::<InterpolationTable>::empty());
    }
    while i < count
        invariant
            0 <= i <= count,
            count == n,
            n == src.len(),
            rest@ == src.skip(i as int),
            check == table_check(src, version),
            m.wf(),
            arranges(m@, src.take(i as int), table_key()),
            keyed_by(m@, table_id()),
            first_error(positions(n).take(i as int), check) == Ok::<(), ArtifactErrorModel>(()),
        decreases count - i,
    {
        let table = rest.remove(0);
        proof {
            assert(src[i as int] == table) by {
                assert(src.skip(i as int)[0] == src[i as int]);
            }
            assert(rest@ =~= src.skip(i + 1));
            assert(positions(n)[i as int] == i as int);
            lemma_first_error_step(positions(n), check, i as int);
            lemma_arranged_key(m@, src, table_key(), i as int);
        }
        if table.numerical_semantics_version != version {
            proof {
                lemma_first_error_prefix(positions(n), check, i + 1);
            }
            return Err(ModelArtifactError::TableNumericalVersionMismatch { table: table.id });
        }
        let id = table.id.clone();
        let ghost old_m = m@;
        let kept = table.id.clone();
        if !m.insert_new(kept, table) {
            proof {
                lemma_first_error_prefix(positions(n), check, i + 1);
            }
            return Err(ModelArtifactError::DuplicateTable { table: id });
        }
        proof {
            let pos = choose|p: int| 0 <= p <= old_m.len() && m@ == old_m.insert(p, (kept, src[i as int]));
            lemma_arranges_insert(old_m, m@, src, table_key(), i as int, pos, kept);
            lemma_keyed_insert(old_m, m@, pos, (kept, src[i as int]), table_id());
        }
        i = i + 1;
    }
    proof {
        assert(src.take(n as int) =~= src);
        assert(positions(n).take(n as int) =~= positions(n));
    }
    Ok(m)
}

// ---------------------------------------------------------------------------------------------
// Rules
// ---------------------------------------------------------------------------------------------

/// The key of a rule: its compartment, then its substance.
pub open spec fn rule_key() -> spec_fn(RuleDefinition) -> Seq<Seq<u8>> {
    |r: RuleDefinition| seq![r.spec_compartment()@, r.spec_substance()@]
}

/// The coordinate a rule is keyed by.
pub open spec fn rule_coordinate() -> spec_fn(RuleDefinition) -> RuleCoordinate {
    |r: RuleDefinition| RuleCoordinate { compartment: r.spec_compartment(), substance: r.spec_substance() }
}

/// Whether the topology declares `id` as a finite compartment.
pub open spec fn finite_declared(topology: Topology, id: Seq<u8>) -> bool {
    exists|i: int| 0 <= i < topology.endpoints@.len() && #[trigger] topology.endpoints@[i].spec_id() == id
        && topology.endpoints@[i] is Finite
}

/// What checking rule `i` gives: a finite compartment of the topology, a modelled substance,
/// the artifact's versions, references that exist, then a coordinate not seen before.
pub open spec fn rule_check(
    rules: Seq<RuleDefinition>,
    topology: Topology,
    registry: SubstanceRegistry,
    versions: ModelVersions,
    forcing_ids: Set<Seq<u8>>,
    table_ids: Set<Seq<u8>>,
    specs: Seq<ProjectionSpec>,
) -> spec_fn(int) -> Result<(), ArtifactErrorModel> {
    |i: int| {
        let r = rules[i];
        let c = r.spec_compartment()@;
        let s = r.spec_substance()@;
        if !declares(topology.endpoints@, c) {
            Err(ArtifactErrorModel::UnknownRuleCompartment { compartment: c })
        } else if !finite_declared(topology, c) {
            Err(ArtifactErrorModel::BoundaryAccountRule { account: c })
        } else if !lists(registry.members@, s) {
            Err(ArtifactErrorModel::UnknownRuleSubstance { substance: s })
        } else if r.spec_expression().rule_ir_version != versions.spec_rule_ir()
            || r.spec_disposition().rule_ir_version != versions.spec_rule_ir() {
            Err(ArtifactErrorModel::RuleIrVersionMismatch { compartment: c, substance: s })
        } else if r.spec_expression().numerical_semantics_version != versions.spec_numerical_semantics()
            || r.spec_disposition().numerical_semantics_version != versions.spec_numerical_semantics() {
            Err(ArtifactErrorModel::RuleNumericalVersionMismatch { compartment: c, substance: s })
        } else {
            match rule_reference_outcome(
                c,
                s,
                r.spec_expression().node,
                r.spec_disposition().view,
                id_keys(r.spec_parameters()),
                forcing_ids,
                table_ids,
                specs,
            ) {
                Err(e) => Err(e),
                Ok(()) => if repeats_key(rules, rule_key(), i) {
                    Err(ArtifactErrorModel::DuplicateRule { compartment: c, substance: s })
                } else {
                    Ok(())
                },
            }
        }
    }
}

/// Keys the rules by coordinate, checking each in order.
#[verifier::loop_isolation(false)]
pub fn collect_rules(
    rules: Vec<RuleDefinition>,
    topology: &Topology,
    registry: &SubstanceRegistry,
    versions: ModelVersions,
    forcings: &CanonicalMap<Ident, ForcingSeries>,
    tables: &CanonicalMap<Ident, InterpolationTable>,
    projections: &ProjectionSet,
) -> (r: Result<CanonicalMap<RuleCoordinate, RuleDefinition>, ModelArtifactError>)
    requires
        topology.wf(),
        forall|i: int| 0 <= i < rules@.len() ==> (#[trigger] rules@[i]).wf(),
    ensures
        match r {
            Ok(m) => first_error(
                positions(rules@.len()),
                rule_check(rules@, *topology, *registry, versions, id_keys(forcings@), id_keys(tables@), projections.specifications@),
            ) == Ok::<(), ArtifactErrorModel>(()) && m.wf() && arranges(m@, rules@, rule_key())
                && keyed_by(m@, rule_coordinate()),
            Err(e) => first_error(
                positions(rules@.len()),
                rule_check(rules@, *topology, *registry, versions, id_keys(forcings@), id_keys(tables@), projections.specifications@),
            ) == Err::<(), ArtifactErrorModel>(e@),
        },
{
    let ghost src = rules@;
    let ghost n = src.len();
    let ghost check = rule_check(src, *topology, *registry, versions, id_keys(forcings@), id_keys(tables@), projections.specifications@);
    let mut m: CanonicalMap<RuleCoordinate, RuleDefinition> = CanonicalMap::new();
    let mut rest = rules;
    let count = rest.len();
    let mut i: usize = 0;
    proof {
        assert(rest@ =~= src.skip(0));
        assert(positions(n).take(0) =~= Seq::<int>::empty());
        assert(src.take(0) =~= Seq::<RuleDefinition>::empty());
    }
    while i < count
        invariant
            0 <= i <= count,
            count == n,
            n == src.len(),
            rest@ == src.skip(i as int),
            m.wf(),
            arranges(m@, src.take(i as int), rule_key()),
            keyed_by(m@, rule_coordinate()),
            first_error(positions(n).take(i as int), check) == Ok::<(), ArtifactErrorModel>(()),
        decreases count - i,
    {
        let rule = rest.remove(0);
        proof {
            assert(src[i as int] == rule) by {
                assert(src.skip(i as int)[0] == src[i as int]);
            }
            assert(rest@ =~= src.skip(i + 1));
            assert(positions(n)[i as int] == i as int);
            lemma_first_error_step(positions(n), check, i as int);
            lemma_arranged_key(m@, src, rule_key(), i as int);
        }
        let compartment = rule.compartment().clone();
        let substance = rule.substance().clone();
        match topology.endpoint(&compartment) {
            None => {
                proof {
                    lemma_first_error_prefix(positions(n), check, i + 1);
                }
                return Err(ModelArtifactError::UnknownRuleCompartment { compartment });
            },
            Some(endpoint) => {
                if !endpoint.is_finite() {
                    proof {
                        let k = choose|k: int|
                            0 <= k < topology.endpoints@.len() && topology.endpoints@[k] == *endpoint
                                && #[trigger] topology.endpoints@[k].spec_id() == compartment@;
                        if finite_declared(*topology, compartment@) {
                            let j = choose|j: int|
                                0 <= j < topology.endpoints@.len() && #[trigger] topology.endpoints@[j].spec_id() == compartment@
                                    && topology.endpoints@[j] is Finite;
                            assert(crate::topology::distinct_endpoints(topology.endpoints@));
                            if j != k {
                                assert(topology.endpoints@[j].spec_id() != topology.endpoints@[k].spec_id());
                            }
                        }
                        lemma_first_error_prefix(positions(n), check, i + 1);
                    }
                    return Err(ModelArtifactError::BoundaryAccountRule { account: compartment });
                }
            },
        }
        if !registry.contains(&substance) {
            proof {
                lemma_first_error_prefix(positions(n), check, i + 1);
            }
            return Err(ModelArtifactError::UnknownRuleSubstance { substance });
        }
        if rule.expression().rule_ir_version != versions.rule_ir() || rule.disposition().rule_ir_version
            != versions.rule_ir() {
            proof {
                lemma_first_error_prefix(positions(n), check, i + 1);
            }
            return Err(ModelArtifactError::RuleIrVersionMismatch { compartment, substance });
        }
        if rule.expression().numerical_semantics_version != versions.numerical_semantics()
            || rule.disposition().numerical_semantics_version != versions.numerical_semantics() {
            proof {
                lemma_first_error_prefix(positions(n), check, i + 1);
            }
            return Err(ModelArtifactError::RuleNumericalVersionMismatch { compartment, substance });
        }
        match validate_rule_references(&rule, forcings, tables, projections) {
            Err(e) => {
                proof {
                    lemma_first_error_prefix(positions(n), check, i + 1);
                }
                return Err(e);
            },
            Ok(()) => {},
        }
        let ghost old_m = m@;
        let kept = RuleCoordinate { compartment: compartment.clone(), substance: substance.clone() };
        if !m.insert_new(kept, rule) {
            proof {
                lemma_first_error_prefix(positions(n), check, i + 1);
            }
            return Err(ModelArtifactError::DuplicateRule { compartment, substance });
        }
        proof {
            let pos = choose|p: int| 0 <= p <= old_m.len() && m@ == old_m.insert(p, (kept, src[i as int]));
            lemma_arranges_insert(old_m, m@, src, rule_key(), i as int, pos, kept);
            lemma_keyed_insert(old_m, m@, pos, (kept, src[i as int]), rule_coordinate());
        }
        i = i + 1;
    }
    proof {
        assert(src.take(n as int) =~= src);
        assert(positions(n).take(n as int) =~= positions(n));
    }
    Ok(m)
}

// ---------------------------------------------------------------------------------------------
// Units
// ---------------------------------------------------------------------------------------------

/// The key of a unit declaration: its substance.
pub open spec fn unit_key() -> spec_fn((Ident, SubstanceUnit)) -> Seq<Seq<u8>> {
    |u: (Ident, SubstanceUnit)| seq![u.0@]
}

/// The substance a unit declaration is keyed by.
pub open spec fn unit_substance() -> spec_fn((Ident, SubstanceUnit)) -> Ident {
    |u: (Ident, SubstanceUnit)| u.0
}

/// What checking unit declaration `i` gives: a modelled substance, not declared before.
pub open spec fn unit_check(units: Seq<(Ident, SubstanceUnit)>, registry: SubstanceRegistry) -> spec_fn(int) -> Result<
    (),
    ArtifactErrorModel,
> {
    |i: int|
        if !lists(registry.members@, units[i].0@) {
            Err(ArtifactErrorModel::UnknownUnitSubstance { substance: units[i].0@ })
        } else if repeats_key(units, unit_key(), i) {
            Err(ArtifactErrorModel::DuplicateUnit { substance: units[i].0@ })
        } else {
            Ok(())
        }
}

/// Keys the unit declarations by substance, checking each in order.
#[verifier::loop_isolation(false)]
pub fn collect_units(units: Vec<(Ident, SubstanceUnit)>, registry: &SubstanceRegistry) -> (r: Result<
    CanonicalMap<Ident, (Ident, SubstanceUnit)>,
    ModelArtifactError,
>)
    ensures
        match r {
            Ok(m) => first_error(positions(units@.len()), unit_check(units@, *registry)) == Ok::<(), ArtifactErrorModel>(())
                && m.wf() && arranges(m@, units@, unit_key()) && keyed_by(m@, unit_substance()),
            Err(e) => first_error(positions(units@.len()), unit_check(units@, *registry)) == Err::<(), ArtifactErrorModel>(e@),
        },
{
    let ghost src = units@;
    let ghost n = src.len();
    let ghost check = unit_check(src, *registry);
    let mut m: CanonicalMap<Ident, (Ident, SubstanceUnit)> = CanonicalMap::new();
    let mut rest = units;
    let count = rest.len();
    let mut i: usize = 0;
    proof {
        assert(rest@ =~= src.skip(0));
        assert(positions(n).take(0) =~= Seq::<int>::empty());
        assert(src.take(0) =~= Seq::<(Ident, SubstanceUnit)>::empty());
    }
    while i < count
        invariant
            0 <= i <= count,
            count == n,
            n == src.len(),
            rest@ == src.skip(i as int),
            m.wf(),
            arranges(m@, src.take(i as int), unit_key()),
            keyed_by(m@, unit_substance()),
            first_error(positions(n).take(i as int), check) == Ok::<(), ArtifactErrorModel>(()),
        decreases count - i,
    {
        let declaration = rest.remove(0);
        proof {
            assert(src[i as int] == declaration) by {
                assert(src.skip(i as int)[0] == src[i as int]);
            }
            assert(rest@ =~= src.skip(i + 1));
            assert(positions(n)[i as int] == i as int);
            lemma_first_error_step(positions(n), check, i as int);
            lemma_arranged_key(m@, src, unit_key(), i as int);
        }
        if !registry.contains(&declaration.0) {
            proof {
                lemma_first_error_prefix(positions(n), check, i + 1);
            }
            return Err(ModelArtifactError::UnknownUnitSubstance { substance: declaration.0 });
        }
        let substance = declaration.0.clone();
        let ghost old_m = m@;
        let kept = declaration.0.clone();
        if !m.insert_new(kept, declaration) {
            proof {
                lemma_first_error_prefix(positions(n), check, i + 1);
            }
            return Err(ModelArtifactError::DuplicateUnit { substance });
        }
        proof {
            let pos = choose|p: int| 0 <= p <= old_m.len() && m@ == old_m.insert(p, (kept, src[i as int]));
            lemma_arranges_insert(old_m, m@, src, unit_key(), i as int, pos, kept);
            lemma_keyed_insert(old_m, m@, pos, (kept, src[i as int]), unit_substance());
        }
        i = i + 1;
    }
    proof {
        assert(src.take(n as int) =~= src);
        assert(positions(n).take(n as int) =~= positions(n));
    }
    Ok(m)
}

// ---------------------------------------------------------------------------------------------
// Whole-quantum counts of initial stocks
// ---------------------------------------------------------------------------------------------

/// How an initial stock value relates to whole multiples of its substance quantum: exactly the
/// image of one whole count, the image of more than one, or of none.
#[derive(Clone, Copy, Debug, PartialEq, Eq, Structural)]
pub enum QuantumCount {
    Whole(u64),
    Ambiguous,
    Misaligned,
}

/// The relations of each stock's amounts, row by row.
pub open spec fn count_rows(counts: Seq<Vec<QuantumCount>>) -> Seq<Seq<QuantumCount>> {
    counts.map_values(|v: Vec<QuantumCount>| v@)
}

/// The largest whole-quantum count that binary64 represents exactly: 2^53.
pub open spec fn max_exact_count() -> nat {
    0x20_0000_0000_0000
}

/// The position of the first amount of substance `s`, if any.
pub open spec fn first_amount(entries: Seq<SubstanceAmount>, s: Seq<u8>) -> Option<int> {
    if exists|j: int| 0 <= j < entries.len() && (#[trigger] entries[j]).substance@ == s {
        Some(
            choose|j: int|
                0 <= j < entries.len() && entries[j].substance@ == s && forall|k: int|
                    0 <= k < j ==> (#[trigger] entries[k]).substance@ != s,
        )
    } else {
        None
    }
}

/// The search for an amount finds the first one of its substance.
proof fn lemma_first_amount(entries: Seq<SubstanceAmount>, s: Seq<u8>, j: int)
    requires
        0 <= j < entries.len(),
        entries[j].substance@ == s,
        forall|k: int| 0 <= k < j ==> (#[trigger] entries[k]).substance@ != s,
    ensures
        first_amount(entries, s) == Some(j),
{
    assert(entries[j].substance@ == s);
    let c = choose|c: int|
        0 <= c < entries.len() && entries[c].substance@ == s && forall|k: int| 0 <= k < c ==> (#[trigger] entries[k]).substance@ != s;
    if c < j {
        assert(entries[c].substance@ != s);
    } else if c > j {
        assert(entries[j].substance@ != s);
    }
}

/// The total whole-quantum count of substance `s` over the first `k` stocks, or the error of
/// the first stock whose value is not the image of one whole count.
pub open spec fn stock_total(
    stocks: Seq<CompartmentStock>,
    counts: Seq<Seq<QuantumCount>>,
    s: Seq<u8>,
    quantum_bits: u64,
    k: int,
) -> Result<nat, ArtifactErrorModel>
    decreases k,
{
    if k <= 0 {
        Ok(0)
    } else {
        match stock_total(stocks, counts, s, quantum_bits, k - 1) {
            Err(e) => Err(e),
            Ok(t) => match first_amount(stocks[k - 1].stock.entries@, s) {
                None => Ok(t),
                Some(j) => match counts[k - 1][j] {
                    QuantumCount::Whole(c) => Ok(t + (c as nat)),
                    QuantumCount::Ambiguous => Err(ArtifactErrorModel::AmbiguousInitialStock {
                        compartment: stocks[k - 1].compartment@,
                        substance: s,
                        value_bits: stocks[k - 1].stock.entries@[j].amount_bits,
                        quantum_bits,
                    }),
                    QuantumCount::Misaligned => Err(ArtifactErrorModel::MisalignedInitialStock {
                        compartment: stocks[k - 1].compartment@,
                        substance: s,
                        value_bits: stocks[k - 1].stock.entries@[j].amount_bits,
                        quantum_bits,
                    }),
                },
            },
        }
    }
}

/// The position of the unit declared for substance `s`, if any.
pub open spec fn unit_of(units: Seq<(Ident, (Ident, SubstanceUnit))>, s: Seq<u8>) -> Option<int> {
    if exists|p: int| 0 <= p < units.len() && (#[trigger] units[p]).0.key() == seq![s] {
        Some(choose|p: int| 0 <= p < units.len() && (#[trigger] units[p]).0.key() == seq![s])
    } else {
        None
    }
}

/// What counting the initial stocks of one modelled substance gives: it needs a unit; every
/// stock of it must be the image of one whole count; the total must stay countable.
pub open spec fn count_check(
    units: Seq<(Ident, (Ident, SubstanceUnit))>,
    stocks: Seq<CompartmentStock>,
    counts: Seq<Seq<QuantumCount>>,
) -> spec_fn(Ident) -> Result<(), ArtifactErrorModel> {
    |member: Ident|
        match unit_of(units, member@) {
            None => Err(ArtifactErrorModel::MissingUnit { substance: member@ }),
            Some(p) => {
                let q = units[p].1.1.spec_quantum().spec_bits();
                match stock_total(stocks, counts, member@, q, stocks.len() as int) {
                    Err(e) => Err(e),
                    Ok(t) => if t > max_exact_count() {
                        Err(ArtifactErrorModel::UncountableInitialTotal { substance: member@, total_count: t as u128, quantum_bits: q })
                    } else {
                        Ok(())
                    },
                }
            },
        }
}

/// Whether the count recorded under (`c`, `s`) is the whole count of some stock of `s` at `c`.
pub open spec fn recorded_count(
    stocks: Seq<CompartmentStock>,
    counts: Seq<Seq<QuantumCount>>,
    c: Seq<u8>,
    s: Seq<u8>,
    v: u64,
) -> bool {
    exists|i: int|
        0 <= i < stocks.len() && (#[trigger] stocks[i]).compartment@ == c && match first_amount(stocks[i].stock.entries@, s) {
            Some(j) => counts[i][j] == QuantumCount::Whole(v),
            None => false,
        }
}

/// Counts stay within the number of stocks counted times the largest count.
proof fn lemma_stock_total_bound(
    stocks: Seq<CompartmentStock>,
    counts: Seq<Seq<QuantumCount>>,
    s: Seq<u8>,
    q: u64,
    k: int,
)
    requires
        k >= 0,
        stock_total(stocks, counts, s, q, k) is Ok,
    ensures
        stock_total(stocks, counts, s, q, k)->Ok_0 <= k * 0xffff_ffff_ffff_ffff,
    decreases k,
{
    if k > 0 {
        lemma_stock_total_bound(stocks, counts, s, q, k - 1);
        assert((k - 1) * 0xffff_ffff_ffff_ffff + 0xffff_ffff_ffff_ffff == k * 0xffff_ffff_ffff_ffff) by (nonlinear_arith);
    }
}

/// An error over the first stocks is the error over all of them.
proof fn lemma_stock_total_error(
    stocks: Seq<CompartmentStock>,
    counts: Seq<Seq<QuantumCount>>,
    s: Seq<u8>,
    q: u64,
    k: int,
    n: int,
)
    requires
        0 <= k <= n,
        stock_total(stocks, counts, s, q, k) is Err,
    ensures
        stock_total(stocks, counts, s, q, n) == stock_total(stocks, counts, s, q, k),
    decreases n - k,
{
    if n > k {
        lemma_stock_total_error(stocks, counts, s, q, k, n - 1);
    }
}

/// The position of the first amount of `substance` in `entries`.
fn find_amount(entries: &Vec<SubstanceAmount>, substance: &Ident) -> (r: Option<usize>)
    ensures
        match r {
            Some(j) => j < entries@.len() && first_amount(entries@, substance@) == Some(j as int),
            None => first_amount(entries@, substance@) is None,
        },
{
    let mut j: usize = 0;
    while j < entries.len()
        invariant
            0 <= j <= entries@.len(),
            forall|k: int| 0 <= k < j ==> (#[trigger] entries@[k]).substance@ != substance@,
        decreases entries@.len() - j,
    {
        if entries[j].substance.same(substance) {
            proof {
                lemma_first_amount(entries@, substance@, j as int);
            }
            return Some(j);
        }
        j = j + 1;
    }
    None
}

/// Whether an entry of a count map was already in `base` or is a recorded count.
pub open spec fn count_entry_ok(
    base: Seq<(RuleCoordinate, u64)>,
    stocks: Seq<CompartmentStock>,
    counts: Seq<Seq<QuantumCount>>,
    e: (RuleCoordinate, u64),
) -> bool {
    (exists|q: int| 0 <= q < base.len() && base[q] == e) || recorded_count(
        stocks,
        counts,
        e.0.compartment@,
        e.0.substance@,
        e.1,
    )
}

/// Every entry of `m` was in `base` or is a recorded count.
pub open spec fn counts_from(
    m: Seq<(RuleCoordinate, u64)>,
    base: Seq<(RuleCoordinate, u64)>,
    stocks: Seq<CompartmentStock>,
    counts: Seq<Seq<QuantumCount>>,
) -> bool {
    forall|p: int| 0 <= p < m.len() ==> #[trigger] count_entry_ok(base, stocks, counts, m[p])
}

/// Every first amount of a modelled substance in a stock has a count recorded under its
/// (compartment, substance) key.
pub open spec fn counts_cover(m: Seq<(RuleCoordinate, u64)>, members: Seq<Ident>, stocks: Seq<CompartmentStock>) -> bool {
    forall|i: int, t: int|
        0 <= i < stocks.len() && 0 <= t < members.len() && #[trigger] first_amount(stocks[i].stock.entries@, members[t]@)
            is Some ==> has_key(m, seq![stocks[i].compartment@, members[t]@])
}

/// Inserting an entry keeps every key and adds the entry's.
proof fn lemma_insert_keeps_keys(m: Seq<(RuleCoordinate, u64)>, m2: Seq<(RuleCoordinate, u64)>, pos: int, e: (RuleCoordinate, u64))
    requires
        0 <= pos <= m.len(),
        m2 == m.insert(pos, e),
    ensures
        forall|k: Seq<Seq<u8>>| #[trigger] has_key(m, k) ==> has_key(m2, k),
        has_key(m2, e.0.key()),
{
    assert(m2[pos] == e);
    assert forall|k: Seq<Seq<u8>>| #[trigger] has_key(m, k) implies has_key(m2, k) by {
        let q = choose|q: int| 0 <= q < m.len() && #[trigger] m[q].0.key() == k;
        if q < pos {
            assert(m2[q] == m[q]);
        } else {
            assert(m2[q + 1] == m[q]);
        }
    }
}

proof fn lemma_counts_from_insert(
    m: Seq<(RuleCoordinate, u64)>,
    m2: Seq<(RuleCoordinate, u64)>,
    pos: int,
    e: (RuleCoordinate, u64),
    base: Seq<(RuleCoordinate, u64)>,
    stocks: Seq<CompartmentStock>,
    counts: Seq<Seq<QuantumCount>>,
)
    requires
        counts_from(m, base, stocks, counts),
        0 <= pos <= m.len(),
        m2 == m.insert(pos, e),
        count_entry_ok(base, stocks, counts, e),
    ensures
        counts_from(m2, base, stocks, counts),
{
    assert forall|p: int| 0 <= p < m2.len() implies #[trigger] count_entry_ok(base, stocks, counts, m2[p]) by {
        if p < pos {
            assert(m2[p] == m[p]);
            assert(count_entry_ok(base, stocks, counts, m[p]));
        } else if p > pos {
            assert(m2[p] == m[p - 1]);
            assert(count_entry_ok(base, stocks, counts, m[p - 1]));
        } else {
            assert(m2[p] == e);
        }
    }
}

/// Counts the whole quanta of the initial stocks of one substance, recording each count.
#[verifier::loop_isolation(false)]
fn count_substance(
    member: &Ident,
    quantum_bits: u64,
    stocks: &InitialStocks,
    counts: &Vec<Vec<QuantumCount>>,
    recorded: &mut CanonicalMap<RuleCoordinate, u64>,
    Ghost(base): Ghost<Seq<(RuleCoordinate, u64)>>,
) -> (r: Result<u128, ModelArtifactError>)
    requires
        old(recorded).wf(),
        counts@.len() == stocks.entries@.len(),
        forall|i: int| 0 <= i < counts@.len() ==> (#[trigger] counts@[i])@.len() == stocks.entries@[i].stock.entries@.len(),
        counts_from(old(recorded)@, base, stocks.entries@, count_rows(counts@)),
    ensures
        final(recorded).wf(),
        counts_from(final(recorded)@, base, stocks.entries@, count_rows(counts@)),
        forall|k: Seq<Seq<u8>>| #[trigger] has_key(old(recorded)@, k) ==> has_key(final(recorded)@, k),
        r is Ok ==> forall|i: int|
            0 <= i < stocks.entries@.len() && #[trigger] first_amount(stocks.entries@[i].stock.entries@, member@) is Some
                ==> has_key(final(recorded)@, seq![stocks.entries@[i].compartment@, member@]),
        match r {
            Ok(t) => stock_total(stocks.entries@, count_rows(counts@), member@, quantum_bits, stocks.entries@.len() as int) == Ok::<nat, ArtifactErrorModel>(t as nat),
            Err(e) => stock_total(stocks.entries@, count_rows(counts@), member@, quantum_bits, stocks.entries@.len() as int) == Err::<nat, ArtifactErrorModel>(e@),
        },
{
    let ghost cs = count_rows(counts@);
    let ghost st = stocks.entries@;
    let mut total: u128 = 0;
    let mut i: usize = 0;
    while i < stocks.entries.len()
        invariant
            0 <= i <= st.len(),
            st == stocks.entries@,
            cs == count_rows(counts@),
            recorded.wf(),
            stock_total(st, cs, member@, quantum_bits, i as int) == Ok::<nat, ArtifactErrorModel>(total as nat),
            total <= i * 0xffff_ffff_ffff_ffffu128,
            counts_from(recorded@, base, st, cs),
            forall|k: Seq<Seq<u8>>| #[trigger] has_key(old(recorded)@, k) ==> has_key(recorded@, k),
            forall|i2: int|
                0 <= i2 < i && #[trigger] first_amount(st[i2].stock.entries@, member@) is Some ==> has_key(
                    recorded@,
                    seq![st[i2].compartment@, member@],
                ),
        decreases st.len() - i,
    {
        let stock = &stocks.entries[i];
        match find_amount(&stock.stock.entries, member) {
            None => {},
            Some(j) => {
                proof {
                    assert(cs[i as int] == counts@[i as int]@);
                }
                match counts[i][j] {
                    QuantumCount::Whole(c) => {
                        let ghost old_m = recorded@;
                        let key = RuleCoordinate { compartment: stock.compartment.clone(), substance: member.clone() };
                        let inserted = recorded.insert_new(key, c);
                        proof {
                            assert(recorded_count(st, cs, stock.compartment@, member@, c));
                            assert(count_entry_ok(base, st, cs, (key, c)));
                            if inserted {
                                let pos = choose|q: int| 0 <= q <= old_m.len() && recorded@ == old_m.insert(q, (key, c));
                                lemma_counts_from_insert(old_m, recorded@, pos, (key, c), base, st, cs);
                                lemma_insert_keeps_keys(old_m, recorded@, pos, (key, c));
                            }
                            assert(key.key() == seq![st[i as int].compartment@, member@]);
                            assert(has_key(recorded@, key.key()));
                            assert(total + c <= (i + 1) * 0xffff_ffff_ffff_ffffu128) by (nonlinear_arith)
                                requires
                                    total <= i * 0xffff_ffff_ffff_ffffu128,
                                    c <= 0xffff_ffff_ffff_ffffu64,
                            ;
                        }
                        total = total + c as u128;
                    },
                    QuantumCount::Ambiguous => {
                        proof {
                            lemma_stock_total_error(st, cs, member@, quantum_bits, i + 1, st.len() as int);
                        }
                        return Err(ModelArtifactError::AmbiguousInitialStock {
                            compartment: stock.compartment.clone(),
                            substance: member.clone(),
                            value_bits: stock.stock.entries[j].amount_bits,
                            quantum_bits,
                        });
                    },
                    QuantumCount::Misaligned => {
                        proof {
                            lemma_stock_total_error(st, cs, member@, quantum_bits, i + 1, st.len() as int);
                        }
                        return Err(ModelArtifactError::MisalignedInitialStock {
                            compartment: stock.compartment.clone(),
                            substance: member.clone(),
                            value_bits: stock.stock.entries[j].amount_bits,
                            quantum_bits,
                        });
                    },
                }
            },
        }
        i = i + 1;
    }
    Ok(total)
}

/// In a canonical map the unit of a substance is the one under its key.
proof fn lemma_unit_of(units: Seq<(Ident, (Ident, SubstanceUnit))>, p: int, s: Seq<u8>)
    requires
        sorted_keys(units),
        0 <= p < units.len(),
        units[p].0.key() == seq![s],
    ensures
        unit_of(units, s) == Some(p),
{
    let c = choose|c: int| 0 <= c < units.len() && (#[trigger] units[c]).0.key() == seq![s];
    if c != p {
        crate::canonical_map::lemma_sorted_keys_distinct(units, c, p);
    }
}

/// Counts the whole quanta of the initial stocks of every modelled substance, in registry
/// order, recording each stock's count.
#[verifier::loop_isolation(false)]
#[verifier::rlimit(30)]
pub fn count_quanta(
    registry: &SubstanceRegistry,
    units: &CanonicalMap<Ident, (Ident, SubstanceUnit)>,
    stocks: &InitialStocks,
    counts: &Vec<Vec<QuantumCount>>,
) -> (r: Result<CanonicalMap<RuleCoordinate, u64>, ModelArtifactError>)
    requires
        units.wf(),
        counts@.len() == stocks.entries@.len(),
        forall|i: int| 0 <= i < counts@.len() ==> (#[trigger] counts@[i])@.len() == stocks.entries@[i].stock.entries@.len(),
    ensures
        match r {
            Ok(m) => first_error(
                registry.members@,
                count_check(units@, stocks.entries@, count_rows(counts@)),
            ) == Ok::<(), ArtifactErrorModel>(()) && m.wf() && counts_from(
                m@,
                Seq::empty(),
                stocks.entries@,
                count_rows(counts@),
            ) && counts_cover(m@, registry.members@, stocks.entries@),
            Err(e) => first_error(
                registry.members@,
                count_check(units@, stocks.entries@, count_rows(counts@)),
            ) == Err::<(), ArtifactErrorModel>(e@),
        },
{
    let ghost cs = count_rows(counts@);
    let ghost st = stocks.entries@;
    let ghost members = registry.members@;
    let ghost check = count_check(units@, st, cs);
    let mut recorded: CanonicalMap<RuleCoordinate, u64> = CanonicalMap::new();
    let mut k: usize = 0;
    proof {
        assert(members.take(0) =~= Seq::<Ident>::empty());
    }
    while k < registry.members.len()
        invariant
            0 <= k <= members.len(),
            members == registry.members@,
            recorded.wf(),
            counts_from(recorded@, Seq::empty(), st, cs),
            first_error(members.take(k as int), check) == Ok::<(), ArtifactErrorModel>(()),
            forall|i: int, t: int|
                0 <= i < st.len() && 0 <= t < k && #[trigger] first_amount(st[i].stock.entries@, members[t]@) is Some
                    ==> has_key(recorded@, seq![st[i].compartment@, members[t]@]),
        decreases members.len() - k,
    {
        let member = &registry.members[k];
        proof {
            lemma_first_error_step(members, check, k as int);
        }
        let declaration = match units.get(member) {
            None => {
                proof {
                    if unit_of(units@, member@) is Some {
                        let p = choose|p: int| 0 <= p < units@.len() && (#[trigger] units@[p]).0.key() == seq![member@];
                        assert(has_key(units@, member.key()));
                    }
                    lemma_first_error_prefix(members, check, k + 1);
                }
                return Err(ModelArtifactError::MissingUnit { substance: member.clone() });
            },
            Some(d) => d,
        };
        proof {
            let p = choose|p: int| 0 <= p < units@.len() && #[trigger] units@[p].0.key() == member.key() && units@[p].1 == *declaration;
            lemma_unit_of(units@, p, member@);
        }
        let quantum_bits = declaration.1.quantum().value_bits();
        let total = match count_substance(member, quantum_bits, stocks, counts, &mut recorded, Ghost(Seq::empty())) {
            Err(e) => {
                proof {
                    lemma_first_error_prefix(members, check, k + 1);
                }
                return Err(e);
            },
            Ok(t) => t,
        };
        if total > 0x20_0000_0000_0000u128 {
            proof {
                lemma_first_error_prefix(members, check, k + 1);
            }
            return Err(ModelArtifactError::UncountableInitialTotal { substance: member.clone(), total_count: total, quantum_bits });
        }
        k = k + 1;
    }
    proof {
        assert(members.take(members.len() as int) =~= members);
    }
    Ok(recorded)
}

// ---------------------------------------------------------------------------------------------
// Projections
// ---------------------------------------------------------------------------------------------

/// What checking one projection gives: the artifact's versions, then its fact selectors.
pub open spec fn projection_check(versions: ModelVersions, topology: Topology, registry: SubstanceRegistry) -> spec_fn(
    ProjectionSpec,
) -> Result<(), ArtifactErrorModel> {
    |p: ProjectionSpec|
        if p.rule_ir_version != versions.spec_rule_ir() {
            Err(ArtifactErrorModel::ProjectionRuleIrVersionMismatch { projection: p.id@ })
        } else if p.numerical_semantics_version != versions.spec_numerical_semantics() {
            Err(ArtifactErrorModel::ProjectionNumericalVersionMismatch { projection: p.id@ })
        } else {
            selectors_outcome(p, topology, registry)
        }
}

/// Checks every projection in order.
#[verifier::loop_isolation(false)]
fn check_projections(
    projections: &ProjectionSet,
    versions: ModelVersions,
    topology: &Topology,
    registry: &SubstanceRegistry,
) -> (r: Result<(), ModelArtifactError>)
    ensures
        outcome_view(r) == first_error(projections.specifications@, projection_check(versions, *topology, *registry)),
{
    let ghost specs = projections.specifications@;
    let ghost check = projection_check(versions, *topology, *registry);
    let mut i: usize = 0;
    proof {
        assert(specs.take(0) =~= Seq::<ProjectionSpec>::empty());
    }
    while i < projections.specifications.len()
        invariant
            0 <= i <= specs.len(),
            specs == projections.specifications@,
            first_error(specs.take(i as int), check) == Ok::<(), ArtifactErrorModel>(()),
        decreases specs.len() - i,
    {
        let specification = &projections.specifications[i];
        proof {
            lemma_first_error_step(specs, check, i as int);
        }
        if specification.rule_ir_version != versions.rule_ir() {
            proof {
                lemma_first_error_prefix(specs, check, i + 1);
            }
            return Err(ModelArtifactError::ProjectionRuleIrVersionMismatch { projection: specification.id.clone() });
        }
        if specification.numerical_semantics_version != versions.numerical_semantics() {
            proof {
                lemma_first_error_prefix(specs, check, i + 1);
            }
            return Err(ModelArtifactError::ProjectionNumericalVersionMismatch { projection: specification.id.clone() });
        }
        match validate_projection_fact_selectors(specification, topology, registry) {
            Err(e) => {
                proof {
                    lemma_first_error_prefix(specs, check, i + 1);
                }
                return Err(e);
            },
            Ok(()) => {},
        }
        i = i + 1;
    }
    proof {
        assert(specs.take(specs.len() as int) =~= specs);
    }
    Ok(())
}

// ---------------------------------------------------------------------------------------------
// The builder
// ---------------------------------------------------------------------------------------------

/// The identities that a list keys its values by.
pub open spec fn ids_of<V>(src: Seq<V>, key: spec_fn(V) -> Seq<Seq<u8>>) -> Set<Seq<u8>> {
    Set::new(|x: Seq<u8>| exists|i: int| 0 <= i < src.len() && key(#[trigger] src[i]) == seq![x])
}

/// The identity keys of an arrangement are the identities its list keys its values by.
pub proof fn lemma_arranged_ids<V>(m: Seq<(Ident, V)>, src: Seq<V>, key: spec_fn(V) -> Seq<Seq<u8>>)
    requires
        arranges(m, src, key),
    ensures
        id_keys(m) == ids_of(src, key),
{
    assert forall|x: Seq<u8>| id_keys(m).contains(x) <==> ids_of(src, key).contains(x) by {
        if id_keys(m).contains(x) {
            let p = choose|p: int| 0 <= p < m.len() && (#[trigger] m[p]).0@ == x;
            assert(listed_value(src, m[p].1));
            let i = choose|i: int| 0 <= i < src.len() && src[i] == m[p].1;
            assert(key(src[i]) == m[p].0.key());
        }
        if ids_of(src, key).contains(x) {
            let i = choose|i: int| 0 <= i < src.len() && key(#[trigger] src[i]) == seq![x];
            assert(mapped_value(m, src[i]));
            let p = choose|p: int| 0 <= p < m.len() && m[p].1 == src[i];
            assert(m[p].0.key() == seq![m[p].0@]);
            lemma_single_key(m[p].0@, x);
        }
    }
    assert(id_keys(m) =~= ids_of(src, key));
}

/// Builder for a model artifact's optional collections and version selection.
pub struct ModelArtifactBuilder {
    topology: Topology,
    registry: SubstanceRegistry,
    initial_stocks: InitialStocks,
    calendar: FixedStepCalendar,
    horizon: RunHorizon,
    projections: Option<ProjectionSet>,
    forcings: Vec<ForcingSeries>,
    tables: Vec<InterpolationTable>,
    rules: Vec<RuleDefinition>,
    execution_bindings: ExecutionBindings,
    units: Vec<(Ident, SubstanceUnit)>,
    versions: ModelVersions,
}

impl ModelArtifactBuilder {
    pub closed spec fn spec_topology(&self) -> Topology {
        self.topology
    }

    pub closed spec fn spec_registry(&self) -> SubstanceRegistry {
        self.registry
    }

    pub closed spec fn spec_initial_stocks(&self) -> InitialStocks {
        self.initial_stocks
    }

    pub closed spec fn spec_calendar(&self) -> FixedStepCalendar {
        self.calendar
    }

    pub closed spec fn spec_horizon(&self) -> RunHorizon {
        self.horizon
    }

    pub closed spec fn spec_projections(&self) -> Option<ProjectionSet> {
        self.projections
    }

    pub closed spec fn spec_forcings(&self) -> Seq<ForcingSeries> {
        self.forcings@
    }

    pub closed spec fn spec_tables(&self) -> Seq<InterpolationTable> {
        self.tables@
    }

    pub closed spec fn spec_rules(&self) -> Seq<RuleDefinition> {
        self.rules@
    }

    pub closed spec fn spec_execution_bindings(&self) -> ExecutionBindings {
        self.execution_bindings
    }

    pub closed spec fn spec_units(&self) -> Seq<(Ident, SubstanceUnit)> {
        self.units@
    }

    pub closed spec fn spec_versions(&self) -> ModelVersions {
        self.versions
    }

    /// Sets the projection set (an explicitly empty one included).
    pub fn with_projections(self, projections: ProjectionSet) -> (r: Self)
        ensures
            r.spec_projections() == Some(projections),
            r.spec_topology() == self.spec_topology(),
            r.spec_registry() == self.spec_registry(),
            r.spec_initial_stocks() == self.spec_initial_stocks(),
            r.spec_calendar() == self.spec_calendar(),
            r.spec_horizon() == self.spec_horizon(),
            r.spec_forcings() == self.spec_forcings(),
            r.spec_tables() == self.spec_tables(),
            r.spec_rules() == self.spec_rules(),
            r.spec_execution_bindings() == self.spec_execution_bindings(),
            r.spec_units() == self.spec_units(),
            r.spec_versions() == self.spec_versions(),
    {
        let mut b = self;
        b.projections = Some(projections);
        b
    }

    /// Replaces the forcing series.
    pub fn with_forcings(self, forcings: Vec<ForcingSeries>) -> (r: Self)
        ensures
            r.spec_forcings() == forcings@,
            r.spec_topology() == self.spec_topology(),
            r.spec_registry() == self.spec_registry(),
            r.spec_initial_stocks() == self.spec_initial_stocks(),
            r.spec_calendar() == self.spec_calendar(),
            r.spec_horizon() == self.spec_horizon(),
            r.spec_projections() == self.spec_projections(),
            r.spec_tables() == self.spec_tables(),
            r.spec_rules() == self.spec_rules(),
            r.spec_execution_bindings() == self.spec_execution_bindings(),
            r.spec_units() == self.spec_units(),
            r.spec_versions() == self.spec_versions(),
    {
        let mut b = self;
        b.forcings = forcings;
        b
    }

    /// Replaces the interpolation tables.
    pub fn with_tables(self, tables: Vec<InterpolationTable>) -> (r: Self)
        ensures
            r.spec_tables() == tables@,
            r.spec_topology() == self.spec_topology(),
            r.spec_registry() == self.spec_registry(),
            r.spec_initial_stocks() == self.spec_initial_stocks(),
            r.spec_calendar() == self.spec_calendar(),
            r.spec_horizon() == self.spec_horizon(),
            r.spec_projections() == self.spec_projections(),
            r.spec_forcings() == self.spec_forcings(),
            r.spec_rules() == self.spec_rules(),
            r.spec_execution_bindings() == self.spec_execution_bindings(),
            r.spec_units() == self.spec_units(),
            r.spec_versions() == self.spec_versions(),
    {
        let mut b = self;
        b.tables = tables;
        b
    }

    /// Replaces the rules.
    pub fn with_rules(self, rules: Vec<RuleDefinition>) -> (r: Self)
        ensures
            r.spec_rules() == rules@,
            r.spec_topology() == self.spec_topology(),
            r.spec_registry() == self.spec_registry(),
            r.spec_initial_stocks() == self.spec_initial_stocks(),
            r.spec_calendar() == self.spec_calendar(),
            r.spec_horizon() == self.spec_horizon(),
            r.spec_projections() == self.spec_projections(),
            r.spec_forcings() == self.spec_forcings(),
            r.spec_tables() == self.spec_tables(),
            r.spec_execution_bindings() == self.spec_execution_bindings(),
            r.spec_units() == self.spec_units(),
            r.spec_versions() == self.spec_versions(),
    {
        let mut b = self;
        b.rules = rules;
        b
    }

    /// Replaces the execution bindings.
    pub fn with_execution_bindings(self, bindings: ExecutionBindings) -> (r: Self)
        ensures
            r.spec_execution_bindings() == bindings,
            r.spec_topology() == self.spec_topology(),
            r.spec_registry() == self.spec_registry(),
            r.spec_initial_stocks() == self.spec_initial_stocks(),
            r.spec_calendar() == self.spec_calendar(),
            r.spec_horizon() == self.spec_horizon(),
            r.spec_projections() == self.spec_projections(),
            r.spec_forcings() == self.spec_forcings(),
            r.spec_tables() == self.spec_tables(),
            r.spec_rules() == self.spec_rules(),
            r.spec_units() == self.spec_units(),
            r.spec_versions() == self.spec_versions(),
    {
        let mut b = self;
        b.execution_bindings = bindings;
        b
    }

    /// Replaces the unit declarations.
    pub fn with_units(self, units: Vec<(Ident, SubstanceUnit)>) -> (r: Self)
        ensures
            r.spec_units() == units@,
            r.spec_topology() == self.spec_topology(),
            r.spec_registry() == self.spec_registry(),
            r.spec_initial_stocks() == self.spec_initial_stocks(),
            r.spec_calendar() == self.spec_calendar(),
            r.spec_horizon() == self.spec_horizon(),
            r.spec_projections() == self.spec_projections(),
            r.spec_forcings() == self.spec_forcings(),
            r.spec_tables() == self.spec_tables(),
            r.spec_rules() == self.spec_rules(),
            r.spec_execution_bindings() == self.spec_execution_bindings(),
            r.spec_versions() == self.spec_versions(),
    {
        let mut b = self;
        b.units = units;
        b
    }

    /// Selects the protocol versions.
    pub fn with_versions(self, versions: ModelVersions) -> (r: Self)
        ensures
            r.spec_versions() == versions,
            r.spec_topology() == self.spec_topology(),
            r.spec_registry() == self.spec_registry(),
            r.spec_initial_stocks() == self.spec_initial_stocks(),
            r.spec_calendar() == self.spec_calendar(),
            r.spec_horizon() == self.spec_horizon(),
            r.spec_projections() == self.spec_projections(),
            r.spec_forcings() == self.spec_forcings(),
            r.spec_tables() == self.spec_tables(),
            r.spec_rules() == self.spec_rules(),
            r.spec_execution_bindings() == self.spec_execution_bindings(),
            r.spec_units() == self.spec_units(),
    {
        let mut b = self;
        b.versions = versions;
        b
    }

    /// Concise alias for [`Self::with_execution_bindings`].
    pub fn with_bindings(self, bindings: ExecutionBindings) -> (r: Self)
        ensures
            r.spec_execution_bindings() == bindings,
            r.spec_topology() == self.spec_topology(),
            r.spec_registry() == self.spec_registry(),
            r.spec_initial_stocks() == self.spec_initial_stocks(),
            r.spec_calendar() == self.spec_calendar(),
            r.spec_horizon() == self.spec_horizon(),
            r.spec_projections() == self.spec_projections(),
            r.spec_forcings() == self.spec_forcings(),
            r.spec_tables() == self.spec_tables(),
            r.spec_rules() == self.spec_rules(),
            r.spec_units() == self.spec_units(),
            r.spec_versions() == self.spec_versions(),
    {
        self.with_execution_bindings(bindings)
    }

    /// Replaces transfer bindings while keeping the rule-input bindings; both are held in
    /// canonical order of their coordinates.
    ///
    /// Fails when either collection binds one coordinate twice.
    pub fn with_transfer_bindings(self, bindings: Vec<TransferBranchBinding>) -> (r: Result<Self, ExecutionBindingsError>)
        ensures
            match r {
                Ok(b) => {
                    &&& b.spec_execution_bindings().wf()
                    &&& canonical_order_of(b.spec_execution_bindings().transfer_bindings@, bindings@, crate::execution_bindings::transfer_key())
                    &&& canonical_order_of(
                        b.spec_execution_bindings().input_bindings@,
                        self.spec_execution_bindings().input_bindings@,
                        crate::execution_bindings::input_key(),
                    )
                    &&& b.spec_topology() == self.spec_topology()
                    &&& b.spec_registry() == self.spec_registry()
                    &&& b.spec_initial_stocks() == self.spec_initial_stocks()
                    &&& b.spec_calendar() == self.spec_calendar()
                    &&& b.spec_horizon() == self.spec_horizon()
                    &&& b.spec_projections() == self.spec_projections()
                    &&& b.spec_forcings() == self.spec_forcings()
                    &&& b.spec_tables() == self.spec_tables()
                    &&& b.spec_rules() == self.spec_rules()
                    &&& b.spec_units() == self.spec_units()
                    &&& b.spec_versions() == self.spec_versions()
                },
                Err(e) => (!crate::execution_bindings::distinct_transfer_bindings(bindings@)
                    || !crate::execution_bindings::distinct_input_bindings(self.spec_execution_bindings().input_bindings@))
                    && crate::execution_bindings::bindings_error(bindings@, self.spec_execution_bindings().input_bindings@, e),
            },
    {
        let mut b = self;
        let mut current = ExecutionBindings::empty();
        std::mem::swap(&mut current, &mut b.execution_bindings);
        let ExecutionBindings { transfer_bindings: _, input_bindings } = current;
        match ExecutionBindings::new(bindings, input_bindings) {
            Ok(bound) => {
                b.execution_bindings = bound;
                Ok(b)
            },
            Err(e) => Err(e),
        }
    }

    /// Replaces rule-input bindings while keeping the transfer bindings; both are held in
    /// canonical order of their coordinates.
    ///
    /// Fails when either collection binds one coordinate twice.
    pub fn with_rule_input_bindings(self, bindings: Vec<RuleInputBinding>) -> (r: Result<Self, ExecutionBindingsError>)
        ensures
            match r {
                Ok(b) => {
                    &&& b.spec_execution_bindings().wf()
                    &&& canonical_order_of(b.spec_execution_bindings().input_bindings@, bindings@, crate::execution_bindings::input_key())
                    &&& canonical_order_of(
                        b.spec_execution_bindings().transfer_bindings@,
                        self.spec_execution_bindings().transfer_bindings@,
                        crate::execution_bindings::transfer_key(),
                    )
                    &&& b.spec_topology() == self.spec_topology()
                    &&& b.spec_registry() == self.spec_registry()
                    &&& b.spec_initial_stocks() == self.spec_initial_stocks()
                    &&& b.spec_calendar() == self.spec_calendar()
                    &&& b.spec_horizon() == self.spec_horizon()
                    &&& b.spec_projections() == self.spec_projections()
                    &&& b.spec_forcings() == self.spec_forcings()
                    &&& b.spec_tables() == self.spec_tables()
                    &&& b.spec_rules() == self.spec_rules()
                    &&& b.spec_units() == self.spec_units()
                    &&& b.spec_versions() == self.spec_versions()
                },
                Err(e) => (!crate::execution_bindings::distinct_transfer_bindings(self.spec_execution_bindings().transfer_bindings@)
                    || !crate::execution_bindings::distinct_input_bindings(bindings@))
                    && crate::execution_bindings::bindings_error(self.spec_execution_bindings().transfer_bindings@, bindings@, e),
            },
    {
        let mut b = self;
        let mut current = ExecutionBindings::empty();
        std::mem::swap(&mut current, &mut b.execution_bindings);
        let ExecutionBindings { transfer_bindings, input_bindings: _ } = current;
        match ExecutionBindings::new(transfer_bindings, bindings) {
            Ok(bound) => {
                b.execution_bindings = bound;
                Ok(b)
            },
            Err(e) => Err(e),
        }
    }
}

impl ModelArtifact {
    /// Starts a builder with the structurally bound components.
    pub fn builder(
        topology: Topology,
        registry: SubstanceRegistry,
        initial_stocks: InitialStocks,
        calendar: FixedStepCalendar,
        horizon: RunHorizon,
    ) -> (r: ModelArtifactBuilder)
        ensures
            r.spec_topology() == topology,
            r.spec_registry() == registry,
            r.spec_initial_stocks() == initial_stocks,
            r.spec_calendar() == calendar,
            r.spec_horizon() == horizon,
            r.spec_projections() is None,
            r.spec_forcings().len() == 0,
            r.spec_tables().len() == 0,
            r.spec_rules().len() == 0,
            r.spec_execution_bindings().wf(),
            r.spec_execution_bindings().transfer_bindings@.len() == 0,
            r.spec_execution_bindings().input_bindings@.len() == 0,
            r.spec_units().len() == 0,
            r.spec_versions().spec_rule_ir() == crate::versions::RuleIrVersion::V1,
            r.spec_versions().spec_interpreter() == crate::versions::InterpreterVersion::V1,
            r.spec_versions().spec_numerical_semantics() == NumericalSemanticsVersion::V1,
            r.spec_versions().spec_canonical_encoding() == crate::versions::CanonicalEncodingVersion::V1,
    {
        ModelArtifactBuilder {
            topology,
            registry,
            initial_stocks,
            calendar,
            horizon,
            projections: None,
            forcings: Vec::new(),
            tables: Vec::new(),
            rules: Vec::new(),
            execution_bindings: ExecutionBindings::empty(),
            units: Vec::new(),
            versions: ModelVersions::default(),
        }
    }
}

// ---------------------------------------------------------------------------------------------
// Building
// ---------------------------------------------------------------------------------------------

/// Whether `r` failed with an error whose view is `e`.
pub open spec fn fails_with(r: Result<ModelArtifact, ModelArtifactError>, e: ArtifactErrorModel) -> bool {
    match r {
        Err(x) => x@ == e,
        Ok(_) => false,
    }
}

/// Whether no nonempty set of endpoints is fed entirely from within itself.
pub open spec fn graph_orders(topology: Topology, bindings: ExecutionBindings) -> bool {
    forall|s: Set<Seq<u8>>| #[trigger] sustaining_ids(topology, bindings, s) ==> s =~= Set::<Seq<u8>>::empty()
}

/// The checks of a builder that precede the execution bindings: the stocks' snapshots, the
/// projections, the forcings, the tables and the rules, each in order.
pub open spec fn early_outcome(b: ModelArtifactBuilder) -> Result<(), ArtifactErrorModel> {
    if !b.spec_initial_stocks().topology.same(&b.spec_topology()) {
        Err(ArtifactErrorModel::InitialStocksTopologyMismatch)
    } else if !b.spec_initial_stocks().registry.same(&b.spec_registry()) {
        Err(ArtifactErrorModel::InitialStocksRegistryMismatch)
    } else {
        match b.spec_projections() {
            None => Err(ArtifactErrorModel::MissingProjectionSet),
            Some(p) => and_then(
                first_error(p.specifications@, projection_check(b.spec_versions(), b.spec_topology(), b.spec_registry())),
                and_then(
                    first_error(positions(b.spec_forcings().len()), forcing_check(b.spec_forcings(), b.spec_horizon())),
                    and_then(
                        first_error(
                            positions(b.spec_tables().len()),
                            table_check(b.spec_tables(), b.spec_versions().spec_numerical_semantics()),
                        ),
                        first_error(
                            positions(b.spec_rules().len()),
                            rule_check(
                                b.spec_rules(),
                                b.spec_topology(),
                                b.spec_registry(),
                                b.spec_versions(),
                                ids_of(b.spec_forcings(), forcing_key()),
                                ids_of(b.spec_tables(), table_key()),
                                p.specifications@,
                            ),
                        ),
                    ),
                ),
            ),
        }
    }
}

/// What the last checks and the identity give, for the rules in canonical order `m`: the
/// execution bindings, the execution graph, the carriers, the units, the initial counts, then
/// the canonical encoding.
pub open spec fn late_holds(
    b: ModelArtifactBuilder,
    p: ProjectionSet,
    fm: Seq<(Ident, ForcingSeries)>,
    tm: Seq<(Ident, InterpolationTable)>,
    m: Seq<(RuleCoordinate, RuleDefinition)>,
    counts: Seq<Seq<QuantumCount>>,
    r: Result<ModelArtifact, ModelArtifactError>,
) -> bool {
    match binding_stages_outcome(
        m,
        b.spec_execution_bindings(),
        b.spec_topology(),
        ids_of(b.spec_forcings(), forcing_key()),
        ids_of(b.spec_tables(), table_key()),
        p.specifications@,
    ) {
        Err(e) => fails_with(r, e),
        Ok(()) => if !graph_orders(b.spec_topology(), b.spec_execution_bindings()) {
            match r {
                Err(x) => cyclic_report(b.spec_topology(), b.spec_execution_bindings(), x@),
                Ok(_) => false,
            }
        } else {
            match first_error(m, carrier_check(b.spec_registry(), m, b.spec_execution_bindings())) {
                Err(e) => fails_with(r, e),
                Ok(()) => match first_error(positions(b.spec_units().len()), unit_check(b.spec_units(), b.spec_registry())) {
                    Err(e) => fails_with(r, e),
                    Ok(()) => exists|um: Seq<(Ident, (Ident, SubstanceUnit))>|
                        arranges(um, b.spec_units(), unit_key()) && keyed_by(um, unit_substance()) && #[trigger] final_holds(
                            b,
                            p,
                            fm,
                            tm,
                            m,
                            um,
                            counts,
                            r,
                        ),
                },
            }
        }
    }
}

/// What counting the initial stocks and deriving the identity give.
pub open spec fn final_holds(
    b: ModelArtifactBuilder,
    p: ProjectionSet,
    fm: Seq<(Ident, ForcingSeries)>,
    tm: Seq<(Ident, InterpolationTable)>,
    m: Seq<(RuleCoordinate, RuleDefinition)>,
    um: Seq<(Ident, (Ident, SubstanceUnit))>,
    counts: Seq<Seq<QuantumCount>>,
    r: Result<ModelArtifact, ModelArtifactError>,
) -> bool {
    match first_error(b.spec_registry().members@, count_check(um, b.spec_initial_stocks().entries@, counts)) {
        Err(e) => fails_with(r, e),
        Ok(()) => match r {
            Ok(a) => {
                &&& a.wf()
                &&& a.spec_topology() == b.spec_topology()
                &&& a.spec_registry() == b.spec_registry()
                &&& a.spec_initial_stocks() == b.spec_initial_stocks()
                &&& counts_from(a.spec_initial_quantum_counts(), Seq::empty(), b.spec_initial_stocks().entries@, counts)
                &&& counts_cover(a.spec_initial_quantum_counts(), b.spec_registry().members@, b.spec_initial_stocks().entries@)
                &&& a.spec_projections() == p
                &&& a.spec_calendar() == b.spec_calendar()
                &&& a.spec_horizon() == b.spec_horizon()
                &&& a.spec_forcings() == fm
                &&& a.spec_tables() == tm
                &&& a.spec_rules() == m
                &&& a.spec_execution_bindings() == b.spec_execution_bindings()
                &&& a.spec_units() == um
                &&& a.spec_versions() == b.spec_versions()
            },
            Err(x) => match x@ {
                ArtifactErrorModel::CanonicalEncoding(ce) => spec_encode(
                    0x0020,
                    content_payload(
                        b.spec_versions(),
                        b.spec_topology(),
                        b.spec_registry(),
                        b.spec_initial_stocks(),
                        b.spec_calendar(),
                        b.spec_horizon(),
                        p,
                        fm,
                        tm,
                        m,
                        b.spec_execution_bindings(),
                        um,
                    ),
                ) == Err::<Seq<u8>, crate::canonical_encoding::CanonicalEncodingError>(ce),
                _ => false,
            },
        },
    }
}

/// What building `b` with the initial counts `counts` gives: the first failing early check,
/// or, for the canonical arrangements of its forcings, tables and rules, what the later checks
/// and the identity give.
pub open spec fn build_outcome(
    b: ModelArtifactBuilder,
    counts: Seq<Seq<QuantumCount>>,
    r: Result<ModelArtifact, ModelArtifactError>,
) -> bool {
    match early_outcome(b) {
        Err(e) => fails_with(r, e),
        Ok(()) => exists|
            fm: Seq<(Ident, ForcingSeries)>,
            tm: Seq<(Ident, InterpolationTable)>,
            m: Seq<(RuleCoordinate, RuleDefinition)>,
        |
            arranges(fm, b.spec_forcings(), forcing_key()) && keyed_by(fm, forcing_id()) && arranges(
                tm,
                b.spec_tables(),
                table_key(),
            ) && keyed_by(tm, table_id()) && arranges(m, b.spec_rules(), rule_key()) && keyed_by(m, rule_coordinate())
                && #[trigger] late_holds(
                b,
                b.spec_projections()->Some_0,
                fm,
                tm,
                m,
                counts,
                r,
            ),
    }
}

impl ModelArtifactBuilder {
    /// Validates cross-component bindings, canonicalises the complete value, and hashes it.
    ///
    /// `counts` holds, for each initial stock entry and each of its amounts, how that amount
    /// relates to whole multiples of its substance's quantum; only the first amount of each
    /// substance in a stock is consulted. The artifact's initial whole-quantum counts are the
    /// whole counts recorded there: nothing here ties them to the binary64 stock values, which
    /// the caller classifies, and they are not part of the canonical bytes, so the digest does
    /// not cover them.
    #[verifier::rlimit(50)]
    pub fn build(self, counts: &Vec<Vec<QuantumCount>>) -> (r: Result<ModelArtifact, ModelArtifactError>)
        requires
            self.spec_topology().wf(),
            self.spec_execution_bindings().wf(),
            forall|i: int| 0 <= i < self.spec_rules().len() ==> (#[trigger] self.spec_rules()[i]).wf(),
            counts@.len() == self.spec_initial_stocks().entries@.len(),
            forall|i: int|
                0 <= i < counts@.len() ==> (#[trigger] counts@[i])@.len() == self.spec_initial_stocks().entries@[i].stock.entries@.len(),
        ensures
            build_outcome(self, count_rows(counts@), r),
    {
        let ghost b = self;
        let ghost cs = count_rows(counts@);
        let ModelArtifactBuilder {
            topology,
            registry,
            initial_stocks,
            calendar,
            horizon,
            projections,
            forcings,
            tables,
            rules,
            execution_bindings,
            units,
            versions,
        } = self;
        if !initial_stocks.topology.same_as(&topology) {
            return Err(ModelArtifactError::InitialStocksTopologyMismatch);
        }
        if !initial_stocks.registry.same_as(&registry) {
            return Err(ModelArtifactError::InitialStocksRegistryMismatch);
        }
        let projections = match projections {
            Some(p) => p,
            None => {
                return Err(ModelArtifactError::MissingProjectionSet);
            },
        };
        match check_projections(&projections, versions, &topology, &registry) {
            Err(e) => {
                return Err(e);
            },
            Ok(()) => {},
        }
        let forcings = match collect_forcings(forcings, horizon) {
            Err(e) => {
                return Err(e);
            },
            Ok(m) => m,
        };
        let tables = match collect_tables(tables, versions.numerical_semantics()) {
            Err(e) => {
                return Err(e);
            },
            Ok(m) => m,
        };
        proof {
            lemma_arranged_ids(forcings@, b.spec_forcings(), forcing_key());
            lemma_arranged_ids(tables@, b.spec_tables(), table_key());
        }
        let rules = match collect_rules(rules, &topology, &registry, versions, &forcings, &tables, &projections) {
            Err(e) => {
                return Err(e);
            },
            Ok(m) => m,
        };
        let ghost fm = forcings@;
        let ghost tm = tables@;
        let ghost m = rules@;
        proof {
            assert(early_outcome(b) == Ok::<(), ArtifactErrorModel>(()));
            assert forall|i: int| 0 <= i < m.len() implies declares(topology.endpoints@, (#[trigger] m[i]).0.compartment@) by {
                assert(listed_value(b.spec_rules(), m[i].1));
                let j = choose|j: int| 0 <= j < b.spec_rules().len() && b.spec_rules()[j] == m[i].1;
                assert(m[i].0.key() == rule_key()(m[i].1));
                crate::binding_validation::lemma_coordinate_key(m[i].0, m[i].1.spec_compartment()@, m[i].1.spec_substance()@);
                assert(positions(b.spec_rules().len())[j] == j);
                lemma_first_error_all_ok(positions(b.spec_rules().len()), rule_check(
                    b.spec_rules(),
                    topology,
                    registry,
                    versions,
                    ids_of(b.spec_forcings(), forcing_key()),
                    ids_of(b.spec_tables(), table_key()),
                    projections.specifications@,
                ), j);
            }
            assert forall|i: int| 0 <= i < m.len() implies (#[trigger] m[i]).1.wf() by {
                assert(listed_value(b.spec_rules(), m[i].1));
            }
        }
        let r = build_late(
            Ghost(b),
            topology,
            registry,
            initial_stocks,
            calendar,
            horizon,
            projections,
            forcings,
            tables,
            rules,
            execution_bindings,
            units,
            versions,
            counts,
        );
        proof {
            assert(late_holds(b, b.spec_projections()->Some_0, fm, tm, m, cs, r));
        }
        r
    }
}

/// The encoding of a forcing series.
pub open spec fn forcing_encoding() -> spec_fn(ForcingSeries) -> Emitted {
    |f: ForcingSeries| forcing_emit(f)
}

/// The encoding of an interpolation table.
pub open spec fn table_encoding() -> spec_fn(InterpolationTable) -> Emitted {
    |t: InterpolationTable| table_emit(t)
}

/// The encoding of a rule.
pub open spec fn rule_encoding() -> spec_fn(RuleDefinition) -> Emitted {
    |r: RuleDefinition| rule_emit(r)
}

/// The encoding of a unit declaration.
pub open spec fn unit_encoding() -> spec_fn((Ident, SubstanceUnit)) -> Emitted {
    |u: (Ident, SubstanceUnit)| unit_emitter()((u.0, u))
}

/// The identity of a built artifact does not depend on the order in which its forcings, tables,
/// rules and unit declarations were authored. Builders whose fixed components have the same
/// encodings, whose execution bindings hold the same bindings, and whose forcings, tables,
/// rules and units correspond one to one by key and encoding, in any order, build artifacts,
/// when both build, with the same canonical bytes and the same digest, holding rules with the
/// same encodings in the same canonical order.
pub proof fn lemma_authored_order_does_not_change_identity(
    b1: ModelArtifactBuilder,
    b2: ModelArtifactBuilder,
    counts1: Seq<Seq<QuantumCount>>,
    counts2: Seq<Seq<QuantumCount>>,
    a1: ModelArtifact,
    a2: ModelArtifact,
)
    requires
        b1.spec_versions() == b2.spec_versions(),
        topology_emit(b1.spec_topology()) == topology_emit(b2.spec_topology()),
        registry_emit(b1.spec_registry()) == registry_emit(b2.spec_registry()),
        initial_stocks_emit(b1.spec_initial_stocks()) == initial_stocks_emit(b2.spec_initial_stocks()),
        b1.spec_calendar() == b2.spec_calendar(),
        b1.spec_horizon() == b2.spec_horizon(),
        b1.spec_projections() == b2.spec_projections(),
        b1.spec_execution_bindings().transfer_bindings@ == b2.spec_execution_bindings().transfer_bindings@,
        b1.spec_execution_bindings().input_bindings@ == b2.spec_execution_bindings().input_bindings@,
        same_encoded_values(b1.spec_forcings(), b2.spec_forcings(), forcing_key(), forcing_encoding()),
        same_encoded_values(b1.spec_tables(), b2.spec_tables(), table_key(), table_encoding()),
        same_encoded_values(b1.spec_rules(), b2.spec_rules(), rule_key(), rule_encoding()),
        same_encoded_values(b1.spec_units(), b2.spec_units(), unit_key(), unit_encoding()),
        build_outcome(b1, counts1, Ok(a1)),
        build_outcome(b2, counts2, Ok(a2)),
    ensures
        a1.spec_canonical_bytes() == a2.spec_canonical_bytes(),
        a1.spec_digest().spec_bytes() == a2.spec_digest().spec_bytes(),
        same_entry_encodings(a1.spec_rules(), a2.spec_rules(), rule_encoding()),
{
    let p = b1.spec_projections()->Some_0;
    let (fm1, tm1, m1) = choose|
        fm: Seq<(Ident, ForcingSeries)>,
        tm: Seq<(Ident, InterpolationTable)>,
        m: Seq<(RuleCoordinate, RuleDefinition)>,
    |
        arranges(fm, b1.spec_forcings(), forcing_key()) && keyed_by(fm, forcing_id()) && arranges(
            tm,
            b1.spec_tables(),
            table_key(),
        ) && keyed_by(tm, table_id()) && arranges(m, b1.spec_rules(), rule_key()) && keyed_by(m, rule_coordinate())
            && #[trigger] late_holds(b1, p, fm, tm, m, counts1, Ok(a1));
    let (fm2, tm2, m2) = choose|
        fm: Seq<(Ident, ForcingSeries)>,
        tm: Seq<(Ident, InterpolationTable)>,
        m: Seq<(RuleCoordinate, RuleDefinition)>,
    |
        arranges(fm, b2.spec_forcings(), forcing_key()) && keyed_by(fm, forcing_id()) && arranges(
            tm,
            b2.spec_tables(),
            table_key(),
        ) && keyed_by(tm, table_id()) && arranges(m, b2.spec_rules(), rule_key()) && keyed_by(m, rule_coordinate())
            && #[trigger] late_holds(b2, p, fm, tm, m, counts2, Ok(a2));
    let um1 = choose|um: Seq<(Ident, (Ident, SubstanceUnit))>|
        arranges(um, b1.spec_units(), unit_key()) && keyed_by(um, unit_substance()) && #[trigger] final_holds(
            b1,
            p,
            fm1,
            tm1,
            m1,
            um,
            counts1,
            Ok(a1),
        );
    let um2 = choose|um: Seq<(Ident, (Ident, SubstanceUnit))>|
        arranges(um, b2.spec_units(), unit_key()) && keyed_by(um, unit_substance()) && #[trigger] final_holds(
            b2,
            p,
            fm2,
            tm2,
            m2,
            um,
            counts2,
            Ok(a2),
        );
    assert(a1.wf() && a1.spec_forcings() == fm1 && a1.spec_tables() == tm1 && a1.spec_rules() == m1 && a1.spec_units() == um1);
    assert(a2.wf() && a2.spec_forcings() == fm2 && a2.spec_tables() == tm2 && a2.spec_rules() == m2 && a2.spec_units() == um2);
    lemma_arrangement_ignores_listing_order(fm1, fm2, b1.spec_forcings(), b2.spec_forcings(), forcing_key(), forcing_encoding());
    lemma_arrangement_ignores_listing_order(tm1, tm2, b1.spec_tables(), b2.spec_tables(), table_key(), table_encoding());
    lemma_arrangement_ignores_listing_order(m1, m2, b1.spec_rules(), b2.spec_rules(), rule_key(), rule_encoding());
    lemma_arrangement_ignores_listing_order(um1, um2, b1.spec_units(), b2.spec_units(), unit_key(), unit_encoding());
    assert forall|q: int| 0 <= q < fm1.len() implies forcing_entry_emitter()(#[trigger] fm1[q]) == forcing_entry_emitter()(fm2[q]) by {
        assert(forcing_encoding()(fm1[q].1) == forcing_encoding()(fm2[q].1));
    }
    assert forall|q: int| 0 <= q < tm1.len() implies table_entry_emitter()(#[trigger] tm1[q]) == table_entry_emitter()(tm2[q]) by {
        assert(table_encoding()(tm1[q].1) == table_encoding()(tm2[q].1));
    }
    assert forall|q: int| 0 <= q < m1.len() implies rule_entry_emitter()(#[trigger] m1[q]) == rule_entry_emitter()(m2[q]) by {
        assert(rule_encoding()(m1[q].1) == rule_encoding()(m2[q].1));
    }
    assert forall|q: int| 0 <= q < um1.len() implies unit_emitter()(#[trigger] um1[q]) == unit_emitter()(um2[q]) by {
        assert(unit_encoding()(um1[q].1) == unit_encoding()(um2[q].1));
    }
    lemma_emit_each_pointwise(fm1, fm2, forcing_entry_emitter());
    lemma_emit_each_pointwise(tm1, tm2, table_entry_emitter());
    lemma_emit_each_pointwise(m1, m2, rule_entry_emitter());
    lemma_emit_each_pointwise(um1, um2, unit_emitter());
    assert(a1.artifact_payload() == a2.artifact_payload());
}

/// Everything passes in a sequence of checks that passes.
pub proof fn lemma_first_error_all_ok<T>(s: Seq<T>, check: spec_fn(T) -> Result<(), ArtifactErrorModel>, i: int)
    requires
        first_error(s, check) is Ok,
        0 <= i < s.len(),
    ensures
        check(s[i]) is Ok,
    decreases s.len(),
{
    if i == s.len() - 1 {
        assert(s.last() == s[i]);
    } else {
        lemma_first_error_all_ok(s.drop_last(), check, i);
        assert(s.drop_last()[i] == s[i]);
    }
}

/// The checks after the rules, then the identity.
#[verifier::rlimit(50)]
fn build_late(
    Ghost(b): Ghost<ModelArtifactBuilder>,
    topology: Topology,
    registry: SubstanceRegistry,
    initial_stocks: InitialStocks,
    calendar: FixedStepCalendar,
    horizon: RunHorizon,
    projections: ProjectionSet,
    forcings: CanonicalMap<Ident, ForcingSeries>,
    tables: CanonicalMap<Ident, InterpolationTable>,
    rules: CanonicalMap<RuleCoordinate, RuleDefinition>,
    execution_bindings: ExecutionBindings,
    units: Vec<(Ident, SubstanceUnit)>,
    versions: ModelVersions,
    counts: &Vec<Vec<QuantumCount>>,
) -> (r: Result<ModelArtifact, ModelArtifactError>)
    requires
        topology == b.spec_topology(),
        registry == b.spec_registry(),
        initial_stocks == b.spec_initial_stocks(),
        calendar == b.spec_calendar(),
        horizon == b.spec_horizon(),
        execution_bindings == b.spec_execution_bindings(),
        units@ == b.spec_units(),
        versions == b.spec_versions(),
        topology.wf(),
        execution_bindings.wf(),
        forcings.wf(),
        tables.wf(),
        rules.wf(),
        id_keys(forcings@) == ids_of(b.spec_forcings(), forcing_key()),
        id_keys(tables@) == ids_of(b.spec_tables(), table_key()),
        forall|i: int| 0 <= i < rules@.len() ==> declares(topology.endpoints@, (#[trigger] rules@[i]).0.compartment@),
        forall|i: int| 0 <= i < rules@.len() ==> (#[trigger] rules@[i]).1.wf(),
        counts@.len() == initial_stocks.entries@.len(),
        forall|i: int| 0 <= i < counts@.len() ==> (#[trigger] counts@[i])@.len() == initial_stocks.entries@[i].stock.entries@.len(),
    ensures
        late_holds(b, projections, forcings@, tables@, rules@, count_rows(counts@), r),
{
    let ghost cs = count_rows(counts@);
    let ghost fm = forcings@;
    let ghost tm = tables@;
    let ghost m = rules@;
    let ghost p = projections;
    match validate_execution_bindings(&execution_bindings, &rules, &topology, &forcings, &tables, &projections) {
        Err(e) => {
            proof {
                if binding_stages_outcome(m, execution_bindings, topology, id_keys(fm), id_keys(tm), p.specifications@) is Ok {
                    assert(cyclic_report(topology, execution_bindings, e@));
                    if graph_orders(topology, execution_bindings) {
                        let bl = e@->CyclicExecutionBindings_blocked_compartments;
                        assert(sustaining_ids(topology, execution_bindings, bl.to_set()));
                        assert(bl.to_set() =~= Set::<Seq<u8>>::empty());
                        assert(bl.to_set().contains(bl[0]));
                    }
                }
            }
            return Err(e);
        },
        Ok(()) => {},
    }
    match validate_carrier_partitions(&rules, &registry, &execution_bindings) {
        Err(e) => {
            return Err(e);
        },
        Ok(()) => {},
    }
    let units = match collect_units(units, &registry) {
        Err(e) => {
            return Err(e);
        },
        Ok(u) => u,
    };
    let ghost um = units@;
    let quantum_counts = match count_quanta(&registry, &units, &initial_stocks, counts) {
        Err(e) => {
            proof {
                assert(final_holds(b, p, fm, tm, m, um, cs, Err::<ModelArtifact, ModelArtifactError>(e)));
            }
            return Err(e);
        },
        Ok(q) => q,
    };
    let ghost qm = quantum_counts@;
    let r = match ModelArtifact::assemble(
        topology,
        registry,
        initial_stocks,
        quantum_counts,
        projections,
        calendar,
        horizon,
        forcings,
        tables,
        rules,
        execution_bindings,
        units,
        versions,
    ) {
        Ok(a) => Ok(a),
        Err(e) => Err(ModelArtifactError::CanonicalEncoding(e)),
    };
    proof {
        assert(final_holds(b, p, fm, tm, m, um, cs, r));
    }
    r
}

} // verus!
