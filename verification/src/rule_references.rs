//! What a rule refers to: its transfer branches, generic inputs, parameters, forcings, tables
//! and projections.

use vstd::prelude::*;
use crate::canonical_map::{has_key, sorted_keys, CanonicalMap};
use crate::canonical_order::{bytes_lt, key_lt, key_order, KeyOrder};
use crate::identity::{lemma_pair_component_order, CanonicalKey, Ident};
use crate::partition_expression::{ExpressionBranch, PartitionExpr, PartitionView};
use crate::rule_expression::{node_size, ExprNode};
use crate::rule_reference::{InputRef, ProjectionValueKind};
use crate::canonical_encoding::{projection_kind_tag, spec_projection_kind_tag};
use crate::canonical_order::bytes_order;

verus! {

// ---------------------------------------------------------------------------------------------
// Key sets
// ---------------------------------------------------------------------------------------------

/// The identities that are keys of a map keyed by identities.
pub open spec fn id_keys<V>(m: Seq<(Ident, V)>) -> Set<Seq<u8>> {
    Set::new(|b: Seq<u8>| exists|j: int| 0 <= j < m.len() && (#[trigger] m[j]).0@ == b)
}

/// `x` is the least member of `s` (in byte order) for which `fails` holds.
pub open spec fn least_failing(s: Set<Seq<u8>>, fails: spec_fn(Seq<u8>) -> bool, x: Seq<u8>) -> bool {
    s.contains(x) && fails(x) && forall|y: Seq<u8>| #[trigger] s.contains(y) && fails(y) ==> y == x || bytes_lt(x, y)
}

/// The least member of `s` for which `fails` holds, if any.
pub open spec fn first_failing(s: Set<Seq<u8>>, fails: spec_fn(Seq<u8>) -> bool) -> Option<Seq<u8>> {
    if exists|x: Seq<u8>| least_failing(s, fails, x) {
        Some(choose|x: Seq<u8>| least_failing(s, fails, x))
    } else {
        None
    }
}

pub proof fn lemma_single_component_lt(a: Seq<u8>, b: Seq<u8>)
    ensures
        key_lt(seq![a], seq![b]) == (a != b && bytes_lt(a, b)),
{
    let ka = seq![a];
    let kb = seq![b];
    assert(ka[0] == a && kb[0] == b);
    assert(ka.drop_first() =~= Seq::<Seq<u8>>::empty());
    assert(kb.drop_first() =~= Seq::<Seq<u8>>::empty());
    assert(!key_lt(Seq::<Seq<u8>>::empty(), Seq::<Seq<u8>>::empty()));
    if a == b {
        assert(ka =~= kb);
        crate::canonical_order::lemma_key_lt_irreflexive(ka);
    }
}

/// Scanning a sorted identity map in order, the first failing key is the least failing one.
pub proof fn lemma_first_failing_found<V>(m: Seq<(Ident, V)>, fails: spec_fn(Seq<u8>) -> bool, i: int)
    requires
        sorted_keys(m),
        0 <= i < m.len(),
        fails(m[i].0@),
        forall|j: int| 0 <= j < i ==> !fails(#[trigger] m[j].0@),
    ensures
        first_failing(id_keys(m), fails) == Some(m[i].0@),
{
    let x = m[i].0@;
    let s = id_keys(m);
    assert(s.contains(x));
    assert forall|y: Seq<u8>| #[trigger] s.contains(y) && fails(y) implies y == x || bytes_lt(x, y) by {
        let j = choose|j: int| 0 <= j < m.len() && (#[trigger] m[j]).0@ == y;
        if j > i {
            assert(key_lt(m[i].0.key(), m[j].0.key()));
            lemma_single_component_lt(x, y);
        } else if j < i {
            assert(!fails(m[j].0@));
        }
    }
    assert(least_failing(s, fails, x));
    let c = choose|c: Seq<u8>| least_failing(s, fails, c);
    if c != x {
        assert(bytes_lt(x, c) && bytes_lt(c, x));
        crate::canonical_order::lemma_bytes_lt_transitive(x, c, x);
        crate::canonical_order::lemma_bytes_lt_irreflexive(x);
    }
}

/// Scanning a whole map without failure leaves no failing key.
pub proof fn lemma_first_failing_none<V>(m: Seq<(Ident, V)>, fails: spec_fn(Seq<u8>) -> bool)
    requires
        forall|j: int| 0 <= j < m.len() ==> !fails(#[trigger] m[j].0@),
    ensures
        first_failing(id_keys(m), fails) is None,
{
    if exists|x: Seq<u8>| least_failing(id_keys(m), fails, x) {
        let x = choose|x: Seq<u8>| least_failing(id_keys(m), fails, x);
        let j = choose|j: int| 0 <= j < m.len() && (#[trigger] m[j]).0@ == x;
        assert(!fails(m[j].0@));
    }
}

/// Inserting an identity into a set keyed by identities adds exactly that key.
pub proof fn lemma_id_keys_insert<V>(old_m: Seq<(Ident, V)>, new_m: Seq<(Ident, V)>, pos: int, e: (Ident, V))
    requires
        0 <= pos <= old_m.len(),
        new_m == old_m.insert(pos, e),
    ensures
        id_keys(new_m) == id_keys(old_m).insert(e.0@),
{
    assert forall|b: Seq<u8>| id_keys(new_m).contains(b) <==> id_keys(old_m).insert(e.0@).contains(b) by {
        if id_keys(new_m).contains(b) {
            let j = choose|j: int| 0 <= j < new_m.len() && (#[trigger] new_m[j]).0@ == b;
            if j < pos {
                assert(new_m[j] == old_m[j]);
            } else if j > pos {
                assert(new_m[j] == old_m[j - 1]);
            }
        }
        if id_keys(old_m).contains(b) {
            let j = choose|j: int| 0 <= j < old_m.len() && (#[trigger] old_m[j]).0@ == b;
            if j < pos {
                assert(new_m[j] == old_m[j]);
            } else {
                assert(new_m[j + 1] == old_m[j]);
            }
        }
        if b == e.0@ {
            assert(new_m[pos] == e);
        }
    }
    assert(id_keys(new_m) =~= id_keys(old_m).insert(e.0@));
}

/// Adds an identity to a set of identities.
pub fn add_id(set: &mut CanonicalMap<Ident, ()>, id: &Ident)
    requires
        old(set).wf(),
    ensures
        final(set).wf(),
        id_keys(final(set)@) == id_keys(old(set)@).insert(id@),
{
    let ghost old_m = set@;
    let kept = id.clone();
    let inserted = set.insert_new(kept, ());
    proof {
        if inserted {
            let pos = choose|p: int| 0 <= p <= old_m.len() && set@ == old_m.insert(p, (kept, ()));
            lemma_id_keys_insert(old_m, set@, pos, (kept, ()));
        } else {
            let k = choose|k: int| 0 <= k < old_m.len() && #[trigger] old_m[k].0.key() == kept.key();
            crate::model_artifact::lemma_single_key(old_m[k].0@, id@);
            assert(id_keys(old_m).contains(id@));
            assert(id_keys(set@) =~= id_keys(old_m).insert(id@));
        }
    }
}

// ---------------------------------------------------------------------------------------------
// Transfer branches of a partition
// ---------------------------------------------------------------------------------------------

/// The branch identities of a list of branches.
pub open spec fn branch_ids<B>(bs: Seq<B>, branch: spec_fn(B) -> Seq<u8>) -> Set<Seq<u8>> {
    Set::new(|b: Seq<u8>| exists|i: int| 0 <= i < bs.len() && branch(#[trigger] bs[i]) == b)
}

/// The transfer branches a partition names.
pub open spec fn partition_branch_set(v: PartitionView) -> Set<Seq<u8>> {
    match v {
        PartitionView::RetainAll => Set::empty(),
        PartitionView::ReleaseAll { branch } => set![branch@],
        PartitionView::ExogenousSeries { branch, .. } => set![branch@],
        PartitionView::ConstantFractionTransfer { branch, .. } => set![branch@],
        PartitionView::FixedFractionSplit { branches } => branch_ids(branches@, |b: crate::partition_expression::FractionBranch| b.branch@),
        PartitionView::ExpressionPartition { branches } => branch_ids(branches@, |b: ExpressionBranch| b.branch@),
        PartitionView::CarrierProportional { branches, .. } => branch_ids(branches@, |b: crate::partition_expression::CarrierBranch| b.branch@),
    }
}

/// The transfer branches a partition names, as a set in canonical order.
#[verifier::loop_isolation(false)]
pub fn partition_branches(disposition: &PartitionExpr) -> (r: CanonicalMap<Ident, ()>)
    ensures
        r.wf(),
        id_keys(r@) == partition_branch_set(disposition.view),
{
    let mut branches: CanonicalMap<Ident, ()> = CanonicalMap::new();
    proof {
        assert(id_keys(branches@) =~= Set::<Seq<u8>>::empty());
    }
    match &disposition.view {
        PartitionView::RetainAll => {},
        PartitionView::ReleaseAll { branch } => {
            add_id(&mut branches, branch);
            proof {
                assert(id_keys(branches@) =~= set![branch@]);
            }
        },
        PartitionView::ExogenousSeries { branch, .. } => {
            add_id(&mut branches, branch);
            proof {
                assert(id_keys(branches@) =~= set![branch@]);
            }
        },
        PartitionView::ConstantFractionTransfer { branch, .. } => {
            add_id(&mut branches, branch);
            proof {
                assert(id_keys(branches@) =~= set![branch@]);
            }
        },
        PartitionView::FixedFractionSplit { branches: split } => {
            let ghost f = |b: crate::partition_expression::FractionBranch| b.branch@;
            let mut i: usize = 0;
            while i < split.len()
                invariant
                    0 <= i <= split@.len(),
                    branches.wf(),
                    id_keys(branches@) == branch_ids(split@.take(i as int), f),
                decreases split@.len() - i,
            {
                add_id(&mut branches, &split[i].branch);
                proof {
                    lemma_branch_ids_step(split@, f, i as int);
                    assert(f(split@[i as int]) == split@[i as int].branch@);
                }
                i = i + 1;
            }
            proof {
                assert(split@.take(split@.len() as int) =~= split@);
            }
        },
        PartitionView::ExpressionPartition { branches: split } => {
            let ghost f = |b: ExpressionBranch| b.branch@;
            let mut i: usize = 0;
            while i < split.len()
                invariant
                    0 <= i <= split@.len(),
                    branches.wf(),
                    id_keys(branches@) == branch_ids(split@.take(i as int), f),
                decreases split@.len() - i,
            {
                add_id(&mut branches, &split[i].branch);
                proof {
                    lemma_branch_ids_step(split@, f, i as int);
                    assert(f(split@[i as int]) == split@[i as int].branch@);
                }
                i = i + 1;
            }
            proof {
                assert(split@.take(split@.len() as int) =~= split@);
            }
        },
        PartitionView::CarrierProportional { branches: split, .. } => {
            let ghost f = |b: crate::partition_expression::CarrierBranch| b.branch@;
            let mut i: usize = 0;
            while i < split.len()
                invariant
                    0 <= i <= split@.len(),
                    branches.wf(),
                    id_keys(branches@) == branch_ids(split@.take(i as int), f),
                decreases split@.len() - i,
            {
                add_id(&mut branches, &split[i].branch);
                proof {
                    lemma_branch_ids_step(split@, f, i as int);
                    assert(f(split@[i as int]) == split@[i as int].branch@);
                }
                i = i + 1;
            }
            proof {
                assert(split@.take(split@.len() as int) =~= split@);
            }
        },
    }
    branches
}

pub proof fn lemma_branch_ids_step<B>(bs: Seq<B>, f: spec_fn(B) -> Seq<u8>, i: int)
    requires
        0 <= i < bs.len(),
    ensures
        branch_ids(bs.take(i + 1), f) == branch_ids(bs.take(i), f).insert(f(bs[i])),
{
    let a = bs.take(i);
    let b = bs.take(i + 1);
    assert forall|x: Seq<u8>| branch_ids(b, f).contains(x) <==> branch_ids(a, f).insert(f(bs[i])).contains(x) by {
        if branch_ids(b, f).contains(x) {
            let k = choose|k: int| 0 <= k < b.len() && f(#[trigger] b[k]) == x;
            if k < i {
                assert(a[k] == b[k]);
            }
        }
        if branch_ids(a, f).contains(x) {
            let k = choose|k: int| 0 <= k < a.len() && f(#[trigger] a[k]) == x;
            assert(b[k] == a[k]);
        }
        if x == f(bs[i]) {
            assert(b[i] == bs[i]);
        }
    }
    assert(branch_ids(b, f) =~= branch_ids(a, f).insert(f(bs[i])));
}

// ---------------------------------------------------------------------------------------------
// Generic inputs
// ---------------------------------------------------------------------------------------------

/// The generic input leaves of a tree, in pre-order.
pub open spec fn node_inputs(n: ExprNode) -> Seq<InputRef>
    decreases n,
{
    match n {
        ExprNode::Input(r) => seq![r],
        ExprNode::InterpolatedTable { input, .. } => node_inputs(*input),
        ExprNode::Binary { lhs, rhs, .. } => node_inputs(*lhs) + node_inputs(*rhs),
        ExprNode::Comparison { lhs, rhs, .. } => node_inputs(*lhs) + node_inputs(*rhs),
        ExprNode::Clamp { value, lower, upper } => node_inputs(*value) + node_inputs(*lower)
            + node_inputs(*upper),
        ExprNode::Select { condition, when_true, when_false } => node_inputs(*condition)
            + node_inputs(*when_true) + node_inputs(*when_false),
        _ => Seq::empty(),
    }
}

/// The generic input leaves of the expressions of a list of branches, in order.
pub open spec fn branches_inputs(bs: Seq<ExpressionBranch>) -> Seq<InputRef>
    decreases bs.len(),
{
    if bs.len() == 0 {
        Seq::empty()
    } else {
        branches_inputs(bs.drop_last()) + node_inputs(bs.last().expression.node)
    }
}

/// The generic input leaves of a rule: its expression, then any expression-partition branches.
pub open spec fn rule_inputs(expression: ExprNode, disposition: PartitionView) -> Seq<InputRef> {
    node_inputs(expression) + match disposition {
        PartitionView::ExpressionPartition { branches } => branches_inputs(branches@),
        _ => Seq::empty(),
    }
}

/// Appends the generic input leaves of a tree, in pre-order.
pub fn collect_expression_inputs(expression: &ExprNode, inputs: &mut Vec<InputRef>)
    ensures
        final(inputs)@ == old(inputs)@ + node_inputs(*expression),
    decreases node_size(*expression),
{
    let ghost start = inputs@;
    match expression {
        ExprNode::Input(reference) => {
            inputs.push(reference.clone());
            proof {
                assert(inputs@ =~= start + seq![*reference]);
            }
        },
        ExprNode::InterpolatedTable { input, .. } => collect_expression_inputs(input, inputs),
        ExprNode::Binary { lhs, rhs, .. } => {
            collect_expression_inputs(lhs, inputs);
            collect_expression_inputs(rhs, inputs);
            proof {
                assert(inputs@ =~= start + node_inputs(*expression));
            }
        },
        ExprNode::Comparison { lhs, rhs, .. } => {
            collect_expression_inputs(lhs, inputs);
            collect_expression_inputs(rhs, inputs);
            proof {
                assert(inputs@ =~= start + node_inputs(*expression));
            }
        },
        ExprNode::Clamp { value, lower, upper } => {
            collect_expression_inputs(value, inputs);
            collect_expression_inputs(lower, inputs);
            collect_expression_inputs(upper, inputs);
            proof {
                assert(inputs@ =~= start + node_inputs(*expression));
            }
        },
        ExprNode::Select { condition, when_true, when_false } => {
            collect_expression_inputs(condition, inputs);
            collect_expression_inputs(when_true, inputs);
            collect_expression_inputs(when_false, inputs);
            proof {
                assert(inputs@ =~= start + node_inputs(*expression));
            }
        },
        _ => {
            proof {
                assert(inputs@ =~= start + node_inputs(*expression));
            }
        },
    }
}

/// Appends the generic input leaves of a rule's expression and expression-partition branches.
pub fn collect_rule_inputs(expression: &ExprNode, disposition: &PartitionExpr, inputs: &mut Vec<InputRef>)
    ensures
        final(inputs)@ == old(inputs)@ + rule_inputs(*expression, disposition.view),
{
    let ghost start = inputs@;
    collect_expression_inputs(expression, inputs);
    let ghost mid = inputs@;
    match &disposition.view {
        PartitionView::ExpressionPartition { branches } => {
            let mut i: usize = 0;
            proof {
                assert(branches@.take(0) =~= Seq::<ExpressionBranch>::empty());
                assert(mid =~= mid + branches_inputs(branches@.take(0)));
            }
            while i < branches.len()
                invariant
                    0 <= i <= branches@.len(),
                    inputs@ == mid + branches_inputs(branches@.take(i as int)),
                decreases branches@.len() - i,
            {
                collect_expression_inputs(&branches[i].expression.node, inputs);
                proof {
                    assert(branches@.take(i + 1).drop_last() =~= branches@.take(i as int));
                    assert(inputs@ =~= mid + branches_inputs(branches@.take(i + 1)));
                }
                i = i + 1;
            }
            proof {
                assert(branches@.take(branches@.len() as int) =~= branches@);
                assert(inputs@ =~= start + rule_inputs(*expression, disposition.view));
            }
        },
        _ => {
            proof {
                assert(inputs@ =~= start + rule_inputs(*expression, disposition.view));
            }
        },
    }
}

// ---------------------------------------------------------------------------------------------
// Parameters, forcings, tables and projections
// ---------------------------------------------------------------------------------------------

/// A kind of identity reference in an expression.
#[derive(Clone, Copy, Debug, PartialEq, Eq, Structural)]
pub enum RefKind {
    Parameter,
    Forcing,
    Table,
}

/// The identities of one kind that a tree refers to.
pub open spec fn node_refs(n: ExprNode, kind: RefKind) -> Set<Seq<u8>>
    decreases n,
{
    match n {
        ExprNode::Parameter(r) => if kind == RefKind::Parameter { set![r.id@] } else { Set::empty() },
        ExprNode::Forcing(r) => if kind == RefKind::Forcing { set![r.id@] } else { Set::empty() },
        ExprNode::InterpolatedTable { table, input } => if kind == RefKind::Table {
            node_refs(*input, kind).insert(table.id@)
        } else {
            node_refs(*input, kind)
        },
        ExprNode::Binary { lhs, rhs, .. } => node_refs(*lhs, kind) + node_refs(*rhs, kind),
        ExprNode::Comparison { lhs, rhs, .. } => node_refs(*lhs, kind) + node_refs(*rhs, kind),
        ExprNode::Clamp { value, lower, upper } => node_refs(*value, kind) + node_refs(*lower, kind)
            + node_refs(*upper, kind),
        ExprNode::Select { condition, when_true, when_false } => node_refs(*condition, kind)
            + node_refs(*when_true, kind) + node_refs(*when_false, kind),
        _ => Set::empty(),
    }
}

/// The canonical key of a projection reference: its identity, then its kind tag.
pub open spec fn projection_ref_key(id: Seq<u8>, kind: ProjectionValueKind) -> Seq<Seq<u8>> {
    seq![id, seq![spec_projection_kind_tag(kind)]]
}

/// The projection references of a tree, as canonical keys.
pub open spec fn node_projection_refs(n: ExprNode) -> Set<Seq<Seq<u8>>>
    decreases n,
{
    match n {
        ExprNode::Projection(r) => set![projection_ref_key(r.id@, r.value_kind)],
        ExprNode::InterpolatedTable { input, .. } => node_projection_refs(*input),
        ExprNode::Binary { lhs, rhs, .. } => node_projection_refs(*lhs) + node_projection_refs(*rhs),
        ExprNode::Comparison { lhs, rhs, .. } => node_projection_refs(*lhs) + node_projection_refs(*rhs),
        ExprNode::Clamp { value, lower, upper } => node_projection_refs(*value) + node_projection_refs(*lower)
            + node_projection_refs(*upper),
        ExprNode::Select { condition, when_true, when_false } => node_projection_refs(*condition)
            + node_projection_refs(*when_true) + node_projection_refs(*when_false),
        _ => Set::empty(),
    }
}

/// The identities of one kind that the expressions of a list of branches refer to.
pub open spec fn branches_refs(bs: Seq<ExpressionBranch>, kind: RefKind) -> Set<Seq<u8>>
    decreases bs.len(),
{
    if bs.len() == 0 {
        Set::empty()
    } else {
        branches_refs(bs.drop_last(), kind) + node_refs(bs.last().expression.node, kind)
    }
}

/// The projection references of the expressions of a list of branches.
pub open spec fn branches_projection_refs(bs: Seq<ExpressionBranch>) -> Set<Seq<Seq<u8>>>
    decreases bs.len(),
{
    if bs.len() == 0 {
        Set::empty()
    } else {
        branches_projection_refs(bs.drop_last()) + node_projection_refs(bs.last().expression.node)
    }
}

/// The identities of one kind that a partition refers to.
pub open spec fn partition_refs(disposition: PartitionView, kind: RefKind) -> Set<Seq<u8>> {
    match disposition {
        PartitionView::ExogenousSeries { series, .. } => if kind == RefKind::Forcing {
            set![series.id@]
        } else {
            Set::empty()
        },
        PartitionView::ExpressionPartition { branches } => branches_refs(branches@, kind),
        _ => Set::empty(),
    }
}

/// The projection references of a partition.
pub open spec fn partition_projection_refs(disposition: PartitionView) -> Set<Seq<Seq<u8>>> {
    match disposition {
        PartitionView::ExpressionPartition { branches } => branches_projection_refs(branches@),
        _ => Set::empty(),
    }
}

/// The identities of one kind that a rule refers to, through its expression and its partition.
pub open spec fn rule_refs(expression: ExprNode, disposition: PartitionView, kind: RefKind) -> Set<Seq<u8>> {
    node_refs(expression, kind) + partition_refs(disposition, kind)
}

/// The projection references of a rule.
pub open spec fn rule_projection_refs(expression: ExprNode, disposition: PartitionView) -> Set<Seq<Seq<u8>>> {
    node_projection_refs(expression) + partition_projection_refs(disposition)
}

/// A projection identity with the value kind a reference declares for it.
#[derive(Debug, PartialEq, Eq)]
pub struct ProjectionKey {
    pub id: Ident,
    pub kind: ProjectionValueKind,
}

proof fn lemma_tag_order(a: u8, b: u8)
    ensures
        bytes_order(seq![a], seq![b]) == if a == b {
            KeyOrder::Equal
        } else if a < b {
            KeyOrder::Less
        } else {
            KeyOrder::Greater
        },
{
    let x = seq![a];
    let y = seq![b];
    assert(x[0] == a && y[0] == b);
    assert(x.drop_first() =~= Seq::<u8>::empty());
    assert(y.drop_first() =~= Seq::<u8>::empty());
    assert(!bytes_lt(Seq::<u8>::empty(), Seq::<u8>::empty()));
    if a == b {
        assert(x =~= y);
    } else {
        assert(x != y) by {
            assert(x[0] != y[0]);
        }
    }
}

impl CanonicalKey for ProjectionKey {
    open spec fn key(&self) -> Seq<Seq<u8>> {
        projection_ref_key(self.id@, self.kind)
    }

    fn order_key(&self, other: &Self) -> (r: KeyOrder) {
        let a = projection_kind_tag(self.kind);
        let b = projection_kind_tag(other.kind);
        proof {
            lemma_pair_component_order(self.id@, seq![a], other.id@, seq![b]);
            lemma_tag_order(a, b);
        }
        match self.id.order_against(&other.id) {
            KeyOrder::Equal => if a == b {
                KeyOrder::Equal
            } else if a < b {
                KeyOrder::Less
            } else {
                KeyOrder::Greater
            },
            r => r,
        }
    }
}

/// The keys of a map.
pub open spec fn map_keys<K: CanonicalKey, V>(m: Seq<(K, V)>) -> Set<Seq<Seq<u8>>> {
    Set::new(|k: Seq<Seq<u8>>| exists|j: int| 0 <= j < m.len() && (#[trigger] m[j]).0.key() == k)
}

/// Adds a projection reference key to a set of them.
pub fn add_projection_key(set: &mut CanonicalMap<ProjectionKey, ()>, id: &Ident, kind: ProjectionValueKind)
    requires
        old(set).wf(),
    ensures
        final(set).wf(),
        map_keys(final(set)@) == map_keys(old(set)@).insert(projection_ref_key(id@, kind)),
{
    let ghost old_m = set@;
    let kept = ProjectionKey { id: id.clone(), kind };
    let inserted = set.insert_new(kept, ());
    proof {
        let k = projection_ref_key(id@, kind);
        if inserted {
            let pos = choose|p: int| 0 <= p <= old_m.len() && set@ == old_m.insert(p, (kept, ()));
            assert forall|x: Seq<Seq<u8>>| map_keys(set@).contains(x) <==> map_keys(old_m).insert(k).contains(x) by {
                if map_keys(set@).contains(x) {
                    let j = choose|j: int| 0 <= j < set@.len() && (#[trigger] set@[j]).0.key() == x;
                    if j < pos {
                        assert(set@[j] == old_m[j]);
                    } else if j > pos {
                        assert(set@[j] == old_m[j - 1]);
                    }
                }
                if map_keys(old_m).contains(x) {
                    let j = choose|j: int| 0 <= j < old_m.len() && (#[trigger] old_m[j]).0.key() == x;
                    if j < pos {
                        assert(set@[j] == old_m[j]);
                    } else {
                        assert(set@[j + 1] == old_m[j]);
                    }
                }
                if x == k {
                    assert(set@[pos] == (kept, ()));
                }
            }
            assert(map_keys(set@) =~= map_keys(old_m).insert(k));
        } else {
            assert(map_keys(old_m).contains(k));
            assert(map_keys(set@) =~= map_keys(old_m).insert(k));
        }
    }
}

/// The sets of identities a tree refers to, collected into canonical sets.
pub struct ReferenceSets {
    pub parameters: CanonicalMap<Ident, ()>,
    pub forcings: CanonicalMap<Ident, ()>,
    pub tables: CanonicalMap<Ident, ()>,
    pub projections: CanonicalMap<ProjectionKey, ()>,
}

impl ReferenceSets {
    pub open spec fn wf(&self) -> bool {
        self.parameters.wf() && self.forcings.wf() && self.tables.wf() && self.projections.wf()
    }

    pub open spec fn refs(&self, kind: RefKind) -> Set<Seq<u8>> {
        match kind {
            RefKind::Parameter => id_keys(self.parameters@),
            RefKind::Forcing => id_keys(self.forcings@),
            RefKind::Table => id_keys(self.tables@),
        }
    }

    pub fn new() -> (r: ReferenceSets)
        ensures
            r.wf(),
            r.refs(RefKind::Parameter) == Set::<Seq<u8>>::empty(),
            r.refs(RefKind::Forcing) == Set::<Seq<u8>>::empty(),
            r.refs(RefKind::Table) == Set::<Seq<u8>>::empty(),
            map_keys(r.projections@) == Set::<Seq<Seq<u8>>>::empty(),
    {
        let r = ReferenceSets {
            parameters: CanonicalMap::new(),
            forcings: CanonicalMap::new(),
            tables: CanonicalMap::new(),
            projections: CanonicalMap::new(),
        };
        proof {
            assert(id_keys(r.parameters@) =~= Set::<Seq<u8>>::empty());
            assert(id_keys(r.forcings@) =~= Set::<Seq<u8>>::empty());
            assert(id_keys(r.tables@) =~= Set::<Seq<u8>>::empty());
            assert(map_keys(r.projections@) =~= Set::<Seq<Seq<u8>>>::empty());
        }
        r
    }
}

/// Adds the parameters, forcings, tables and projections a tree refers to.
pub fn collect_expression_references(expression: &ExprNode, sets: &mut ReferenceSets)
    requires
        old(sets).wf(),
    ensures
        final(sets).wf(),
        forall|k: RefKind| #[trigger] final(sets).refs(k) == old(sets).refs(k) + node_refs(*expression, k),
        map_keys(final(sets).projections@) == map_keys(old(sets).projections@) + node_projection_refs(*expression),
    decreases node_size(*expression),
{
    let ghost p0 = sets.refs(RefKind::Parameter);
    let ghost f0 = sets.refs(RefKind::Forcing);
    let ghost t0 = sets.refs(RefKind::Table);
    let ghost j0 = map_keys(sets.projections@);
    match expression {
        ExprNode::Parameter(reference) => {
            add_id(&mut sets.parameters, &reference.id);
        },
        ExprNode::Forcing(reference) => {
            add_id(&mut sets.forcings, &reference.id);
        },
        ExprNode::Projection(reference) => {
            add_projection_key(&mut sets.projections, &reference.id, reference.value_kind);
        },
        ExprNode::InterpolatedTable { table, input } => {
            add_id(&mut sets.tables, &table.id);
            collect_expression_references(input, sets);
        },
        ExprNode::Binary { lhs, rhs, .. } => {
            collect_expression_references(lhs, sets);
            collect_expression_references(rhs, sets);
        },
        ExprNode::Comparison { lhs, rhs, .. } => {
            collect_expression_references(lhs, sets);
            collect_expression_references(rhs, sets);
        },
        ExprNode::Clamp { value, lower, upper } => {
            collect_expression_references(value, sets);
            collect_expression_references(lower, sets);
            collect_expression_references(upper, sets);
        },
        ExprNode::Select { condition, when_true, when_false } => {
            collect_expression_references(condition, sets);
            collect_expression_references(when_true, sets);
            collect_expression_references(when_false, sets);
        },
        ExprNode::Input(_) | ExprNode::Literal(_) => {},
    }
    proof {
        assert forall|k: RefKind| #[trigger] sets.refs(k) == old(sets).refs(k) + node_refs(*expression, k) by {
            assert(sets.refs(k) =~= old(sets).refs(k) + node_refs(*expression, k));
        }
        assert(map_keys(sets.projections@) =~= j0 + node_projection_refs(*expression));
    }
}

/// Adds everything a rule refers to through its expression and its partition.
pub fn collect_rule_references(expression: &ExprNode, disposition: &PartitionExpr, sets: &mut ReferenceSets)
    requires
        old(sets).wf(),
    ensures
        final(sets).wf(),
        forall|k: RefKind| #[trigger] final(sets).refs(k) == old(sets).refs(k) + rule_refs(*expression, disposition.view, k),
        map_keys(final(sets).projections@) == map_keys(old(sets).projections@) + rule_projection_refs(*expression, disposition.view),
{
    let ghost j0 = map_keys(sets.projections@);
    collect_expression_references(expression, sets);
    collect_partition_references(&disposition.view, sets);
    proof {
        assert forall|k: RefKind| #[trigger] sets.refs(k) == old(sets).refs(k) + rule_refs(*expression, disposition.view, k) by {
            assert(sets.refs(k) =~= old(sets).refs(k) + rule_refs(*expression, disposition.view, k));
        }
        assert(map_keys(sets.projections@) =~= j0 + rule_projection_refs(*expression, disposition.view));
    }
}

/// Adds everything the expressions and series of a partition refer to.
pub fn collect_partition_references(view: &PartitionView, sets: &mut ReferenceSets)
    requires
        old(sets).wf(),
    ensures
        final(sets).wf(),
        forall|k: RefKind| #[trigger] final(sets).refs(k) == old(sets).refs(k) + partition_refs(*view, k),
        map_keys(final(sets).projections@) == map_keys(old(sets).projections@) + partition_projection_refs(*view),
{
    let ghost j0 = map_keys(sets.projections@);
    match view {
        PartitionView::ExogenousSeries { series, .. } => {
            add_id(&mut sets.forcings, &series.id);
            proof {
                assert forall|k: RefKind| #[trigger] sets.refs(k) == old(sets).refs(k) + partition_refs(*view, k) by {
                    assert(sets.refs(k) =~= old(sets).refs(k) + partition_refs(*view, k));
                }
                assert(map_keys(sets.projections@) =~= j0 + partition_projection_refs(*view));
            }
        },
        PartitionView::ExpressionPartition { branches } => {
            let mut i: usize = 0;
            proof {
                assert forall|k: RefKind| #[trigger] sets.refs(k) == old(sets).refs(k) + branches_refs(branches@.take(0), k) by {
                    assert(branches@.take(0) =~= Seq::<ExpressionBranch>::empty());
                    assert(sets.refs(k) =~= old(sets).refs(k) + branches_refs(branches@.take(0), k));
                }
                assert(branches@.take(0) =~= Seq::<ExpressionBranch>::empty());
                assert(map_keys(sets.projections@) =~= j0 + branches_projection_refs(branches@.take(0)));
            }
            while i < branches.len()
                invariant
                    0 <= i <= branches@.len(),
                    sets.wf(),
                    forall|k: RefKind| #[trigger] sets.refs(k) == old(sets).refs(k) + branches_refs(branches@.take(i as int), k),
                    map_keys(sets.projections@) == j0 + branches_projection_refs(branches@.take(i as int)),
                decreases branches@.len() - i,
            {
                collect_expression_references(&branches[i].expression.node, sets);
                proof {
                    assert(branches@.take(i + 1).drop_last() =~= branches@.take(i as int));
                    assert forall|k: RefKind| #[trigger] sets.refs(k) == old(sets).refs(k) + branches_refs(branches@.take(i + 1), k) by {
                        assert(sets.refs(k) =~= old(sets).refs(k) + branches_refs(branches@.take(i + 1), k));
                    }
                    assert(map_keys(sets.projections@) =~= j0 + branches_projection_refs(branches@.take(i + 1)));
                }
                i = i + 1;
            }
            proof {
                assert(branches@.take(branches@.len() as int) =~= branches@);
            }
        },
        _ => {
            proof {
                assert forall|k: RefKind| #[trigger] sets.refs(k) == old(sets).refs(k) + partition_refs(*view, k) by {
                    assert(sets.refs(k) =~= old(sets).refs(k) + partition_refs(*view, k));
                }
                assert(map_keys(sets.projections@) =~= j0 + partition_projection_refs(*view));
            }
        },
    }
}

} // verus!
