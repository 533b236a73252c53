//! Bindings that give each rule's transfer branches a destination and each generic rule input
//! a source.

use vstd::prelude::*;
use crate::artifact_builder::{
    arranges, canonical_order_of, lemma_arranged_key, lemma_arranges_insert, lemma_arrangement_values,
    lemma_canonical_order_ignores_listing_order, repeats_key, same_values,
};
use crate::canonical_map::CanonicalMap;
use crate::identity::{CompartmentId, Ident, InputId, SubstanceId, TransferBranchId};
use crate::rule_reference::{
    projection_expression_kind, projection_provides, ExpressionValueKind, ForcingRef, InputRef,
    ProjectionRef, TableRef,
};

verus! {

/// Binds one transfer branch of the rule at (compartment, substance) to a destination.
#[derive(Debug, PartialEq, Eq)]
pub struct TransferBranchBinding {
    pub compartment: CompartmentId,
    pub substance: SubstanceId,
    pub branch: TransferBranchId,
    pub destination: CompartmentId,
}

/// The source that feeds a generic rule input.
#[derive(Debug, PartialEq, Eq)]
pub enum RuleInputSource {
    Forcing(ForcingRef),
    InterpolationTable(TableRef),
    Projection(ProjectionRef),
}

impl RuleInputSource {
    /// The value kind the source provides.
    pub open spec fn spec_value_kind(&self) -> ExpressionValueKind {
        match self {
            RuleInputSource::Forcing(f) => f.value_kind,
            RuleInputSource::InterpolationTable(_) => ExpressionValueKind::Scalar,
            RuleInputSource::Projection(p) => projection_expression_kind(p.value_kind),
        }
    }

    pub fn value_kind(&self) -> (r: ExpressionValueKind)
        ensures
            r == self.spec_value_kind(),
    {
        match self {
            RuleInputSource::Forcing(f) => f.value_kind,
            RuleInputSource::InterpolationTable(_) => ExpressionValueKind::Scalar,
            RuleInputSource::Projection(p) => projection_provides(p.value_kind),
        }
    }
}

/// Binds one generic input of the rule at (compartment, substance) to a source.
#[derive(Debug, PartialEq, Eq)]
pub struct RuleInputBinding {
    pub compartment: CompartmentId,
    pub substance: SubstanceId,
    pub reference: InputRef,
    pub source: RuleInputSource,
}

impl Clone for TransferBranchBinding {
    fn clone(&self) -> (r: Self)
        ensures
            r == *self,
    {
        TransferBranchBinding {
            compartment: self.compartment.clone(),
            substance: self.substance.clone(),
            branch: self.branch.clone(),
            destination: self.destination.clone(),
        }
    }
}

impl Clone for RuleInputSource {
    fn clone(&self) -> (r: Self)
        ensures
            r == *self,
    {
        match self {
            RuleInputSource::Forcing(f) => RuleInputSource::Forcing(f.clone()),
            RuleInputSource::InterpolationTable(t) => RuleInputSource::InterpolationTable(t.clone()),
            RuleInputSource::Projection(p) => RuleInputSource::Projection(p.clone()),
        }
    }
}

impl Clone for RuleInputBinding {
    fn clone(&self) -> (r: Self)
        ensures
            r == *self,
    {
        RuleInputBinding {
            compartment: self.compartment.clone(),
            substance: self.substance.clone(),
            reference: self.reference.clone(),
            source: self.source.clone(),
        }
    }
}

/// The key of a transfer binding: its (compartment, substance, branch) coordinate.
pub open spec fn transfer_key() -> spec_fn(TransferBranchBinding) -> Seq<Seq<u8>> {
    |b: TransferBranchBinding| seq![b.compartment@, b.substance@, b.branch@]
}

/// The key of an input binding: its (compartment, substance, input) coordinate.
pub open spec fn input_key() -> spec_fn(RuleInputBinding) -> Seq<Seq<u8>> {
    |b: RuleInputBinding| seq![b.compartment@, b.substance@, b.reference.id@]
}

/// Triples of byte strings are equal exactly when their components are.
proof fn lemma_triple_equal(a1: Seq<u8>, a2: Seq<u8>, a3: Seq<u8>, b1: Seq<u8>, b2: Seq<u8>, b3: Seq<u8>)
    ensures
        (seq![a1, a2, a3] == seq![b1, b2, b3]) == (a1 == b1 && a2 == b2 && a3 == b3),
{
    if seq![a1, a2, a3] == seq![b1, b2, b3] {
        assert(seq![a1, a2, a3][0] == seq![b1, b2, b3][0]);
        assert(seq![a1, a2, a3][1] == seq![b1, b2, b3][1]);
        assert(seq![a1, a2, a3][2] == seq![b1, b2, b3][2]);
    }
    if a1 == b1 && a2 == b2 && a3 == b3 {
        assert(seq![a1, a2, a3] =~= seq![b1, b2, b3]);
    }
}

/// A canonical order of bindings keeps their coordinates distinct.
proof fn lemma_canonical_keeps_distinct_transfers(out: Seq<TransferBranchBinding>, src: Seq<TransferBranchBinding>)
    requires
        canonical_order_of(out, src, transfer_key()),
    ensures
        distinct_transfer_bindings(out),
{
    assert forall|i: int, j: int| 0 <= i < out.len() && 0 <= j < out.len() && i != j implies !transfer_matches(
        #[trigger] out[i],
        (#[trigger] out[j]).compartment@,
        out[j].substance@,
        out[j].branch@,
    ) by {
        lemma_triple_equal(out[i].compartment@, out[i].substance@, out[i].branch@, out[j].compartment@, out[j].substance@, out[j].branch@);
        if i < j {
            crate::canonical_order::lemma_key_lt_asymmetric(transfer_key()(out[i]), transfer_key()(out[j]));
        } else {
            crate::canonical_order::lemma_key_lt_asymmetric(transfer_key()(out[j]), transfer_key()(out[i]));
        }
    }
}

/// A canonical order of bindings keeps their coordinates distinct.
proof fn lemma_canonical_keeps_distinct_inputs(out: Seq<RuleInputBinding>, src: Seq<RuleInputBinding>)
    requires
        canonical_order_of(out, src, input_key()),
    ensures
        distinct_input_bindings(out),
{
    assert forall|i: int, j: int| 0 <= i < out.len() && 0 <= j < out.len() && i != j implies !input_matches(
        #[trigger] out[i],
        (#[trigger] out[j]).compartment@,
        out[j].substance@,
        out[j].reference.id@,
    ) by {
        lemma_triple_equal(
            out[i].compartment@,
            out[i].substance@,
            out[i].reference.id@,
            out[j].compartment@,
            out[j].substance@,
            out[j].reference.id@,
        );
        if i < j {
            crate::canonical_order::lemma_key_lt_asymmetric(input_key()(out[i]), input_key()(out[j]));
        } else {
            crate::canonical_order::lemma_key_lt_asymmetric(input_key()(out[j]), input_key()(out[i]));
        }
    }
}

/// Bindings are held the same whatever order they were given in: bindings whose transfer and
/// input lists are canonical orders of lists holding the same bindings hold the same lists.
pub proof fn lemma_binding_order_does_not_matter(
    b1: ExecutionBindings,
    b2: ExecutionBindings,
    transfers1: Seq<TransferBranchBinding>,
    transfers2: Seq<TransferBranchBinding>,
    inputs1: Seq<RuleInputBinding>,
    inputs2: Seq<RuleInputBinding>,
)
    requires
        canonical_order_of(b1.transfer_bindings@, transfers1, transfer_key()),
        canonical_order_of(b2.transfer_bindings@, transfers2, transfer_key()),
        canonical_order_of(b1.input_bindings@, inputs1, input_key()),
        canonical_order_of(b2.input_bindings@, inputs2, input_key()),
        same_values(transfers1, transfers2),
        same_values(inputs1, inputs2),
    ensures
        b1.transfer_bindings@ == b2.transfer_bindings@,
        b1.input_bindings@ == b2.input_bindings@,
{
    lemma_canonical_order_ignores_listing_order(b1.transfer_bindings@, b2.transfer_bindings@, transfers1, transfers2, transfer_key());
    lemma_canonical_order_ignores_listing_order(b1.input_bindings@, b2.input_bindings@, inputs1, inputs2, input_key());
}

/// Distinct transfer bindings, in canonical order of their coordinates.
#[verifier::loop_isolation(false)]
fn arrange_transfers(bs: Vec<TransferBranchBinding>) -> (out: Vec<TransferBranchBinding>)
    requires
        distinct_transfer_bindings(bs@),
    ensures
        canonical_order_of(out@, bs@, transfer_key()),
        out@.len() == bs@.len(),
{
    let ghost src = bs@;
    let ghost n = src.len();
    let mut m: CanonicalMap<(Ident, Ident, Ident), TransferBranchBinding> = CanonicalMap::new();
    let mut rest = bs;
    let count = rest.len();
    let mut i: usize = 0;
    proof {
        assert(rest@ =~= src.skip(0));
        assert(src.take(0) =~= Seq::<TransferBranchBinding>::empty());
    }
    while i < count
        invariant
            0 <= i <= count,
            count == n,
            rest@ == src.skip(i as int),
            m.wf(),
            arranges(m@, src.take(i as int), transfer_key()),
        decreases count - i,
    {
        let b = rest.remove(0);
        proof {
            assert(src[i as int] == b) by {
                assert(src.skip(i as int)[0] == src[i as int]);
            }
            assert(rest@ =~= src.skip(i + 1));
            lemma_arranged_key(m@, src, transfer_key(), i as int);
            if repeats_key(src, transfer_key(), i as int) {
                let j = choose|j: int| 0 <= j < i && transfer_key()(#[trigger] src[j]) == transfer_key()(src[i as int]);
                lemma_triple_equal(src[j].compartment@, src[j].substance@, src[j].branch@, b.compartment@, b.substance@, b.branch@);
                assert(transfer_matches(src[j], src[i as int].compartment@, src[i as int].substance@, src[i as int].branch@));
            }
        }
        let k = (b.compartment.clone(), b.substance.clone(), b.branch.clone());
        let ghost old_m = m@;
        let inserted = m.insert_new(k, b);
        proof {
            let pos = choose|p: int| 0 <= p <= old_m.len() && m@ == old_m.insert(p, (k, src[i as int]));
            lemma_arranges_insert(old_m, m@, src, transfer_key(), i as int, pos, k);
        }
        i = i + 1;
    }
    proof {
        assert(src.take(n as int) =~= src);
    }
    let entries = m.entries();
    let ghost em = m@;
    let mut out: Vec<TransferBranchBinding> = Vec::new();
    let mut j: usize = 0;
    while j < entries.len()
        invariant
            0 <= j <= entries@.len(),
            entries@ == em,
            out@.len() == j,
            forall|p: int| 0 <= p < j ==> out@[p] == (#[trigger] em[p]).1,
        decreases entries@.len() - j,
    {
        out.push(entries[j].1.clone());
        j = j + 1;
    }
    proof {
        lemma_arrangement_values(em, out@, src, transfer_key());
    }
    out
}

/// Distinct input bindings, in canonical order of their coordinates.
#[verifier::loop_isolation(false)]
fn arrange_inputs(bs: Vec<RuleInputBinding>) -> (out: Vec<RuleInputBinding>)
    requires
        distinct_input_bindings(bs@),
    ensures
        canonical_order_of(out@, bs@, input_key()),
        out@.len() == bs@.len(),
{
    let ghost src = bs@;
    let ghost n = src.len();
    let mut m: CanonicalMap<(Ident, Ident, Ident), RuleInputBinding> = CanonicalMap::new();
    let mut rest = bs;
    let count = rest.len();
    let mut i: usize = 0;
    proof {
        assert(rest@ =~= src.skip(0));
        assert(src.take(0) =~= Seq::<RuleInputBinding>::empty());
    }
    while i < count
        invariant
            0 <= i <= count,
            count == n,
            rest@ == src.skip(i as int),
            m.wf(),
            arranges(m@, src.take(i as int), input_key()),
        decreases count - i,
    {
        let b = rest.remove(0);
        proof {
            assert(src[i as int] == b) by {
                assert(src.skip(i as int)[0] == src[i as int]);
            }
            assert(rest@ =~= src.skip(i + 1));
            lemma_arranged_key(m@, src, input_key(), i as int);
            if repeats_key(src, input_key(), i as int) {
                let j = choose|j: int| 0 <= j < i && input_key()(#[trigger] src[j]) == input_key()(src[i as int]);
                lemma_triple_equal(src[j].compartment@, src[j].substance@, src[j].reference.id@, b.compartment@, b.substance@, b.reference.id@);
                assert(input_matches(src[j], src[i as int].compartment@, src[i as int].substance@, src[i as int].reference.id@));
            }
        }
        let k = (b.compartment.clone(), b.substance.clone(), b.reference.id.clone());
        let ghost old_m = m@;
        let inserted = m.insert_new(k, b);
        proof {
            let pos = choose|p: int| 0 <= p <= old_m.len() && m@ == old_m.insert(p, (k, src[i as int]));
            lemma_arranges_insert(old_m, m@, src, input_key(), i as int, pos, k);
        }
        i = i + 1;
    }
    proof {
        assert(src.take(n as int) =~= src);
    }
    let entries = m.entries();
    let ghost em = m@;
    let mut out: Vec<RuleInputBinding> = Vec::new();
    let mut j: usize = 0;
    while j < entries.len()
        invariant
            0 <= j <= entries@.len(),
            entries@ == em,
            out@.len() == j,
            forall|p: int| 0 <= p < j ==> out@[p] == (#[trigger] em[p]).1,
        decreases entries@.len() - j,
    {
        out.push(entries[j].1.clone());
        j = j + 1;
    }
    proof {
        lemma_arrangement_values(em, out@, src, input_key());
    }
    out
}

/// Why bindings could not be collected.
#[derive(Debug, PartialEq, Eq)]
pub enum ExecutionBindingsError {
    /// Fires when one transfer-branch coordinate is bound twice.
    DuplicateTransferBinding {
        compartment: CompartmentId,
        substance: SubstanceId,
        branch: TransferBranchId,
    },
    /// Fires when one input coordinate is bound twice.
    DuplicateInputBinding { compartment: CompartmentId, substance: SubstanceId, input: InputId },
}

pub open spec fn transfer_matches(b: TransferBranchBinding, c: Seq<u8>, s: Seq<u8>, branch: Seq<u8>) -> bool {
    b.compartment@ == c && b.substance@ == s && b.branch@ == branch
}

pub open spec fn input_matches(b: RuleInputBinding, c: Seq<u8>, s: Seq<u8>, input: Seq<u8>) -> bool {
    b.compartment@ == c && b.substance@ == s && b.reference.id@ == input
}

/// Whether two positions of `bs` bind the transfer coordinate (`c`, `s`, `branch`).
pub open spec fn transfer_bound_twice(bs: Seq<TransferBranchBinding>, c: Seq<u8>, s: Seq<u8>, branch: Seq<u8>) -> bool {
    exists|a: int, b: int|
        0 <= a < bs.len() && 0 <= b < bs.len() && a != b && #[trigger] transfer_matches(bs[a], c, s, branch)
            && #[trigger] transfer_matches(bs[b], c, s, branch)
}

/// Whether two positions of `bs` bind the input coordinate (`c`, `s`, `input`).
pub open spec fn input_bound_twice(bs: Seq<RuleInputBinding>, c: Seq<u8>, s: Seq<u8>, input: Seq<u8>) -> bool {
    exists|a: int, b: int|
        0 <= a < bs.len() && 0 <= b < bs.len() && a != b && #[trigger] input_matches(bs[a], c, s, input)
            && #[trigger] input_matches(bs[b], c, s, input)
}

/// What a failure to collect `transfers` and `inputs` reports: a transfer coordinate bound
/// twice, or, where the transfer coordinates are distinct, an input coordinate bound twice.
pub open spec fn bindings_error(transfers: Seq<TransferBranchBinding>, inputs: Seq<RuleInputBinding>, e: ExecutionBindingsError) -> bool {
    match e {
        ExecutionBindingsError::DuplicateTransferBinding { compartment, substance, branch } => transfer_bound_twice(
            transfers,
            compartment@,
            substance@,
            branch@,
        ),
        ExecutionBindingsError::DuplicateInputBinding { compartment, substance, input } => distinct_transfer_bindings(transfers)
            && input_bound_twice(inputs, compartment@, substance@, input@),
    }
}

/// Transfer-binding coordinates are distinct.
pub open spec fn distinct_transfer_bindings(bs: Seq<TransferBranchBinding>) -> bool {
    forall|i: int, j: int|
        0 <= i < bs.len() && 0 <= j < bs.len() && i != j ==> !transfer_matches(
            #[trigger] bs[i],
            (#[trigger] bs[j]).compartment@,
            bs[j].substance@,
            bs[j].branch@,
        )
}

/// Input-binding coordinates are distinct.
pub open spec fn distinct_input_bindings(bs: Seq<RuleInputBinding>) -> bool {
    forall|i: int, j: int|
        0 <= i < bs.len() && 0 <= j < bs.len() && i != j ==> !input_matches(
            #[trigger] bs[i],
            (#[trigger] bs[j]).compartment@,
            bs[j].substance@,
            bs[j].reference.id@,
        )
}

/// Whether a transfer binding exists for the coordinate.
pub open spec fn binds_transfer(bs: Seq<TransferBranchBinding>, c: Seq<u8>, s: Seq<u8>, branch: Seq<u8>) -> bool {
    exists|i: int| 0 <= i < bs.len() && transfer_matches(#[trigger] bs[i], c, s, branch)
}

/// The destination bound to a coordinate (meaningful when `binds_transfer` holds).
pub open spec fn bound_destination(bs: Seq<TransferBranchBinding>, c: Seq<u8>, s: Seq<u8>, branch: Seq<u8>) -> Seq<u8> {
    bs[choose|i: int| 0 <= i < bs.len() && transfer_matches(#[trigger] bs[i], c, s, branch)].destination@
}

/// Whether an input binding exists for the coordinate.
pub open spec fn binds_input(bs: Seq<RuleInputBinding>, c: Seq<u8>, s: Seq<u8>, input: Seq<u8>) -> bool {
    exists|i: int| 0 <= i < bs.len() && input_matches(#[trigger] bs[i], c, s, input)
}

/// The input binding of a coordinate (meaningful when `binds_input` holds).
pub open spec fn bound_input(bs: Seq<RuleInputBinding>, c: Seq<u8>, s: Seq<u8>, input: Seq<u8>) -> RuleInputBinding {
    bs[choose|i: int| 0 <= i < bs.len() && input_matches(#[trigger] bs[i], c, s, input)]
}

/// The transfer and input bindings of a model.
#[derive(Debug, PartialEq, Eq)]
pub struct ExecutionBindings {
    pub transfer_bindings: Vec<TransferBranchBinding>,
    pub input_bindings: Vec<RuleInputBinding>,
}

impl ExecutionBindings {
    /// No coordinate is bound twice.
    pub open spec fn wf(&self) -> bool {
        distinct_transfer_bindings(self.transfer_bindings@) && distinct_input_bindings(
            self.input_bindings@,
        )
    }

    /// No bindings.
    pub fn empty() -> (r: ExecutionBindings)
        ensures
            r.wf(),
            r.transfer_bindings@.len() == 0,
            r.input_bindings@.len() == 0,
    {
        ExecutionBindings { transfer_bindings: Vec::new(), input_bindings: Vec::new() }
    }

    /// Collects bindings, rejecting a coordinate bound twice; the bindings are held in canonical
    /// order of their coordinates.
    pub fn new(transfer_bindings: Vec<TransferBranchBinding>, input_bindings: Vec<RuleInputBinding>) -> (r: Result<
        ExecutionBindings,
        ExecutionBindingsError,
    >)
        ensures
            match r {
                Ok(b) => {
                    &&& b.wf()
                    &&& canonical_order_of(b.transfer_bindings@, transfer_bindings@, transfer_key())
                    &&& b.transfer_bindings@.len() == transfer_bindings@.len()
                    &&& canonical_order_of(b.input_bindings@, input_bindings@, input_key())
                    &&& b.input_bindings@.len() == input_bindings@.len()
                },
                Err(e) => (!distinct_transfer_bindings(transfer_bindings@) || !distinct_input_bindings(input_bindings@))
                    && bindings_error(transfer_bindings@, input_bindings@, e),
            },
    {
        let ghost t0 = transfer_bindings@;
        let ghost i0 = input_bindings@;
        let mut i: usize = 0;
        while i < transfer_bindings.len()
            invariant
                0 <= i <= transfer_bindings@.len(),
                transfer_bindings@ == t0,
                forall|a: int, b: int|
                    0 <= a < i && 0 <= b < t0.len() && a != b ==> !transfer_matches(
                        #[trigger] t0[a],
                        (#[trigger] t0[b]).compartment@,
                        t0[b].substance@,
                        t0[b].branch@,
                    ),
            decreases t0.len() - i,
        {
            let mut j: usize = 0;
            while j < transfer_bindings.len()
                invariant
                    0 <= i < t0.len(),
                    0 <= j <= t0.len(),
                    transfer_bindings@ == t0,
                    forall|a: int, b: int|
                        0 <= a < i && 0 <= b < t0.len() && a != b ==> !transfer_matches(
                            #[trigger] t0[a],
                            (#[trigger] t0[b]).compartment@,
                            t0[b].substance@,
                            t0[b].branch@,
                        ),
                    forall|b: int|
                        0 <= b < j && b != i ==> !transfer_matches(
                            t0[i as int],
                            (#[trigger] t0[b]).compartment@,
                            t0[b].substance@,
                            t0[b].branch@,
                        ),
                decreases t0.len() - j,
            {
                let x = &transfer_bindings[i];
                let y = &transfer_bindings[j];
                if j != i && x.compartment.same(&y.compartment) && x.substance.same(&y.substance)
                    && x.branch.same(&y.branch) {
                    proof {
                        assert(transfer_matches(t0[i as int], t0[j as int].compartment@, t0[j as int].substance@, t0[j as int].branch@));
                        assert(!distinct_transfer_bindings(t0));
                        assert(transfer_matches(t0[i as int], x.compartment@, x.substance@, x.branch@));
                        assert(transfer_matches(t0[j as int], x.compartment@, x.substance@, x.branch@));
                    }
                    return Err(
                        ExecutionBindingsError::DuplicateTransferBinding {
                            compartment: x.compartment.clone(),
                            substance: x.substance.clone(),
                            branch: x.branch.clone(),
                        },
                    );
                }
                j = j + 1;
            }
            i = i + 1;
        }
        let mut i: usize = 0;
        while i < input_bindings.len()
            invariant
                0 <= i <= input_bindings@.len(),
                input_bindings@ == i0,
                transfer_bindings@ == t0,
                distinct_transfer_bindings(t0),
                forall|a: int, b: int|
                    0 <= a < i && 0 <= b < i0.len() && a != b ==> !input_matches(
                        #[trigger] i0[a],
                        (#[trigger] i0[b]).compartment@,
                        i0[b].substance@,
                        i0[b].reference.id@,
                    ),
            decreases i0.len() - i,
        {
            let mut j: usize = 0;
            while j < input_bindings.len()
                invariant
                    0 <= i < i0.len(),
                    0 <= j <= i0.len(),
                    input_bindings@ == i0,
                    transfer_bindings@ == t0,
                    distinct_transfer_bindings(t0),
                    forall|a: int, b: int|
                        0 <= a < i && 0 <= b < i0.len() && a != b ==> !input_matches(
                            #[trigger] i0[a],
                            (#[trigger] i0[b]).compartment@,
                            i0[b].substance@,
                            i0[b].reference.id@,
                        ),
                    forall|b: int|
                        0 <= b < j && b != i ==> !input_matches(
                            i0[i as int],
                            (#[trigger] i0[b]).compartment@,
                            i0[b].substance@,
                            i0[b].reference.id@,
                        ),
                decreases i0.len() - j,
            {
                let x = &input_bindings[i];
                let y = &input_bindings[j];
                if j != i && x.compartment.same(&y.compartment) && x.substance.same(&y.substance)
                    && x.reference.id.same(&y.reference.id) {
                    proof {
                        assert(input_matches(i0[i as int], i0[j as int].compartment@, i0[j as int].substance@, i0[j as int].reference.id@));
                        assert(!distinct_input_bindings(i0));
                        assert(input_matches(i0[i as int], x.compartment@, x.substance@, x.reference.id@));
                        assert(input_matches(i0[j as int], x.compartment@, x.substance@, x.reference.id@));
                    }
                    return Err(
                        ExecutionBindingsError::DuplicateInputBinding {
                            compartment: x.compartment.clone(),
                            substance: x.substance.clone(),
                            input: x.reference.id.clone(),
                        },
                    );
                }
                j = j + 1;
            }
            i = i + 1;
        }
        let transfer_bindings = arrange_transfers(transfer_bindings);
        let input_bindings = arrange_inputs(input_bindings);
        proof {
            lemma_canonical_keeps_distinct_transfers(transfer_bindings@, t0);
            lemma_canonical_keeps_distinct_inputs(input_bindings@, i0);
        }
        Ok(ExecutionBindings { transfer_bindings, input_bindings })
    }

    /// The destination bound to a transfer branch of the rule at (compartment, substance).
    pub fn destination(&self, compartment: &Ident, substance: &Ident, branch: &Ident) -> (r: Option<&Ident>)
        ensures
            match r {
                Some(d) => exists|i: int|
                    0 <= i < self.transfer_bindings@.len() && transfer_matches(
                        #[trigger] self.transfer_bindings@[i],
                        compartment@,
                        substance@,
                        branch@,
                    ) && self.transfer_bindings@[i].destination == *d,
                None => !binds_transfer(self.transfer_bindings@, compartment@, substance@, branch@),
            },
    {
        let mut i: usize = 0;
        while i < self.transfer_bindings.len()
            invariant
                0 <= i <= self.transfer_bindings@.len(),
                forall|j: int|
                    0 <= j < i ==> !transfer_matches(
                        #[trigger] self.transfer_bindings@[j],
                        compartment@,
                        substance@,
                        branch@,
                    ),
            decreases self.transfer_bindings@.len() - i,
        {
            let b = &self.transfer_bindings[i];
            if b.compartment.same(compartment) && b.substance.same(substance) && b.branch.same(branch) {
                return Some(&b.destination);
            }
            i = i + 1;
        }
        None
    }

    /// The binding of a generic input of the rule at (compartment, substance).
    pub fn input_binding(&self, compartment: &Ident, substance: &Ident, input: &Ident) -> (r: Option<&RuleInputBinding>)
        ensures
            match r {
                Some(b) => exists|i: int|
                    0 <= i < self.input_bindings@.len() && input_matches(
                        #[trigger] self.input_bindings@[i],
                        compartment@,
                        substance@,
                        input@,
                    ) && self.input_bindings@[i] == *b,
                None => !binds_input(self.input_bindings@, compartment@, substance@, input@),
            },
    {
        let mut i: usize = 0;
        while i < self.input_bindings.len()
            invariant
                0 <= i <= self.input_bindings@.len(),
                forall|j: int|
                    0 <= j < i ==> !input_matches(
                        #[trigger] self.input_bindings@[j],
                        compartment@,
                        substance@,
                        input@,
                    ),
            decreases self.input_bindings@.len() - i,
        {
            let b = &self.input_bindings[i];
            if b.compartment.same(compartment) && b.substance.same(substance) && b.reference.id.same(input) {
                return Some(b);
            }
            i = i + 1;
        }
        None
    }
}

} // verus!
