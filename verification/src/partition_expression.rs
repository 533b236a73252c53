//! Partition expressions: how a rule's released amount is split across named transfer branches.

use vstd::prelude::*;
use crate::canonical_encoding::{
    be_u16, count_emit, emit, emit_each, emits, expression_kind_tag, lemma_emit_each_error_prefix,
    lemma_emit_each_full, lemma_emit_each_step, lemma_emits_then, lemma_emits_then_error,
    numerical_version_number, scalar_emit, spec_expression_kind_tag, string_emit, then,
    write_numerical_version, CanonicalEncodingError, CanonicalField, CanonicalPayloadWriter,
    Emitted,
};
use crate::artifact_builder::{
    arranges, canonical_order_of, lemma_arranged_key, lemma_arranges_insert, lemma_arrangement_values,
    lemma_canonical_order_ignores_listing_order, repeats_key, same_values,
};
use crate::canonical_map::CanonicalMap;
use crate::identity::{Ident, SubstanceId, TransferBranchId};
use crate::rule_expression::{node_emit, write_node, RuleExpr};
use crate::rule_reference::ForcingRef;
use crate::versions::{NumericalSemanticsVersion, RuleIrVersion};

verus! {

/// A branch receiving a fixed fraction (binary64 bit pattern).
#[derive(Debug, PartialEq, Eq)]
pub struct FractionBranch {
    pub branch: TransferBranchId,
    pub fraction_bits: u64,
}

/// A branch receiving the value of an expression.
#[derive(Debug, PartialEq, Eq)]
pub struct ExpressionBranch {
    pub branch: TransferBranchId,
    pub expression: RuleExpr,
}

/// A dependent branch mapped to a branch of its carrier's partition.
#[derive(Debug, PartialEq, Eq)]
pub struct CarrierBranch {
    pub branch: TransferBranchId,
    pub carrier_branch: TransferBranchId,
}

impl CarrierBranch {
    /// Maps dependent branch `branch` to carrier branch `carrier_branch`.
    pub fn new(branch: TransferBranchId, carrier_branch: TransferBranchId) -> (r: Self)
        ensures
            r.branch == branch,
            r.carrier_branch == carrier_branch,
    {
        CarrierBranch { branch, carrier_branch }
    }
}

impl Clone for CarrierBranch {
    fn clone(&self) -> (r: Self)
        ensures
            r == *self,
    {
        CarrierBranch { branch: self.branch.clone(), carrier_branch: self.carrier_branch.clone() }
    }
}

/// Why a partition could not be constructed.
#[derive(Debug, PartialEq, Eq)]
pub enum PartitionExprError {
    /// Fires when one dependent branch identity occurs twice.
    DuplicateBranch { branch: TransferBranchId },
    /// Fires when one carrier branch is mapped twice.
    DuplicateCarrierBranch { branch: TransferBranchId },
}

/// The key of a carrier mapping by its dependent branch.
pub open spec fn mapping_branch_key() -> spec_fn(CarrierBranch) -> Seq<Seq<u8>> {
    |b: CarrierBranch| seq![b.branch@]
}

/// The key of a carrier mapping by its carrier branch.
pub open spec fn mapping_carrier_key() -> spec_fn(CarrierBranch) -> Seq<Seq<u8>> {
    |b: CarrierBranch| seq![b.carrier_branch@]
}

/// Whether mapping `i` of `bs` repeats an earlier dependent branch or an earlier carrier branch.
pub open spec fn mapping_rejected(bs: Seq<CarrierBranch>, i: int) -> bool {
    repeats_key(bs, mapping_branch_key(), i) || repeats_key(bs, mapping_carrier_key(), i)
}

/// The error reported for rejected mapping `i`: a repeated dependent branch first, else a
/// repeated carrier branch.
pub open spec fn mapping_error(bs: Seq<CarrierBranch>, i: int, e: PartitionExprError) -> bool {
    if repeats_key(bs, mapping_branch_key(), i) {
        e matches PartitionExprError::DuplicateBranch { branch } && branch@ == bs[i].branch@
    } else {
        e matches PartitionExprError::DuplicateCarrierBranch { branch } && branch@ == bs[i].carrier_branch@
    }
}

/// The encoding of a carrier partition does not depend on the order in which its mappings were
/// given: carrier partitions with the same versions and carrier, whose mappings are canonical
/// orders of lists holding the same mappings, encode the same.
pub proof fn lemma_mapping_order_keeps_encoding(
    p1: PartitionExpr,
    p2: PartitionExpr,
    given1: Seq<CarrierBranch>,
    given2: Seq<CarrierBranch>,
)
    requires
        p1.rule_ir_version == p2.rule_ir_version,
        p1.numerical_semantics_version == p2.numerical_semantics_version,
        p1.view matches PartitionView::CarrierProportional { carrier: c1, branches: o1 }
            && p2.view matches PartitionView::CarrierProportional { carrier: c2, branches: o2 } && c1@ == c2@
            && canonical_order_of(o1@, given1, mapping_branch_key()) && canonical_order_of(o2@, given2, mapping_branch_key()),
        same_values(given1, given2),
    ensures
        partition_emit(p1) == partition_emit(p2),
{
    let o1 = p1.view->CarrierProportional_branches;
    let o2 = p2.view->CarrierProportional_branches;
    lemma_canonical_order_ignores_listing_order(o1@, o2@, given1, given2, mapping_branch_key());
}

/// The shape of a partition.
#[derive(Debug, PartialEq, Eq)]
#[allow(inconsistent_fields)]
pub enum PartitionView {
    RetainAll,
    ReleaseAll { branch: TransferBranchId },
    ExogenousSeries { branch: TransferBranchId, series: ForcingRef },
    ConstantFractionTransfer { branch: TransferBranchId, fraction_bits: u64 },
    FixedFractionSplit { branches: Vec<FractionBranch> },
    ExpressionPartition { branches: Vec<ExpressionBranch> },
    CarrierProportional { carrier: SubstanceId, branches: Vec<CarrierBranch> },
}

/// A partition with the protocol versions it was authored under.
#[derive(Debug, PartialEq, Eq)]
pub struct PartitionExpr {
    pub rule_ir_version: RuleIrVersion,
    pub numerical_semantics_version: NumericalSemanticsVersion,
    pub view: PartitionView,
}

pub open spec fn fraction_branch_emit(b: FractionBranch) -> Emitted {
    then(
        string_emit(CanonicalField::PartitionBranchIdentity, b.branch@),
        scalar_emit(CanonicalField::PartitionFraction, b.fraction_bits),
    )
}

pub open spec fn fraction_branch_emitter() -> spec_fn(FractionBranch) -> Emitted {
    |b: FractionBranch| fraction_branch_emit(b)
}

pub open spec fn expression_branch_emit(b: ExpressionBranch) -> Emitted {
    then(
        string_emit(CanonicalField::PartitionBranchIdentity, b.branch@),
        node_emit(b.expression.node),
    )
}

pub open spec fn expression_branch_emitter() -> spec_fn(ExpressionBranch) -> Emitted {
    |b: ExpressionBranch| expression_branch_emit(b)
}

pub open spec fn carrier_branch_emit(b: CarrierBranch) -> Emitted {
    then(
        string_emit(CanonicalField::PartitionBranchIdentity, b.branch@),
        string_emit(CanonicalField::PartitionBranchIdentity, b.carrier_branch@),
    )
}

pub open spec fn carrier_branch_emitter() -> spec_fn(CarrierBranch) -> Emitted {
    |b: CarrierBranch| carrier_branch_emit(b)
}

/// The canonical grammar of a partition's shape.
pub open spec fn partition_view_emit(v: PartitionView) -> Emitted {
    match v {
        PartitionView::RetainAll => emit(seq![0u8]),
        PartitionView::ReleaseAll { branch } => then(
            emit(seq![1u8]),
            string_emit(CanonicalField::PartitionBranchIdentity, branch@),
        ),
        PartitionView::ExogenousSeries { branch, series } => then(
            then(emit(seq![2u8]), string_emit(CanonicalField::PartitionBranchIdentity, branch@)),
            then(
                emit(seq![spec_expression_kind_tag(series.value_kind)]),
                string_emit(CanonicalField::RuleForcingIdentity, series.id@),
            ),
        ),
        PartitionView::ConstantFractionTransfer { branch, fraction_bits } => then(
            then(emit(seq![3u8]), string_emit(CanonicalField::PartitionBranchIdentity, branch@)),
            scalar_emit(CanonicalField::PartitionFraction, fraction_bits),
        ),
        PartitionView::FixedFractionSplit { branches } => then(
            then(emit(seq![4u8]), count_emit(CanonicalField::PartitionBranches, branches@.len() as usize)),
            emit_each(branches@, fraction_branch_emitter()),
        ),
        PartitionView::ExpressionPartition { branches } => then(
            then(emit(seq![5u8]), count_emit(CanonicalField::PartitionBranches, branches@.len() as usize)),
            emit_each(branches@, expression_branch_emitter()),
        ),
        PartitionView::CarrierProportional { carrier, branches } => then(
            then(
                then(emit(seq![6u8]), string_emit(CanonicalField::PartitionCarrierSubstance, carrier@)),
                count_emit(CanonicalField::PartitionBranches, branches@.len() as usize),
            ),
            emit_each(branches@, carrier_branch_emitter()),
        ),
    }
}

/// The framed canonical grammar of a partition: its versions, then its shape.
pub open spec fn partition_emit(p: PartitionExpr) -> Emitted {
    then(
        emit(be_u16(1) + be_u16(numerical_version_number(p.numerical_semantics_version))),
        partition_view_emit(p.view),
    )
}

fn write_fraction_branches(branches: &Vec<FractionBranch>, writer: &mut CanonicalPayloadWriter) -> (r: Result<
    (),
    CanonicalEncodingError,
>)
    ensures
        emits(old(writer)@, final(writer)@, r, emit_each(branches@, fraction_branch_emitter())),
{
    let ghost start = writer@;
    let ghost f = fraction_branch_emitter();
    let mut i: usize = 0;
    proof {
        assert(branches@.take(0) =~= Seq::<FractionBranch>::empty());
        assert(start + Seq::<u8>::empty() =~= start);
    }
    while i < branches.len()
        invariant
            0 <= i <= branches@.len(),
            f == fraction_branch_emitter(),
            start == old(writer)@,
            writer@ == start + emit_each(branches@.take(i as int), f).bytes,
            emit_each(branches@.take(i as int), f).error is None,
        decreases branches@.len() - i,
    {
        let ghost m = writer@;
        let b = &branches[i];
        let r1 = writer.write_ident(CanonicalField::PartitionBranchIdentity, &b.branch);
        let r = if r1.is_err() {
            proof {
                lemma_emits_then_error(m, writer@, r1, string_emit(CanonicalField::PartitionBranchIdentity, b.branch@), scalar_emit(CanonicalField::PartitionFraction, b.fraction_bits));
            }
            r1
        } else {
            let ghost m2 = writer@;
            let r2 = writer.write_scalar(CanonicalField::PartitionFraction, b.fraction_bits);
            proof {
                lemma_emits_then(m, m2, writer@, string_emit(CanonicalField::PartitionBranchIdentity, b.branch@), scalar_emit(CanonicalField::PartitionFraction, b.fraction_bits), r2);
            }
            r2
        };
        proof {
            lemma_emit_each_step(branches@, f, i as int);
            lemma_emits_then(start, m, writer@, emit_each(branches@.take(i as int), f), f(branches@[i as int]), r);
        }
        if r.is_err() {
            proof {
                lemma_emit_each_error_prefix(branches@, f, i + 1);
            }
            return r;
        }
        i = i + 1;
    }
    proof {
        lemma_emit_each_full(branches@, f);
    }
    Ok(())
}

fn write_expression_branches(branches: &Vec<ExpressionBranch>, writer: &mut CanonicalPayloadWriter) -> (r: Result<
    (),
    CanonicalEncodingError,
>)
    ensures
        emits(old(writer)@, final(writer)@, r, emit_each(branches@, expression_branch_emitter())),
{
    let ghost start = writer@;
    let ghost f = expression_branch_emitter();
    let mut i: usize = 0;
    proof {
        assert(branches@.take(0) =~= Seq::<ExpressionBranch>::empty());
        assert(start + Seq::<u8>::empty() =~= start);
    }
    while i < branches.len()
        invariant
            0 <= i <= branches@.len(),
            f == expression_branch_emitter(),
            start == old(writer)@,
            writer@ == start + emit_each(branches@.take(i as int), f).bytes,
            emit_each(branches@.take(i as int), f).error is None,
        decreases branches@.len() - i,
    {
        let ghost m = writer@;
        let b = &branches[i];
        let r1 = writer.write_ident(CanonicalField::PartitionBranchIdentity, &b.branch);
        let r = if r1.is_err() {
            proof {
                lemma_emits_then_error(m, writer@, r1, string_emit(CanonicalField::PartitionBranchIdentity, b.branch@), node_emit(b.expression.node));
            }
            r1
        } else {
            let ghost m2 = writer@;
            let r2 = write_node(&b.expression.node, writer);
            proof {
                lemma_emits_then(m, m2, writer@, string_emit(CanonicalField::PartitionBranchIdentity, b.branch@), node_emit(b.expression.node), r2);
            }
            r2
        };
        proof {
            lemma_emit_each_step(branches@, f, i as int);
            lemma_emits_then(start, m, writer@, emit_each(branches@.take(i as int), f), f(branches@[i as int]), r);
        }
        if r.is_err() {
            proof {
                lemma_emit_each_error_prefix(branches@, f, i + 1);
            }
            return r;
        }
        i = i + 1;
    }
    proof {
        lemma_emit_each_full(branches@, f);
    }
    Ok(())
}

fn write_carrier_branches(branches: &Vec<CarrierBranch>, writer: &mut CanonicalPayloadWriter) -> (r: Result<
    (),
    CanonicalEncodingError,
>)
    ensures
        emits(old(writer)@, final(writer)@, r, emit_each(branches@, carrier_branch_emitter())),
{
    let ghost start = writer@;
    let ghost f = carrier_branch_emitter();
    let mut i: usize = 0;
    proof {
        assert(branches@.take(0) =~= Seq::<CarrierBranch>::empty());
        assert(start + Seq::<u8>::empty() =~= start);
    }
    while i < branches.len()
        invariant
            0 <= i <= branches@.len(),
            f == carrier_branch_emitter(),
            start == old(writer)@,
            writer@ == start + emit_each(branches@.take(i as int), f).bytes,
            emit_each(branches@.take(i as int), f).error is None,
        decreases branches@.len() - i,
    {
        let ghost m = writer@;
        let b = &branches[i];
        let r1 = writer.write_ident(CanonicalField::PartitionBranchIdentity, &b.branch);
        let r = if r1.is_err() {
            proof {
                lemma_emits_then_error(m, writer@, r1, string_emit(CanonicalField::PartitionBranchIdentity, b.branch@), string_emit(CanonicalField::PartitionBranchIdentity, b.carrier_branch@));
            }
            r1
        } else {
            let ghost m2 = writer@;
            let r2 = writer.write_ident(CanonicalField::PartitionBranchIdentity, &b.carrier_branch);
            proof {
                lemma_emits_then(m, m2, writer@, string_emit(CanonicalField::PartitionBranchIdentity, b.branch@), string_emit(CanonicalField::PartitionBranchIdentity, b.carrier_branch@), r2);
            }
            r2
        };
        proof {
            lemma_emit_each_step(branches@, f, i as int);
            lemma_emits_then(start, m, writer@, emit_each(branches@.take(i as int), f), f(branches@[i as int]), r);
        }
        if r.is_err() {
            proof {
                lemma_emit_each_error_prefix(branches@, f, i + 1);
            }
            return r;
        }
        i = i + 1;
    }
    proof {
        lemma_emit_each_full(branches@, f);
    }
    Ok(())
}

/// Writes `a` (already written since `before`, no error) followed by a step that produced `r`.
proof fn lemma_chain(before: Seq<u8>, mid: Seq<u8>, after: Seq<u8>, a: Emitted, b: Emitted, r: Result<(), CanonicalEncodingError>)
    requires
        mid == before + a.bytes,
        a.error is None,
        emits(mid, after, r, b),
    ensures
        emits(before, after, r, then(a, b)),
        r is Ok ==> after == before + then(a, b).bytes && then(a, b).error is None,
{
    lemma_emits_then(before, mid, after, a, b, r);
}

fn write_partition_view(view: &PartitionView, writer: &mut CanonicalPayloadWriter) -> (r: Result<
    (),
    CanonicalEncodingError,
>)
    ensures
        emits(old(writer)@, final(writer)@, r, partition_view_emit(*view)),
{
    let ghost before = writer@;
    match view {
        PartitionView::RetainAll => {
            writer.write_u8(0);
            Ok(())
        },
        PartitionView::ReleaseAll { branch } => {
            writer.write_u8(1);
            let ghost m = writer@;
            let r = writer.write_ident(CanonicalField::PartitionBranchIdentity, branch);
            proof {
                lemma_chain(before, m, writer@, emit(seq![1u8]), string_emit(CanonicalField::PartitionBranchIdentity, branch@), r);
            }
            r
        },
        PartitionView::ExogenousSeries { branch, series } => {
            writer.write_u8(2);
            let ghost m = writer@;
            let ghost a = emit(seq![2u8]);
            let ghost b = string_emit(CanonicalField::PartitionBranchIdentity, branch@);
            let ghost c = then(
                emit(seq![spec_expression_kind_tag(series.value_kind)]),
                string_emit(CanonicalField::RuleForcingIdentity, series.id@),
            );
            let r1 = writer.write_ident(CanonicalField::PartitionBranchIdentity, branch);
            proof {
                lemma_chain(before, m, writer@, a, b, r1);
            }
            if r1.is_err() {
                proof {
                    lemma_emits_then_error(before, writer@, r1, then(a, b), c);
                }
                return r1;
            }
            let ghost m2 = writer@;
            writer.write_u8(expression_kind_tag(series.value_kind));
            let ghost m3 = writer@;
            let r = writer.write_ident(CanonicalField::RuleForcingIdentity, &series.id);
            proof {
                lemma_chain(m2, m3, writer@, emit(seq![spec_expression_kind_tag(series.value_kind)]), string_emit(CanonicalField::RuleForcingIdentity, series.id@), r);
                lemma_chain(before, m2, writer@, then(a, b), c, r);
            }
            r
        },
        PartitionView::ConstantFractionTransfer { branch, fraction_bits } => {
            writer.write_u8(3);
            let ghost m = writer@;
            let ghost a = emit(seq![3u8]);
            let ghost b = string_emit(CanonicalField::PartitionBranchIdentity, branch@);
            let ghost c = scalar_emit(CanonicalField::PartitionFraction, *fraction_bits);
            let r1 = writer.write_ident(CanonicalField::PartitionBranchIdentity, branch);
            proof {
                lemma_chain(before, m, writer@, a, b, r1);
            }
            if r1.is_err() {
                proof {
                    lemma_emits_then_error(before, writer@, r1, then(a, b), c);
                }
                return r1;
            }
            let ghost m2 = writer@;
            let r = writer.write_scalar(CanonicalField::PartitionFraction, *fraction_bits);
            proof {
                lemma_chain(before, m2, writer@, then(a, b), c, r);
            }
            r
        },
        PartitionView::FixedFractionSplit { branches } => {
            writer.write_u8(4);
            let ghost m = writer@;
            let ghost a = emit(seq![4u8]);
            let ghost b = count_emit(CanonicalField::PartitionBranches, branches@.len() as usize);
            let r1 = writer.write_count(CanonicalField::PartitionBranches, branches.len());
            proof {
                lemma_chain(before, m, writer@, a, b, r1);
            }
            if r1.is_err() {
                proof {
                    lemma_emits_then_error(before, writer@, r1, then(a, b), emit_each(branches@, fraction_branch_emitter()));
                }
                return r1;
            }
            let ghost m2 = writer@;
            let r = write_fraction_branches(branches, writer);
            proof {
                lemma_chain(before, m2, writer@, then(a, b), emit_each(branches@, fraction_branch_emitter()), r);
            }
            r
        },
        PartitionView::ExpressionPartition { branches } => {
            writer.write_u8(5);
            let ghost m = writer@;
            let ghost a = emit(seq![5u8]);
            let ghost b = count_emit(CanonicalField::PartitionBranches, branches@.len() as usize);
            let r1 = writer.write_count(CanonicalField::PartitionBranches, branches.len());
            proof {
                lemma_chain(before, m, writer@, a, b, r1);
            }
            if r1.is_err() {
                proof {
                    lemma_emits_then_error(before, writer@, r1, then(a, b), emit_each(branches@, expression_branch_emitter()));
                }
                return r1;
            }
            let ghost m2 = writer@;
            let r = write_expression_branches(branches, writer);
            proof {
                lemma_chain(before, m2, writer@, then(a, b), emit_each(branches@, expression_branch_emitter()), r);
            }
            r
        },
        PartitionView::CarrierProportional { carrier, branches } => {
            writer.write_u8(6);
            let ghost m = writer@;
            let ghost a = emit(seq![6u8]);
            let ghost b = string_emit(CanonicalField::PartitionCarrierSubstance, carrier@);
            let ghost c = count_emit(CanonicalField::PartitionBranches, branches@.len() as usize);
            let ghost d = emit_each(branches@, carrier_branch_emitter());
            let r1 = writer.write_ident(CanonicalField::PartitionCarrierSubstance, carrier);
            proof {
                lemma_chain(before, m, writer@, a, b, r1);
            }
            if r1.is_err() {
                proof {
                    lemma_emits_then_error(before, writer@, r1, then(a, b), c);
                    lemma_emits_then_error(before, writer@, r1, then(then(a, b), c), d);
                }
                return r1;
            }
            let ghost m2 = writer@;
            let r2 = writer.write_count(CanonicalField::PartitionBranches, branches.len());
            proof {
                lemma_chain(before, m2, writer@, then(a, b), c, r2);
            }
            if r2.is_err() {
                proof {
                    lemma_emits_then_error(before, writer@, r2, then(then(a, b), c), d);
                }
                return r2;
            }
            let ghost m3 = writer@;
            let r = write_carrier_branches(branches, writer);
            proof {
                lemma_chain(before, m3, writer@, then(then(a, b), c), d, r);
            }
            r
        },
    }
}

impl PartitionExpr {
    /// A partition that moves a dependent substance along the branches of its carrier's
    /// partition, each dependent branch mapped to one carrier branch. The mappings are held in
    /// canonical order of their dependent branches.
    ///
    /// Mappings are checked in the order given: the first that repeats an earlier dependent
    /// branch, or else an earlier carrier branch, is reported.
    #[verifier::loop_isolation(false)]
    pub fn carrier_proportional(
        rule_ir_version: RuleIrVersion,
        numerical_semantics_version: NumericalSemanticsVersion,
        carrier: SubstanceId,
        branches: Vec<CarrierBranch>,
    ) -> (r: Result<PartitionExpr, PartitionExprError>)
        ensures
            match r {
                Ok(p) => {
                    &&& forall|i: int| 0 <= i < branches@.len() ==> !mapping_rejected(branches@, i)
                    &&& p.rule_ir_version == rule_ir_version
                    &&& p.numerical_semantics_version == numerical_semantics_version
                    &&& p.view matches PartitionView::CarrierProportional { carrier: c, branches: out }
                        && c == carrier && canonical_order_of(out@, branches@, mapping_branch_key())
                        && out@.len() == branches@.len()
                },
                Err(e) => exists|i: int|
                    0 <= i < branches@.len() && mapping_rejected(branches@, i) && (forall|j: int|
                        0 <= j < i ==> !mapping_rejected(branches@, j)) && mapping_error(branches@, i, e),
            },
    {
        let ghost src = branches@;
        let ghost n = src.len();
        let mut by_branch: CanonicalMap<Ident, CarrierBranch> = CanonicalMap::new();
        let mut by_carrier: CanonicalMap<Ident, CarrierBranch> = CanonicalMap::new();
        let mut rest = branches;
        let count = rest.len();
        let mut i: usize = 0;
        proof {
            assert(rest@ =~= src.skip(0));
            assert(src.take(0) =~= Seq::<CarrierBranch>::empty());
        }
        while i < count
            invariant
                0 <= i <= count,
                count == n,
                n == src.len(),
                rest@ == src.skip(i as int),
                by_branch.wf(),
                by_carrier.wf(),
                arranges(by_branch@, src.take(i as int), mapping_branch_key()),
                arranges(by_carrier@, src.take(i as int), mapping_carrier_key()),
                forall|j: int| 0 <= j < i ==> !mapping_rejected(src, j),
            decreases count - i,
        {
            let b = rest.remove(0);
            proof {
                assert(src[i as int] == b) by {
                    assert(src.skip(i as int)[0] == src[i as int]);
                }
                assert(rest@ =~= src.skip(i + 1));
                lemma_arranged_key(by_branch@, src, mapping_branch_key(), i as int);
                lemma_arranged_key(by_carrier@, src, mapping_carrier_key(), i as int);
            }
            if by_branch.contains_key(&b.branch) {
                let e = PartitionExprError::DuplicateBranch { branch: b.branch };
                proof {
                    assert(mapping_rejected(src, i as int) && mapping_error(src, i as int, e));
                }
                return Err(e);
            }
            if by_carrier.contains_key(&b.carrier_branch) {
                let e = PartitionExprError::DuplicateCarrierBranch { branch: b.carrier_branch };
                proof {
                    assert(mapping_rejected(src, i as int) && mapping_error(src, i as int, e));
                }
                return Err(e);
            }
            let copy = b.clone();
            let k1 = b.branch.clone();
            let k2 = b.carrier_branch.clone();
            let ghost old1 = by_branch@;
            let ghost old2 = by_carrier@;
            by_branch.insert_new(k1, b);
            by_carrier.insert_new(k2, copy);
            proof {
                let p1 = choose|p: int| 0 <= p <= old1.len() && by_branch@ == old1.insert(p, (k1, src[i as int]));
                lemma_arranges_insert(old1, by_branch@, src, mapping_branch_key(), i as int, p1, k1);
                let p2 = choose|p: int| 0 <= p <= old2.len() && by_carrier@ == old2.insert(p, (k2, src[i as int]));
                lemma_arranges_insert(old2, by_carrier@, src, mapping_carrier_key(), i as int, p2, k2);
            }
            i = i + 1;
        }
        proof {
            assert(src.take(n as int) =~= src);
        }
        let entries = by_branch.entries();
        let ghost m = by_branch@;
        let mut out: Vec<CarrierBranch> = Vec::new();
        let mut j: usize = 0;
        while j < entries.len()
            invariant
                0 <= j <= entries@.len(),
                entries@ == m,
                out@.len() == j,
                forall|p: int| 0 <= p < j ==> out@[p] == m[p].1,
            decreases entries@.len() - j,
        {
            out.push(entries[j].1.clone());
            j = j + 1;
        }
        proof {
            lemma_arrangement_values(m, out@, src, mapping_branch_key());
        }
        Ok(PartitionExpr {
            rule_ir_version,
            numerical_semantics_version,
            view: PartitionView::CarrierProportional { carrier, branches: out },
        })
    }

    /// Writes the partition's framed payload: its versions, then its shape.
    pub fn encode_payload(&self, writer: &mut CanonicalPayloadWriter) -> (r: Result<
        (),
        CanonicalEncodingError,
    >)
        ensures
            emits(old(writer)@, final(writer)@, r, partition_emit(*self)),
    {
        let ghost before = writer@;
        match self.rule_ir_version {
            RuleIrVersion::V1 => writer.write_u16(1),
        }
        write_numerical_version(writer, self.numerical_semantics_version);
        let ghost mid = writer@;
        let ghost p = emit(be_u16(1) + be_u16(numerical_version_number(self.numerical_semantics_version)));
        proof {
            assert(mid =~= before + p.bytes);
        }
        let r = write_partition_view(&self.view, writer);
        proof {
            lemma_emits_then(before, mid, writer@, p, partition_view_emit(self.view), r);
        }
        r
    }
}

} // verus!
