//! Exogenous forcing series covering a run horizon.

use vstd::prelude::*;
use crate::canonical_encoding::{
    be_u64, count_emit, emit, emit_each, emits, expression_kind_tag, lemma_chain,
    lemma_emits_then_error, scalar_emitter, spec_expression_kind_tag, string_emit, then,
    write_scalars, CanonicalEncode, CanonicalEncodingError, CanonicalField,
    CanonicalPayloadWriter, Emitted,
};
use crate::identity::ForcingId;
use crate::rule_reference::ExpressionValueKind;
use crate::temporal::RunHorizon;

verus! {

/// A forcing series: one binary64 value (bit pattern) per timestep of its horizon.
#[derive(Debug, PartialEq, Eq)]
pub struct ForcingSeries {
    pub id: ForcingId,
    pub value_kind: ExpressionValueKind,
    pub horizon: RunHorizon,
    pub values: Vec<u64>,
}

/// The payload grammar of a forcing series.
pub open spec fn forcing_emit(f: ForcingSeries) -> Emitted {
    then(
        then(
            string_emit(CanonicalField::ForcingSeriesIdentity, f.id@),
            emit(seq![spec_expression_kind_tag(f.value_kind)] + be_u64(f.horizon.first) + be_u64(f.horizon.last)),
        ),
        then(
            count_emit(CanonicalField::ForcingSeriesValues, f.values@.len() as usize),
            emit_each(f.values@, scalar_emitter(CanonicalField::ForcingSeriesValue)),
        ),
    )
}

impl CanonicalEncode for ForcingSeries {
    open spec fn spec_root_tag(&self) -> u16 {
        0x0016
    }

    open spec fn spec_payload(&self) -> Emitted {
        forcing_emit(*self)
    }

    fn root_tag(&self) -> (r: u16) {
        0x0016
    }

    fn encode_payload(&self, writer: &mut CanonicalPayloadWriter) -> (r: Result<
        (),
        CanonicalEncodingError,
    >) {
        let ghost before = writer@;
        let ghost a = string_emit(CanonicalField::ForcingSeriesIdentity, self.id@);
        let ghost b = emit(seq![spec_expression_kind_tag(self.value_kind)] + be_u64(self.horizon.first) + be_u64(self.horizon.last));
        let ghost c = count_emit(CanonicalField::ForcingSeriesValues, self.values@.len() as usize);
        let ghost d = emit_each(self.values@, scalar_emitter(CanonicalField::ForcingSeriesValue));
        let r1 = writer.write_ident(CanonicalField::ForcingSeriesIdentity, &self.id);
        if r1.is_err() {
            proof {
                lemma_emits_then_error(before, writer@, r1, a, b);
                lemma_emits_then_error(before, writer@, r1, then(a, b), then(c, d));
            }
            return r1;
        }
        let ghost m1 = writer@;
        writer.write_u8(expression_kind_tag(self.value_kind));
        writer.write_u64(self.horizon.first);
        writer.write_u64(self.horizon.last);
        let ghost m2 = writer@;
        proof {
            assert(m2 =~= m1 + b.bytes);
            lemma_chain(before, m1, m2, a, b, Ok(()));
        }
        writer.write_count(CanonicalField::ForcingSeriesValues, self.values.len());
        let ghost m3 = writer@;
        let r = write_scalars(writer, CanonicalField::ForcingSeriesValue, &self.values);
        proof {
            lemma_chain(m2, m3, writer@, c, d, r);
            lemma_chain(before, m2, writer@, then(a, b), then(c, d), r);
        }
        r
    }
}

} // verus!
