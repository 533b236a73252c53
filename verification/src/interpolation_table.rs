//! Piecewise interpolation tables referenced by rule expressions.

use vstd::prelude::*;
use crate::canonical_encoding::{
    be_u16, count_emit, emit, emit_each, emits, lemma_chain, lemma_emit_each_error_prefix,
    lemma_emit_each_full, lemma_emit_each_step, lemma_emits_then, lemma_emits_then_error,
    numerical_version_number, scalar_emit, string_emit, then, write_numerical_version,
    CanonicalEncode, CanonicalEncodingError, CanonicalField, CanonicalPayloadWriter, Emitted,
};
use crate::identity::TableId;
use crate::versions::NumericalSemanticsVersion;

verus! {

/// One table point: binary64 abscissa and ordinate bit patterns.
#[derive(Clone, Copy, Debug, PartialEq, Eq, Structural)]
pub struct TablePoint {
    pub abscissa_bits: u64,
    pub ordinate_bits: u64,
}

/// An interpolation table.
#[derive(Debug, PartialEq, Eq)]
pub struct InterpolationTable {
    pub id: TableId,
    pub numerical_semantics_version: NumericalSemanticsVersion,
    pub points: Vec<TablePoint>,
}

pub open spec fn point_emit(p: TablePoint) -> Emitted {
    then(
        scalar_emit(CanonicalField::InterpolationTableAbscissa, p.abscissa_bits),
        scalar_emit(CanonicalField::InterpolationTableOrdinate, p.ordinate_bits),
    )
}

pub open spec fn point_emitter() -> spec_fn(TablePoint) -> Emitted {
    |p: TablePoint| point_emit(p)
}

/// The payload grammar of an interpolation table.
pub open spec fn table_emit(t: InterpolationTable) -> Emitted {
    then(
        then(
            string_emit(CanonicalField::InterpolationTableIdentity, t.id@),
            emit(be_u16(numerical_version_number(t.numerical_semantics_version))),
        ),
        then(
            count_emit(CanonicalField::InterpolationTablePoints, t.points@.len() as usize),
            emit_each(t.points@, point_emitter()),
        ),
    )
}

fn write_points(points: &Vec<TablePoint>, writer: &mut CanonicalPayloadWriter) -> (r: Result<
    (),
    CanonicalEncodingError,
>)
    ensures
        emits(old(writer)@, final(writer)@, r, emit_each(points@, point_emitter())),
{
    let ghost start = writer@;
    let ghost f = point_emitter();
    let mut i: usize = 0;
    proof {
        assert(points@.take(0) =~= Seq::<TablePoint>::empty());
        assert(start + Seq::<u8>::empty() =~= start);
    }
    while i < points.len()
        invariant
            0 <= i <= points@.len(),
            f == point_emitter(),
            start == old(writer)@,
            writer@ == start + emit_each(points@.take(i as int), f).bytes,
            emit_each(points@.take(i as int), f).error is None,
        decreases points@.len() - i,
    {
        let ghost m = writer@;
        let p = points[i];
        let r1 = writer.write_scalar(CanonicalField::InterpolationTableAbscissa, p.abscissa_bits);
        let r = if r1.is_err() {
            proof {
                lemma_emits_then_error(m, writer@, r1, scalar_emit(CanonicalField::InterpolationTableAbscissa, p.abscissa_bits), scalar_emit(CanonicalField::InterpolationTableOrdinate, p.ordinate_bits));
            }
            r1
        } else {
            let ghost m2 = writer@;
            let r2 = writer.write_scalar(CanonicalField::InterpolationTableOrdinate, p.ordinate_bits);
            proof {
                lemma_emits_then(m, m2, writer@, scalar_emit(CanonicalField::InterpolationTableAbscissa, p.abscissa_bits), scalar_emit(CanonicalField::InterpolationTableOrdinate, p.ordinate_bits), r2);
            }
            r2
        };
        proof {
            lemma_emit_each_step(points@, f, i as int);
            lemma_emits_then(start, m, writer@, emit_each(points@.take(i as int), f), f(points@[i as int]), r);
        }
        if r.is_err() {
            proof {
                lemma_emit_each_error_prefix(points@, f, i + 1);
            }
            return r;
        }
        i = i + 1;
    }
    proof {
        lemma_emit_each_full(points@, f);
    }
    Ok(())
}

impl CanonicalEncode for InterpolationTable {
    open spec fn spec_root_tag(&self) -> u16 {
        0x0017
    }

    open spec fn spec_payload(&self) -> Emitted {
        table_emit(*self)
    }

    fn root_tag(&self) -> (r: u16) {
        0x0017
    }

    fn encode_payload(&self, writer: &mut CanonicalPayloadWriter) -> (r: Result<
        (),
        CanonicalEncodingError,
    >) {
        let ghost before = writer@;
        let ghost a = string_emit(CanonicalField::InterpolationTableIdentity, self.id@);
        let ghost b = emit(be_u16(numerical_version_number(self.numerical_semantics_version)));
        let ghost c = count_emit(CanonicalField::InterpolationTablePoints, self.points@.len() as usize);
        let ghost d = emit_each(self.points@, point_emitter());
        let r1 = writer.write_ident(CanonicalField::InterpolationTableIdentity, &self.id);
        if r1.is_err() {
            proof {
                lemma_emits_then_error(before, writer@, r1, a, b);
                lemma_emits_then_error(before, writer@, r1, then(a, b), then(c, d));
            }
            return r1;
        }
        let ghost m1 = writer@;
        write_numerical_version(writer, self.numerical_semantics_version);
        let ghost m2 = writer@;
        proof {
            lemma_chain(before, m1, m2, a, b, Ok(()));
        }
        writer.write_count(CanonicalField::InterpolationTablePoints, self.points.len());
        let ghost m3 = writer@;
        let r = write_points(&self.points, writer);
        proof {
            lemma_chain(m2, m3, writer@, c, d, r);
            lemma_chain(before, m2, writer@, then(a, b), then(c, d), r);
        }
        r
    }
}

} // verus!
