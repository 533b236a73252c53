//! model_artifact : ModelComponents ⇀ (ModelDigest, ImmutableModelArtifact)   (pure, deterministic)
//!
//! The digest is SHA-256 over the artifact's canonical V1 bytes alone. Every value
//! required to reproduce execution is owned by the artifact; callers can observe, but cannot
//! mutate, it.

use vstd::prelude::*;
use vstd::string::StringSliceAdditionalSpecFns;
use vstd::utf8::encode_utf8;
use std::sync::Arc;
pub use crate::artifact_error::ModelArtifactError;
pub use crate::artifact::ModelArtifact;
pub use crate::artifact_builder::{ModelArtifactBuilder, QuantumCount};
pub use crate::substitution::RuleParameterSubstitutionError;
pub use crate::archive::{ModelArtifactArchive, ModelArtifactArchiveError, ModelArtifactStore};
use crate::canonical_encoding::finite_bits;
use crate::canonical_map::{sorted_keys, CanonicalMap};
use crate::identity::{CanonicalKey, CompartmentId, Ident, ParameterId, SubstanceId};
use crate::partition_expression::PartitionExpr;
use crate::rule_expression::RuleExpr;
use crate::versions::{
    CanonicalEncodingVersion, InterpreterVersion, NumericalSemanticsVersion, RuleIrVersion,
};

verus! {

// ---------------------------------------------------------------------------------------------
// Trusted calls into std and sha2
// ---------------------------------------------------------------------------------------------

/// Calls `Arc::clone`, which makes another pointer to the same allocation; the contract claims
/// that the new pointer shows the same value.
#[verifier::external_body]
pub(crate) fn share<T>(a: &Arc<T>) -> (r: Arc<T>)
    ensures
        r == *a,
{
    Arc::clone(a)
}

/// Calls `String::push`, which appends one character; the contract claims exactly that.
#[verifier::external_body]
fn string_push(s: &mut String, c: char)
    ensures
        final(s)@ == old(s)@.push(c),
{
    s.push(c)
}

/// The SHA-256 digest of a byte string (FIPS 180-4), named rather than restated.
pub uninterp spec fn spec_sha256(data: Seq<u8>) -> Seq<u8>;

/// Calls `<sha2::Sha256 as sha2::Digest>::digest` on `data`; the contract claims that the
/// 32-byte result is the SHA-256 digest of exactly the bytes of `data`.
#[verifier::external_body]
pub(crate) fn sha256(data: &[u8]) -> (r: [u8; 32])
    ensures
        r@ == spec_sha256(data@),
{
    <sha2::Sha256 as sha2::Digest>::digest(data).into()
}

// ---------------------------------------------------------------------------------------------
// Versions
// ---------------------------------------------------------------------------------------------

/// The protocol versions that participate in a model artifact's identity.
#[derive(Clone, Copy, Debug, PartialEq, Eq, Structural)]
pub struct ModelVersions {
    rule_ir: RuleIrVersion,
    interpreter: InterpreterVersion,
    numerical_semantics: NumericalSemanticsVersion,
    canonical_encoding: CanonicalEncodingVersion,
}

impl ModelVersions {
    pub closed spec fn spec_rule_ir(self) -> RuleIrVersion {
        self.rule_ir
    }

    pub closed spec fn spec_interpreter(self) -> InterpreterVersion {
        self.interpreter
    }

    pub closed spec fn spec_numerical_semantics(self) -> NumericalSemanticsVersion {
        self.numerical_semantics
    }

    pub closed spec fn spec_canonical_encoding(self) -> CanonicalEncodingVersion {
        self.canonical_encoding
    }

    /// Constructs an explicit version selection.
    pub fn new(
        rule_ir: RuleIrVersion,
        interpreter: InterpreterVersion,
        numerical_semantics: NumericalSemanticsVersion,
        canonical_encoding: CanonicalEncodingVersion,
    ) -> (r: Self)
        ensures
            r.spec_rule_ir() == rule_ir,
            r.spec_interpreter() == interpreter,
            r.spec_numerical_semantics() == numerical_semantics,
            r.spec_canonical_encoding() == canonical_encoding,
    {
        ModelVersions { rule_ir, interpreter, numerical_semantics, canonical_encoding }
    }

    pub fn rule_ir(self) -> (r: RuleIrVersion)
        ensures
            r == self.spec_rule_ir(),
    {
        self.rule_ir
    }

    pub fn interpreter(self) -> (r: InterpreterVersion)
        ensures
            r == self.spec_interpreter(),
    {
        self.interpreter
    }

    pub fn numerical_semantics(self) -> (r: NumericalSemanticsVersion)
        ensures
            r == self.spec_numerical_semantics(),
    {
        self.numerical_semantics
    }

    pub fn canonical_encoding(self) -> (r: CanonicalEncodingVersion)
        ensures
            r == self.spec_canonical_encoding(),
    {
        self.canonical_encoding
    }
}

impl Default for ModelVersions {
    fn default() -> (r: Self)
        ensures
            r.spec_rule_ir() == RuleIrVersion::V1,
            r.spec_interpreter() == InterpreterVersion::V1,
            r.spec_numerical_semantics() == NumericalSemanticsVersion::V1,
            r.spec_canonical_encoding() == CanonicalEncodingVersion::V1,
    {
        ModelVersions::new(
            RuleIrVersion::V1,
            InterpreterVersion::V1,
            NumericalSemanticsVersion::V1,
            CanonicalEncodingVersion::V1,
        )
    }
}

// ---------------------------------------------------------------------------------------------
// Units and quanta
// ---------------------------------------------------------------------------------------------

/// Whether byte `b` is ASCII whitespace: space, tab, line feed, vertical tab, form feed or
/// carriage return (the ASCII characters that `str::trim` removes).
pub open spec fn ascii_whitespace(b: u8) -> bool {
    b == 0x20 || (0x09 <= b && b <= 0x0d)
}

/// A canonical unit identity: non-empty ASCII text whose first and last bytes are not
/// whitespace.
pub open spec fn canonical_unit_identity(bytes: Seq<u8>) -> bool {
    &&& bytes.len() > 0
    &&& forall|i: int| 0 <= i < bytes.len() ==> #[trigger] bytes[i] < 0x80
    &&& !ascii_whitespace(bytes[0])
    &&& !ascii_whitespace(bytes[bytes.len() - 1])
}

/// Whether `b` is ASCII whitespace.
fn ascii_whitespace_byte(b: u8) -> (r: bool)
    ensures
        r == ascii_whitespace(b),
{
    b == 0x20 || (0x09 <= b && b <= 0x0d)
}

/// A canonical unit identity. Units remain opaque to the substance-agnostic engine.
#[derive(Debug, PartialEq, Eq, PartialOrd, Ord)]
pub struct UnitId {
    value: String,
}

impl View for UnitId {
    type V = Seq<u8>;

    closed spec fn view(&self) -> Seq<u8> {
        encode_utf8(self.value@)
    }
}

impl Clone for UnitId {
    fn clone(&self) -> (r: Self)
        ensures
            r == *self,
    {
        proof {
            use_type_invariant(self);
        }
        UnitId { value: self.value.clone() }
    }
}

impl UnitId {
    /// Every unit identity holds canonical text.
    #[verifier::type_invariant]
    spec fn holds_canonical_text(self) -> bool {
        canonical_unit_identity(self@)
    }

    /// Parses a non-empty ASCII unit identity without leading or trailing whitespace.
    pub fn parse(value: &str) -> (r: Result<UnitId, ModelArtifactError>)
        ensures
            match r {
                Ok(u) => canonical_unit_identity(value.spec_bytes()) && u@ == value.spec_bytes() && u.spec_text() == value@,
                Err(e) => !canonical_unit_identity(value.spec_bytes()) && (e matches ModelArtifactError::InvalidUnitIdentity { value: v } && v@ == value@),
            },
    {
        let bytes = value.as_bytes();
        let n = bytes.len();
        if n == 0 || ascii_whitespace_byte(bytes[0]) || ascii_whitespace_byte(bytes[n - 1]) {
            return Err(ModelArtifactError::InvalidUnitIdentity { value: value.to_owned() });
        }
        let mut i: usize = 0;
        while i < n
            invariant
                0 <= i <= n,
                n == bytes@.len(),
                bytes@ == value.spec_bytes(),
                forall|j: int| 0 <= j < i ==> #[trigger] bytes@[j] < 0x80,
            decreases n - i,
        {
            if bytes[i] >= 0x80 {
                return Err(ModelArtifactError::InvalidUnitIdentity { value: value.to_owned() });
            }
            i = i + 1;
        }
        Ok(UnitId { value: value.to_owned() })
    }

    /// The text of the identity.
    pub closed spec fn spec_text(&self) -> Seq<char> {
        self.value@
    }

    /// The identity's text. It is canonical, so parsing it gives back an identity with the same
    /// text.
    pub fn as_str(&self) -> (r: &str)
        ensures
            r.spec_bytes() == self@,
            r@ == self.spec_text(),
            canonical_unit_identity(r.spec_bytes()),
    {
        proof {
            use_type_invariant(self);
        }
        self.value.as_str()
    }
}

/// A positive finite binary64 bit pattern.
pub open spec fn positive_finite_bits(bits: u64) -> bool {
    bits != 0 && (bits >> 63u64) == 0 && finite_bits(bits)
}

/// The smallest representable amount for one substance: a positive finite binary64, held as its
/// bit pattern.
#[derive(Clone, Copy, Debug, PartialEq, Eq, Structural)]
pub struct Quantum {
    bits: u64,
}

impl Quantum {
    pub closed spec fn spec_bits(self) -> u64 {
        self.bits
    }

    /// Accepts a strictly positive finite quantum; canonicalises no values.
    pub fn try_from_bits(bits: u64) -> (r: Result<Quantum, ModelArtifactError>)
        ensures
            match r {
                Ok(q) => positive_finite_bits(bits) && q.spec_bits() == bits,
                Err(e) => !positive_finite_bits(bits) && e == (ModelArtifactError::InvalidQuantum { value_bits: bits }),
            },
    {
        if bits == 0 || (bits >> 63u64) != 0 || (bits >> 52u64) & 0x7ffu64 == 0x7ffu64 {
            return Err(ModelArtifactError::InvalidQuantum { value_bits: bits });
        }
        Ok(Quantum { bits })
    }

    /// The bit pattern of the positive finite amount represented by one whole quantum.
    pub fn value_bits(self) -> (r: u64)
        ensures
            r == self.spec_bits(),
    {
        self.bits
    }
}

/// The display unit and arithmetic quantum declared for one substance.
#[derive(Clone, Debug, PartialEq, Eq)]
pub struct SubstanceUnit {
    unit: UnitId,
    quantum: Quantum,
}

impl SubstanceUnit {
    pub closed spec fn spec_unit(&self) -> Seq<u8> {
        self.unit@
    }

    pub closed spec fn spec_quantum(&self) -> Quantum {
        self.quantum
    }

    pub fn new(unit: UnitId, quantum: Quantum) -> (r: Self)
        ensures
            r.spec_unit() == unit@,
            r.spec_quantum() == quantum,
    {
        SubstanceUnit { unit, quantum }
    }

    pub fn unit(&self) -> (r: &UnitId)
        ensures
            r@ == self.spec_unit(),
    {
        &self.unit
    }

    pub fn quantum(&self) -> (r: Quantum)
        ensures
            r == self.spec_quantum(),
    {
        self.quantum
    }
}

// ---------------------------------------------------------------------------------------------
// Digests
// ---------------------------------------------------------------------------------------------

/// A SHA-256 content address for canonical model-artifact bytes.
#[derive(Clone, Copy, Debug, PartialEq, Eq, PartialOrd, Ord, Hash)]
pub struct ModelDigest(pub(crate) [u8; 32]);

/// The lower-case hexadecimal digit of a nibble.
pub open spec fn hex_digit(n: u8) -> char {
    if n < 10 {
        (n + 48) as char
    } else {
        (n + 87) as char
    }
}

/// Lower-case hexadecimal text of a byte string, two digits per byte, most significant first.
pub open spec fn hex_text(bytes: Seq<u8>) -> Seq<char>
    decreases bytes.len(),
{
    if bytes.len() == 0 {
        Seq::empty()
    } else {
        hex_text(bytes.drop_last()) + seq![hex_digit(bytes.last() >> 4u8), hex_digit(bytes.last() & 0x0fu8)]
    }
}

fn nibble_digit(n: u8) -> (r: char)
    requires
        n < 16,
    ensures
        r == hex_digit(n),
{
    if n < 10 {
        (n + 48) as char
    } else {
        (n + 87) as char
    }
}

impl ModelDigest {
    pub closed spec fn spec_bytes(self) -> Seq<u8> {
        self.0@
    }

    /// Digests with the same bytes are the same digest.
    pub proof fn lemma_bytes_determine_digest(a: ModelDigest, b: ModelDigest)
        requires
            a.spec_bytes() == b.spec_bytes(),
        ensures
            a == b,
    {
        assert(forall|i: int| 0 <= i < 32 ==> a.0[i] == b.0[i]);
        assert(a.0 =~= b.0);
    }

    /// Constructs a digest value from its fixed-width representation.
    pub fn from_bytes(bytes: [u8; 32]) -> (r: Self)
        ensures
            r.spec_bytes() == bytes@,
    {
        ModelDigest(bytes)
    }

    pub fn as_bytes(&self) -> (r: &[u8; 32])
        ensures
            r@ == self.spec_bytes(),
    {
        &self.0
    }

    pub fn into_bytes(self) -> (r: [u8; 32])
        ensures
            r@ == self.spec_bytes(),
    {
        self.0
    }

    /// Lower-case hexadecimal text of the digest.
    pub fn to_hex(self) -> (r: String)
        ensures
            r@ == hex_text(self.spec_bytes()),
    {
        let mut result = String::new();
        let mut i: usize = 0;
        while i < 32
            invariant
                0 <= i <= 32,
                self.0@.len() == 32,
                result@ == hex_text(self.0@.take(i as int)),
            decreases 32 - i,
        {
            let byte = self.0[i];
            proof {
                assert(self.0@.take(i + 1).drop_last() =~= self.0@.take(i as int));
                assert(byte >> 4u8 < 16u8) by (bit_vector);
                assert(byte & 0x0fu8 < 16u8) by (bit_vector);
            }
            string_push(&mut result, nibble_digit(byte >> 4u8));
            string_push(&mut result, nibble_digit(byte & 0x0fu8));
            proof {
                assert(result@ =~= hex_text(self.0@.take(i + 1)));
            }
            i = i + 1;
        }
        proof {
            assert(self.0@.take(32) =~= self.0@);
        }
        result
    }
}

// ---------------------------------------------------------------------------------------------
// Rules and parameters
// ---------------------------------------------------------------------------------------------

/// Whether `s` has an entry with identity `key` and value `v`.
pub open spec fn holds_entry<V>(s: Seq<(Ident, V)>, key: Seq<u8>, v: V) -> bool {
    exists|i: int| 0 <= i < s.len() && s[i].0@ == key && s[i].1 == v
}

/// Every entry of `m` is an entry of `src` (same identity and value) and vice versa.
pub open spec fn represents<V>(m: Seq<(Ident, V)>, src: Seq<(Ident, V)>) -> bool {
    &&& forall|j: int| 0 <= j < m.len() ==> holds_entry(src, (#[trigger] m[j]).0@, m[j].1)
    &&& forall|i: int| 0 <= i < src.len() ==> holds_entry(m, (#[trigger] src[i]).0@, src[i].1)
}

/// Why parameter `i` of `params` cannot be accepted, if it cannot.
pub open spec fn parameter_rejected(params: Seq<(ParameterId, u64)>, i: int) -> bool {
    !finite_bits(params[i].1) || exists|j: int| 0 <= j < i && (#[trigger] params[j]).0@ == params[i].0@
}

/// The error reported for rejected parameter `i` of the rule at (compartment, substance).
pub open spec fn parameter_error_matches(
    e: ModelArtifactError,
    compartment: Seq<u8>,
    substance: Seq<u8>,
    params: Seq<(ParameterId, u64)>,
    i: int,
) -> bool {
    if !finite_bits(params[i].1) {
        e matches ModelArtifactError::NonFiniteParameter { compartment: c, substance: s, parameter: p, bits }
            && c@ == compartment && s@ == substance && p@ == params[i].0@ && bits == params[i].1
    } else {
        e matches ModelArtifactError::DuplicateParameter { compartment: c, substance: s, parameter: p }
            && c@ == compartment && s@ == substance && p@ == params[i].0@
    }
}

/// Selections with the same numerical semantics version are the same selection: every other
/// protocol has a single version.
pub proof fn lemma_versions_by_numerical(a: ModelVersions, b: ModelVersions)
    requires
        a.spec_numerical_semantics() == b.spec_numerical_semantics(),
    ensures
        a == b,
{
}

pub proof fn lemma_single_key(a: Seq<u8>, b: Seq<u8>)
    ensures
        (seq![a] == seq![b]) == (a == b),
{
    if seq![a] == seq![b] {
        assert(seq![a][0] == seq![b][0]);
    }
}

/// Two canonical identity-keyed lists, each holding every entry of the other, hold the same
/// entry (identity and value) at every position.
proof fn lemma_canonical_entries_agree<V>(m1: Seq<(Ident, V)>, m2: Seq<(Ident, V)>)
    requires
        sorted_keys(m1),
        sorted_keys(m2),
        forall|j: int| 0 <= j < m1.len() ==> holds_entry(m2, (#[trigger] m1[j]).0@, m1[j].1),
        forall|j: int| 0 <= j < m2.len() ==> holds_entry(m1, (#[trigger] m2[j]).0@, m2[j].1),
    ensures
        m1.len() == m2.len(),
        forall|p: int| 0 <= p < m1.len() ==> (#[trigger] m1[p]).0@ == m2[p].0@ && m1[p].1 == m2[p].1,
    decreases m1.len(),
{
    if m1.len() == 0 {
        if m2.len() > 0 {
            assert(holds_entry(m1, m2[0].0@, m2[0].1));
        }
    } else if m2.len() == 0 {
        assert(holds_entry(m2, m1[0].0@, m1[0].1));
    } else {
        assert(holds_entry(m2, m1[0].0@, m1[0].1));
        let q = choose|q: int| 0 <= q < m2.len() && m2[q].0@ == m1[0].0@ && m2[q].1 == m1[0].1;
        assert(holds_entry(m1, m2[0].0@, m2[0].1));
        let p = choose|p: int| 0 <= p < m1.len() && m1[p].0@ == m2[0].0@ && m1[p].1 == m2[0].1;
        assert(m2[q].0.key() == m1[0].0.key());
        assert(m1[p].0.key() == m2[0].0.key());
        if q != 0 {
            if p != 0 {
                assert(crate::canonical_order::key_lt(m1[0].0.key(), m1[p].0.key()));
                assert(crate::canonical_order::key_lt(m2[0].0.key(), m2[q].0.key()));
                crate::canonical_order::lemma_key_lt_transitive(m1[0].0.key(), m1[p].0.key(), m2[q].0.key());
                crate::canonical_order::lemma_key_lt_irreflexive(m1[0].0.key());
            } else {
                crate::canonical_map::lemma_sorted_keys_distinct(m2, 0, q);
            }
        }
        let t1 = m1.drop_first();
        let t2 = m2.drop_first();
        assert forall|i: int| 0 <= i < t1.len() implies holds_entry(t2, (#[trigger] t1[i]).0@, t1[i].1) by {
            assert(t1[i] == m1[i + 1]);
            assert(holds_entry(m2, m1[i + 1].0@, m1[i + 1].1));
            let k = choose|k: int| 0 <= k < m2.len() && m2[k].0@ == m1[i + 1].0@ && m2[k].1 == m1[i + 1].1;
            if k == 0 {
                crate::canonical_map::lemma_sorted_keys_distinct(m1, 0, i + 1);
            }
            assert(t2[k - 1] == m2[k]);
        }
        assert forall|i: int| 0 <= i < t2.len() implies holds_entry(t1, (#[trigger] t2[i]).0@, t2[i].1) by {
            assert(t2[i] == m2[i + 1]);
            assert(holds_entry(m1, m2[i + 1].0@, m2[i + 1].1));
            let k = choose|k: int| 0 <= k < m1.len() && m1[k].0@ == m2[i + 1].0@ && m1[k].1 == m2[i + 1].1;
            if k == 0 {
                crate::canonical_map::lemma_sorted_keys_distinct(m2, 0, i + 1);
            }
            assert(t1[k - 1] == m1[k]);
        }
        assert forall|i: int, j: int| 0 <= i < j < t1.len() implies crate::canonical_order::key_lt(
            #[trigger] t1[i].0.key(),
            #[trigger] t1[j].0.key(),
        ) by {
            assert(t1[i] == m1[i + 1] && t1[j] == m1[j + 1]);
        }
        assert forall|i: int, j: int| 0 <= i < j < t2.len() implies crate::canonical_order::key_lt(
            #[trigger] t2[i].0.key(),
            #[trigger] t2[j].0.key(),
        ) by {
            assert(t2[i] == m2[i + 1] && t2[j] == m2[j + 1]);
        }
        lemma_canonical_entries_agree(t1, t2);
        assert forall|i: int| 0 <= i < m1.len() implies (#[trigger] m1[i]).0@ == m2[i].0@ && m1[i].1 == m2[i].1 by {
            if i > 0 {
                assert(t1[i - 1] == m1[i] && t2[i - 1] == m2[i]);
            }
        }
    }
}

/// The parameters of a rule are held canonically: rules whose parameter lists were given with
/// the same entries, in any order, hold the same parameters (identity and value) in the same
/// order.
pub proof fn lemma_parameter_order_does_not_matter(
    r1: RuleDefinition,
    r2: RuleDefinition,
    given1: Seq<(ParameterId, u64)>,
    given2: Seq<(ParameterId, u64)>,
)
    requires
        r1.wf(),
        r2.wf(),
        represents(r1.spec_parameters(), given1),
        represents(r2.spec_parameters(), given2),
        represents(given1, given2),
    ensures
        r1.spec_parameters().len() == r2.spec_parameters().len(),
        forall|p: int|
            0 <= p < r1.spec_parameters().len() ==> (#[trigger] r1.spec_parameters()[p]).0@ == r2.spec_parameters()[p].0@
                && r1.spec_parameters()[p].1 == r2.spec_parameters()[p].1,
{
    let m1 = r1.spec_parameters();
    let m2 = r2.spec_parameters();
    assert forall|j: int| 0 <= j < m1.len() implies holds_entry(m2, (#[trigger] m1[j]).0@, m1[j].1) by {
        assert(holds_entry(given1, m1[j].0@, m1[j].1));
        let a = choose|a: int| 0 <= a < given1.len() && given1[a].0@ == m1[j].0@ && given1[a].1 == m1[j].1;
        assert(holds_entry(given2, given1[a].0@, given1[a].1));
        let b = choose|b: int| 0 <= b < given2.len() && given2[b].0@ == given1[a].0@ && given2[b].1 == given1[a].1;
        assert(holds_entry(m2, given2[b].0@, given2[b].1));
    }
    assert forall|j: int| 0 <= j < m2.len() implies holds_entry(m1, (#[trigger] m2[j]).0@, m2[j].1) by {
        assert(holds_entry(given2, m2[j].0@, m2[j].1));
        let b = choose|b: int| 0 <= b < given2.len() && given2[b].0@ == m2[j].0@ && given2[b].1 == m2[j].1;
        assert(holds_entry(given1, given2[b].0@, given2[b].1));
        let a = choose|a: int| 0 <= a < given1.len() && given1[a].0@ == given2[b].0@ && given1[a].1 == given2[b].1;
        assert(holds_entry(m1, given1[a].0@, given1[a].1));
    }
    lemma_canonical_entries_agree(m1, m2);
}

proof fn lemma_represents_insert<V>(old_m: Seq<(Ident, V)>, pos: int, e: (Ident, V), src: Seq<(Ident, V)>, i: int)
    requires
        0 <= pos <= old_m.len(),
        0 <= i < src.len(),
        src[i].0@ == e.0@,
        src[i].1 == e.1,
        represents(old_m, src.take(i)),
    ensures
        represents(old_m.insert(pos, e), src.take(i + 1)),
{
    let t = src.take(i);
    let t1 = src.take(i + 1);
    let m = old_m.insert(pos, e);
    assert(t1[i] == src[i]);
    assert forall|j: int| 0 <= j < m.len() implies holds_entry(t1, (#[trigger] m[j]).0@, m[j].1) by {
        if j == pos {
            assert(m[j] == e);
            assert(t1[i].0@ == m[j].0@ && t1[i].1 == m[j].1);
        } else {
            let jj = if j < pos { j } else { j - 1 };
            assert(m[j] == old_m[jj]);
            assert(holds_entry(t, old_m[jj].0@, old_m[jj].1));
            let k = choose|k: int| 0 <= k < t.len() && t[k].0@ == old_m[jj].0@ && t[k].1 == old_m[jj].1;
            assert(t1[k] == t[k]);
        }
    }
    assert forall|k: int| 0 <= k < t1.len() implies holds_entry(m, (#[trigger] t1[k]).0@, t1[k].1) by {
        if k == i {
            assert(m[pos] == e);
        } else {
            assert(t1[k] == t[k]);
            assert(holds_entry(old_m, t[k].0@, t[k].1));
            let jj = choose|jj: int| 0 <= jj < old_m.len() && old_m[jj].0@ == t[k].0@ && old_m[jj].1 == t[k].1;
            if jj < pos {
                assert(m[jj] == old_m[jj]);
            } else {
                assert(m[jj + 1] == old_m[jj]);
            }
        }
    }
}

/// One executable rule and its immutable scalar parameters (binary64 bit patterns, keyed in
/// canonical order).
#[derive(Clone, Debug, PartialEq)]
pub struct RuleDefinition {
    compartment: CompartmentId,
    substance: SubstanceId,
    expression: Arc<RuleExpr>,
    disposition: Arc<PartitionExpr>,
    parameters: CanonicalMap<ParameterId, u64>,
}

impl RuleDefinition {
    pub closed spec fn spec_compartment(&self) -> Ident {
        self.compartment
    }

    pub closed spec fn spec_substance(&self) -> Ident {
        self.substance
    }

    pub closed spec fn spec_expression(&self) -> RuleExpr {
        *self.expression
    }

    pub closed spec fn spec_disposition(&self) -> PartitionExpr {
        *self.disposition
    }

    pub closed spec fn spec_parameters(&self) -> Seq<(ParameterId, u64)> {
        self.parameters@
    }

    /// The number of parameters fits a `usize`.
    pub proof fn lemma_parameters_fit(&self)
        ensures
            self.spec_parameters().len() <= usize::MAX,
    {
        self.parameters.lemma_len_fits();
    }

    /// Parameters are held in canonical order, each identity once, with finite values.
    pub open spec fn wf(&self) -> bool {
        &&& sorted_keys(self.spec_parameters())
        &&& forall|t: int| 0 <= t < self.spec_parameters().len() ==> finite_bits(#[trigger] self.spec_parameters()[t].1)
    }

    /// Constructs a rule after checking parameters and rejecting repeated identities.
    ///
    /// Parameters are checked in the order given: the first that is non-finite or repeats an
    /// earlier identity is reported. A finite value is stored as the bit pattern given: the
    /// numerical semantics applies no further canonicalisation to finite values here (the sign
    /// of zero, for one, is kept).
    pub fn new(
        compartment: CompartmentId,
        substance: SubstanceId,
        expression: RuleExpr,
        disposition: PartitionExpr,
        parameters: Vec<(ParameterId, u64)>,
    ) -> (r: Result<Self, ModelArtifactError>)
        ensures
            match r {
                Ok(rule) => {
                    &&& forall|i: int| 0 <= i < parameters@.len() ==> !parameter_rejected(parameters@, i)
                    &&& rule.wf()
                    &&& rule.spec_compartment() == compartment
                    &&& rule.spec_substance() == substance
                    &&& rule.spec_expression() == expression
                    &&& rule.spec_disposition() == disposition
                    &&& represents(rule.spec_parameters(), parameters@)
                    &&& rule.spec_parameters().len() == parameters@.len()
                },
                Err(e) => exists|i: int|
                    0 <= i < parameters@.len() && parameter_rejected(parameters@, i) && (forall|j: int|
                        0 <= j < i ==> !parameter_rejected(parameters@, j)) && parameter_error_matches(
                        e,
                        compartment@,
                        substance@,
                        parameters@,
                        i,
                    ),
            },
    {
        let ghost src = parameters@;
        let mut values: CanonicalMap<ParameterId, u64> = CanonicalMap::new();
        let mut rest = parameters;
        let mut i: usize = 0;
        let n = rest.len();
        proof {
            assert(rest@ =~= src.skip(0));
        }
        while i < n
            invariant
                0 <= i <= n,
                n == src.len(),
                src == parameters@,
                rest@ == src.skip(i as int),
                values.wf(),
                forall|j: int| 0 <= j < i ==> !parameter_rejected(src, j),
                represents(values@, src.take(i as int)),
                values@.len() == i,
                forall|t: int| 0 <= t < values@.len() ==> finite_bits(#[trigger] values@[t].1),
            decreases n - i,
        {
            let (parameter, bits) = rest.remove(0);
            proof {
                assert(src[i as int] == (parameter, bits)) by {
                    assert(src.skip(i as int)[0] == src[i as int]);
                }
                assert(rest@ =~= src.skip(i + 1));
            }
            if (bits >> 52u64) & 0x7ffu64 == 0x7ffu64 {
                proof {
                    assert(parameter_rejected(src, i as int));
                }
                return Err(
                    ModelArtifactError::NonFiniteParameter { compartment, substance, parameter, bits },
                );
            }
            let ghost p_view = parameter@;
            let ghost old_m = values@;
            let kept = parameter.clone();
            let inserted = values.insert_new(kept, bits);
            if !inserted {
                proof {
                    let k = choose|k: int| 0 <= k < old_m.len() && #[trigger] old_m[k].0.key() == seq![p_view];
                    lemma_single_key(old_m[k].0@, p_view);
                    assert(holds_entry(src.take(i as int), old_m[k].0@, old_m[k].1));
                    let j = choose|j: int| 0 <= j < src.take(i as int).len() && src.take(i as int)[j].0@ == old_m[k].0@ && src.take(i as int)[j].1 == old_m[k].1;
                    assert(src.take(i as int)[j] == src[j]);
                    assert(src[j].0@ == src[i as int].0@);
                    assert(parameter_rejected(src, i as int));
                }
                return Err(ModelArtifactError::DuplicateParameter { compartment, substance, parameter });
            }
            proof {
                let t = src.take(i as int);
                let t1 = src.take(i + 1);
                assert forall|j: int| 0 <= j < i implies (#[trigger] src[j]).0@ != src[i as int].0@ by {
                    if src[j].0@ == src[i as int].0@ {
                        assert(t[j] == src[j]);
                        assert(holds_entry(old_m, t[j].0@, t[j].1));
                        let k = choose|k: int| 0 <= k < old_m.len() && old_m[k].0@ == t[j].0@ && old_m[k].1 == t[j].1;
                        assert(old_m[k].0.key() == seq![p_view]);
                        assert(false);
                    }
                }
                assert(!parameter_rejected(src, i as int));
                let pos = choose|pos: int| 0 <= pos <= old_m.len() && values@ == old_m.insert(pos, (kept, bits));
                lemma_represents_insert(old_m, pos, (kept, bits), src, i as int);
                assert forall|t: int| 0 <= t < values@.len() implies finite_bits(#[trigger] values@[t].1) by {
                    if t < pos {
                        assert(values@[t] == old_m[t]);
                    } else if t > pos {
                        assert(values@[t] == old_m[t - 1]);
                    }
                }
            }
            i = i + 1;
        }
        proof {
            assert(src.take(n as int) =~= src);
        }
        Ok(RuleDefinition {
            compartment,
            substance,
            expression: Arc::new(expression),
            disposition: Arc::new(disposition),
            parameters: values,
        })
    }

    pub fn compartment(&self) -> (r: &CompartmentId)
        ensures
            *r == self.spec_compartment(),
    {
        &self.compartment
    }

    pub fn substance(&self) -> (r: &SubstanceId)
        ensures
            *r == self.spec_substance(),
    {
        &self.substance
    }

    pub fn expression(&self) -> (r: &RuleExpr)
        ensures
            *r == self.spec_expression(),
    {
        &*self.expression
    }

    pub fn disposition(&self) -> (r: &PartitionExpr)
        ensures
            *r == self.spec_disposition(),
    {
        &*self.disposition
    }

    /// Whether the rule declares the parameter `id`.
    pub fn declares_parameter(&self, id: &Ident) -> (r: bool)
        ensures
            r == crate::rule_references::id_keys(self.spec_parameters()).contains(id@),
    {
        let r = self.parameters.contains_key(id);
        proof {
            crate::reference_validation::lemma_has_id(self.parameters@, id@);
        }
        r
    }

    /// A rule with the same coordinate, expression, partition and parameters.
    pub(crate) fn duplicate(&self) -> (r: RuleDefinition)
        requires
            self.wf(),
        ensures
            r.wf(),
            r.spec_compartment() == self.spec_compartment(),
            r.spec_substance() == self.spec_substance(),
            r.spec_expression() == self.spec_expression(),
            r.spec_disposition() == self.spec_disposition(),
            r.spec_parameters() == self.spec_parameters(),
    {
        let source = self.parameters.entries();
        let mut copied: Vec<(ParameterId, u64)> = Vec::new();
        let mut i: usize = 0;
        while i < source.len()
            invariant
                0 <= i <= source@.len(),
                copied@.len() == i,
                forall|j: int| 0 <= j < i ==> #[trigger] copied@[j] == source@[j],
            decreases source@.len() - i,
        {
            copied.push((source[i].0.clone(), source[i].1));
            i = i + 1;
        }
        proof {
            assert(copied@ =~= source@);
        }
        RuleDefinition {
            compartment: self.compartment.clone(),
            substance: self.substance.clone(),
            expression: share(&self.expression),
            disposition: share(&self.disposition),
            parameters: CanonicalMap::from_sorted(copied),
        }
    }

    /// The position of parameter `id` among the rule's parameters, if declared.
    pub(crate) fn parameter_position(&self, id: &Ident) -> (r: Option<usize>)
        ensures
            match r {
                Some(i) => i < self.spec_parameters().len() && self.spec_parameters()[i as int].0@ == id@,
                None => !crate::rule_references::id_keys(self.spec_parameters()).contains(id@),
            },
    {
        let r = self.parameters.position(id);
        proof {
            crate::reference_validation::lemma_has_id(self.parameters@, id@);
            if let Some(i) = r {
                lemma_single_key(self.parameters@[i as int].0@, id@);
            }
        }
        r
    }

    /// Replaces the value of the parameter at position `index`.
    pub(crate) fn set_parameter(&mut self, index: usize, bits: u64)
        requires
            old(self).wf(),
            index < old(self).spec_parameters().len(),
            finite_bits(bits),
        ensures
            final(self).wf(),
            final(self).spec_compartment() == old(self).spec_compartment(),
            final(self).spec_substance() == old(self).spec_substance(),
            final(self).spec_expression() == old(self).spec_expression(),
            final(self).spec_disposition() == old(self).spec_disposition(),
            final(self).spec_parameters() == old(self).spec_parameters().update(
                index as int,
                (old(self).spec_parameters()[index as int].0, bits),
            ),
    {
        self.parameters.replace_value(index, bits);
        proof {
            assert(self.parameters@ =~= old(self).parameters@.update(index as int, (old(self).parameters@[index as int].0, bits)));
        }
    }

    /// The parameters in canonical order, as binary64 bit patterns.
    pub fn parameters(&self) -> (r: &Vec<(ParameterId, u64)>)
        ensures
            r@ == self.spec_parameters(),
    {
        self.parameters.entries()
    }
}

/// One scalar replacement (binary64 bit pattern) addressed only to a declared rule parameter.
#[derive(Clone, Debug, PartialEq, Eq)]
pub struct RuleParameterSubstitution {
    pub compartment: CompartmentId,
    pub substance: SubstanceId,
    pub parameter: ParameterId,
    pub value_bits: u64,
}

impl RuleParameterSubstitution {
    pub fn new(compartment: CompartmentId, substance: SubstanceId, parameter: ParameterId, value_bits: u64) -> (r: Self)
        ensures
            r == (RuleParameterSubstitution { compartment, substance, parameter, value_bits }),
    {
        RuleParameterSubstitution { compartment, substance, parameter, value_bits }
    }

    pub fn compartment(&self) -> (r: &CompartmentId)
        ensures
            *r == self.compartment,
    {
        &self.compartment
    }

    pub fn substance(&self) -> (r: &SubstanceId)
        ensures
            *r == self.substance,
    {
        &self.substance
    }

    pub fn parameter(&self) -> (r: &ParameterId)
        ensures
            *r == self.parameter,
    {
        &self.parameter
    }

    pub fn value_bits(&self) -> (r: u64)
        ensures
            r == self.value_bits,
    {
        self.value_bits
    }
}

} // verus!
