//! Opaque textual identities of model elements and the canonical keys built from them.

use vstd::prelude::*;
use vstd::utf8::encode_utf8;
use vstd::string::StringSliceAdditionalSpecFns;
use crate::canonical_order::{bytes_order, compare_bytes, key_order, KeyOrder};

verus! {

/// A textual identity (compartment, substance, parameter, forcing, table, projection,
/// input or transfer branch). Its view is its UTF-8 byte string.
#[derive(Debug, PartialEq, Eq)]
pub struct Ident {
    value: String,
}

/// A compartment or boundary-account identity.
pub type CompartmentId = Ident;

/// A substance identity.
pub type SubstanceId = Ident;

/// A rule-parameter identity.
pub type ParameterId = Ident;

/// A forcing-series identity.
pub type ForcingId = Ident;

/// An interpolation-table identity.
pub type TableId = Ident;

/// A projection identity.
pub type ProjectionId = Ident;

/// A generic rule-input identity.
pub type InputId = Ident;

/// A transfer-branch identity.
pub type TransferBranchId = Ident;

impl View for Ident {
    type V = Seq<u8>;

    closed spec fn view(&self) -> Seq<u8> {
        encode_utf8(self.value@)
    }
}

impl Clone for Ident {
    fn clone(&self) -> (r: Self)
        ensures
            r == *self,
    {
        Ident { value: self.value.clone() }
    }
}

impl Ident {
    /// Wraps a textual identity.
    pub fn new(value: &str) -> (r: Ident)
        ensures
            r@ == value.spec_bytes(),
    {
        Ident { value: value.to_owned() }
    }

    /// The identity text.
    pub fn as_str(&self) -> (r: &str)
        ensures
            r.spec_bytes() == self@,
    {
        self.value.as_str()
    }

    /// The identity's UTF-8 bytes.
    pub fn as_bytes(&self) -> (r: &[u8])
        ensures
            r@ == self@,
    {
        self.value.as_str().as_bytes()
    }

    /// Compares two identities in the canonical byte order.
    pub fn order_against(&self, other: &Ident) -> (r: KeyOrder)
        ensures
            r == bytes_order(self@, other@),
    {
        compare_bytes(self.as_bytes(), other.as_bytes())
    }

    /// Whether two identities have the same text.
    pub fn same(&self, other: &Ident) -> (r: bool)
        ensures
            r == (self@ == other@),
    {
        match self.order_against(other) {
            KeyOrder::Equal => true,
            _ => false,
        }
    }
}

/// A key with a place in the canonical order: a list of byte-string components.
pub trait CanonicalKey: Sized {
    spec fn key(&self) -> Seq<Seq<u8>>;

    fn order_key(&self, other: &Self) -> (r: KeyOrder)
        ensures
            r == key_order(self.key(), other.key()),
    ;
}

pub proof fn lemma_single_component_order(a: Seq<u8>, b: Seq<u8>)
    ensures
        key_order(seq![a], seq![b]) == bytes_order(a, b),
{
    let ka = seq![a];
    let kb = seq![b];
    assert(ka[0] == a && kb[0] == b);
    if a == b {
        assert(ka =~= kb);
    } else {
        assert(ka != kb) by {
            assert(ka[0] != kb[0]);
        }
    }
}

pub proof fn lemma_pair_component_order(a1: Seq<u8>, a2: Seq<u8>, b1: Seq<u8>, b2: Seq<u8>)
    ensures
        a1 != b1 ==> key_order(seq![a1, a2], seq![b1, b2]) == bytes_order(a1, b1),
        a1 == b1 ==> key_order(seq![a1, a2], seq![b1, b2]) == bytes_order(a2, b2),
{
    let ka = seq![a1, a2];
    let kb = seq![b1, b2];
    assert(ka[0] == a1 && kb[0] == b1);
    assert(ka.drop_first() =~= seq![a2]);
    assert(kb.drop_first() =~= seq![b2]);
    lemma_single_component_order(a2, b2);
    if a1 != b1 {
        assert(ka != kb) by {
            assert(ka[0] != kb[0]);
        }
    } else if a2 == b2 {
        assert(ka =~= kb);
    } else {
        assert(ka != kb) by {
            assert(ka[1] != kb[1]);
        }
    }
}

pub proof fn lemma_triple_component_order(
    a1: Seq<u8>,
    a2: Seq<u8>,
    a3: Seq<u8>,
    b1: Seq<u8>,
    b2: Seq<u8>,
    b3: Seq<u8>,
)
    ensures
        a1 != b1 ==> key_order(seq![a1, a2, a3], seq![b1, b2, b3]) == bytes_order(a1, b1),
        a1 == b1 ==> key_order(seq![a1, a2, a3], seq![b1, b2, b3]) == key_order(seq![a2, a3], seq![b2, b3]),
{
    let ka = seq![a1, a2, a3];
    let kb = seq![b1, b2, b3];
    assert(ka[0] == a1 && kb[0] == b1);
    assert(ka.drop_first() =~= seq![a2, a3]);
    assert(kb.drop_first() =~= seq![b2, b3]);
    if a1 != b1 {
        assert(ka != kb) by {
            assert(ka[0] != kb[0]);
        }
    } else if seq![a2, a3] == seq![b2, b3] {
        assert(ka =~= kb) by {
            assert(seq![a2, a3][0] == seq![b2, b3][0]);
            assert(seq![a2, a3][1] == seq![b2, b3][1]);
        }
    } else {
        assert(ka != kb) by {
            if ka == kb {
                assert(ka.drop_first() == kb.drop_first());
            }
        }
    }
}

/// A (compartment, substance, member) coordinate, ordered component by component.
impl CanonicalKey for (Ident, Ident, Ident) {
    open spec fn key(&self) -> Seq<Seq<u8>> {
        seq![self.0@, self.1@, self.2@]
    }

    fn order_key(&self, other: &Self) -> (r: KeyOrder) {
        proof {
            lemma_triple_component_order(self.0@, self.1@, self.2@, other.0@, other.1@, other.2@);
            lemma_pair_component_order(self.1@, self.2@, other.1@, other.2@);
        }
        match self.0.order_against(&other.0) {
            KeyOrder::Equal => match self.1.order_against(&other.1) {
                KeyOrder::Equal => self.2.order_against(&other.2),
                r => r,
            },
            r => r,
        }
    }
}

impl CanonicalKey for Ident {
    open spec fn key(&self) -> Seq<Seq<u8>> {
        seq![self@]
    }

    fn order_key(&self, other: &Self) -> (r: KeyOrder) {
        proof {
            lemma_single_component_order(self@, other@);
        }
        self.order_against(other)
    }
}

/// The compartment-substance coordinate that owns at most one rule.
#[derive(Debug, PartialEq, Eq)]
pub struct RuleCoordinate {
    pub compartment: CompartmentId,
    pub substance: SubstanceId,
}

impl Clone for RuleCoordinate {
    fn clone(&self) -> (r: Self)
        ensures
            r == *self,
    {
        RuleCoordinate { compartment: self.compartment.clone(), substance: self.substance.clone() }
    }
}

impl CanonicalKey for RuleCoordinate {
    open spec fn key(&self) -> Seq<Seq<u8>> {
        seq![self.compartment@, self.substance@]
    }

    fn order_key(&self, other: &Self) -> (r: KeyOrder) {
        proof {
            lemma_pair_component_order(
                self.compartment@,
                self.substance@,
                other.compartment@,
                other.substance@,
            );
        }
        match self.compartment.order_against(&other.compartment) {
            KeyOrder::Equal => self.substance.order_against(&other.substance),
            r => r,
        }
    }
}

} // verus!
