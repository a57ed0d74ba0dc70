//! Digests: what a hash function returns, as four elements of the prime
//! field, and their form as 32 bytes.

use crate::b_field_element::BFieldElement;
use vstd::bytes::{
    lemma_auto_spec_u64_to_from_le_bytes, spec_u64_from_le_bytes, spec_u64_to_le_bytes,
    u64_from_le_bytes, u64_to_le_bytes,
};
use vstd::slice::slice_subrange;
use vstd::prelude::*;

verus! {

/// The number of field elements in a digest.
pub const DIGEST_LENGTH: usize = 4;

/// The number of bytes in the byte form of a digest.
pub const DIGEST_BYTES: usize = 32;

#[derive(Clone, Copy, Debug, PartialEq, Eq, Structural, Hash)]
pub struct Digest {
    pub e0: BFieldElement,
    pub e1: BFieldElement,
    pub e2: BFieldElement,
    pub e3: BFieldElement,
}

/// The eight bytes of an element's residue, lowest first.
pub open spec fn element_bytes_spec(e: BFieldElement) -> Seq<u8> {
    spec_u64_to_le_bytes(e@ as u64)
}

/// The element whose residue is that of the number that eight bytes hold,
/// lowest first.
pub open spec fn element_from_bytes_spec(bytes: Seq<u8>) -> BFieldElement {
    BFieldElement::from_int(spec_u64_from_le_bytes(bytes) as int)
}

/// The bytes of all elements of `elements`, in order.
pub open spec fn elements_bytes_spec(elements: Seq<BFieldElement>) -> Seq<u8>
    decreases elements.len(),
{
    if elements.len() == 0 {
        Seq::empty()
    } else {
        elements_bytes_spec(elements.drop_last()) + element_bytes_spec(elements.last())
    }
}

/// Each byte of `bytes` as a field element.
pub open spec fn bytes_as_elements_spec(bytes: Seq<u8>) -> Seq<BFieldElement> {
    Seq::new(bytes.len(), |i: int| BFieldElement::from_int(bytes[i] as int))
}

/// Decoding the bytes of a canonical element gives the element back.
pub proof fn lemma_element_bytes_roundtrip(e: BFieldElement)
    requires
        e.is_canonical(),
    ensures
        element_bytes_spec(e).len() == 8,
        element_from_bytes_spec(element_bytes_spec(e)) == e,
{
    lemma_auto_spec_u64_to_from_le_bytes();
    BFieldElement::lemma_canonical(e);
}

pub fn element_to_bytes(e: BFieldElement) -> (res: Vec<u8>)
    ensures
        res@ == element_bytes_spec(e),
        res@.len() == 8,
{
    u64_to_le_bytes(e.value())
}

pub fn element_from_bytes(bytes: &[u8]) -> (res: BFieldElement)
    requires
        bytes@.len() == 8,
    ensures
        res == element_from_bytes_spec(bytes@),
{
    BFieldElement::new(u64_from_le_bytes(bytes))
}

/// The bytes of all elements of `elements`, in order.
pub fn elements_to_bytes(elements: &Vec<BFieldElement>) -> (res: Vec<u8>)
    ensures
        res@ == elements_bytes_spec(elements@),
{
    let mut res: Vec<u8> = Vec::new();
    let mut i: usize = 0;
    while i < elements.len()
        invariant
            i <= elements@.len(),
            res@ == elements_bytes_spec(elements@.take(i as int)),
        decreases elements@.len() - i,
    {
        let mut bytes = element_to_bytes(elements[i]);
        proof {
            assert(elements@.take(i + 1).drop_last() =~= elements@.take(i as int));
        }
        res.append(&mut bytes);
        i = i + 1;
    }
    proof {
        assert(elements@.take(i as int) =~= elements@);
    }
    res
}

/// Each byte of `bytes` as a field element.
pub fn bytes_as_elements(bytes: &Vec<u8>) -> (res: Vec<BFieldElement>)
    ensures
        res@ == bytes_as_elements_spec(bytes@),
{
    let mut res: Vec<BFieldElement> = Vec::new();
    let mut i: usize = 0;
    while i < bytes.len()
        invariant
            i <= bytes@.len(),
            res@.len() == i,
            forall|j: int| 0 <= j < i ==> #[trigger] res@[j] == BFieldElement::from_int(bytes@[j] as int),
        decreases bytes@.len() - i,
    {
        res.push(BFieldElement::new(bytes[i] as u64));
        i = i + 1;
    }
    proof {
        assert(res@ =~= bytes_as_elements_spec(bytes@));
    }
    res
}

impl Digest {
    /// The four elements, in order.
    pub open spec fn sequence_spec(self) -> Seq<BFieldElement> {
        seq![self.e0, self.e1, self.e2, self.e3]
    }

    /// The 32 bytes of the four elements.
    pub open spec fn bytes_spec(self) -> Seq<u8> {
        element_bytes_spec(self.e0) + element_bytes_spec(self.e1) + element_bytes_spec(self.e2)
            + element_bytes_spec(self.e3)
    }

    /// The digest that 32 bytes hold.
    pub open spec fn from_bytes_spec(bytes: Seq<u8>) -> Self {
        Digest {
            e0: element_from_bytes_spec(bytes.subrange(0, 8)),
            e1: element_from_bytes_spec(bytes.subrange(8, 16)),
            e2: element_from_bytes_spec(bytes.subrange(16, 24)),
            e3: element_from_bytes_spec(bytes.subrange(24, 32)),
        }
    }

    pub open spec fn is_canonical(self) -> bool {
        self.e0.is_canonical() && self.e1.is_canonical() && self.e2.is_canonical()
            && self.e3.is_canonical()
    }

    /// Reading back the bytes of a digest gives the digest.
    pub proof fn lemma_bytes_roundtrip(d: Self)
        requires
            d.is_canonical(),
        ensures
            d.bytes_spec().len() == 32,
            Self::from_bytes_spec(d.bytes_spec()) == d,
    {
        lemma_element_bytes_roundtrip(d.e0);
        lemma_element_bytes_roundtrip(d.e1);
        lemma_element_bytes_roundtrip(d.e2);
        lemma_element_bytes_roundtrip(d.e3);
        let b = d.bytes_spec();
        assert(b.subrange(0, 8) =~= element_bytes_spec(d.e0));
        assert(b.subrange(8, 16) =~= element_bytes_spec(d.e1));
        assert(b.subrange(16, 24) =~= element_bytes_spec(d.e2));
        assert(b.subrange(24, 32) =~= element_bytes_spec(d.e3));
    }

    pub fn new(e0: BFieldElement, e1: BFieldElement, e2: BFieldElement, e3: BFieldElement) -> (res:
        Self)
        ensures
            res == (Digest { e0, e1, e2, e3 }),
    {
        Digest { e0, e1, e2, e3 }
    }

    pub fn to_sequence(&self) -> (res: Vec<BFieldElement>)
        ensures
            res@ == self.sequence_spec(),
    {
        let mut res: Vec<BFieldElement> = Vec::new();
        res.push(self.e0);
        res.push(self.e1);
        res.push(self.e2);
        res.push(self.e3);
        assert(res@ =~= self.sequence_spec());
        res
    }

    pub fn to_bytes(&self) -> (res: Vec<u8>)
        ensures
            res@ == self.bytes_spec(),
            res@.len() == 32,
    {
        let mut res = element_to_bytes(self.e0);
        let mut b1 = element_to_bytes(self.e1);
        let mut b2 = element_to_bytes(self.e2);
        let mut b3 = element_to_bytes(self.e3);
        res.append(&mut b1);
        res.append(&mut b2);
        res.append(&mut b3);
        res
    }

    pub fn from_bytes(bytes: &[u8]) -> (res: Self)
        requires
            bytes@.len() == 32,
        ensures
            res == Self::from_bytes_spec(bytes@),
    {
        Digest {
            e0: element_from_bytes(slice_subrange(bytes, 0, 8)),
            e1: element_from_bytes(slice_subrange(bytes, 8, 16)),
            e2: element_from_bytes(slice_subrange(bytes, 16, 24)),
            e3: element_from_bytes(slice_subrange(bytes, 24, 32)),
        }
    }
}

} // verus!
