//! BLAKE3 as a hash function on sequences of field elements.

use crate::algebraic_hasher::AlgebraicHasher;
use crate::b_field_element::BFieldElement;
use crate::digest::{Digest, elements_bytes_spec, elements_to_bytes};
use vstd::bytes::spec_u64_from_le_bytes;
use vstd::prelude::*;

verus! {

/// BLAKE3, applied to the bytes of the field elements.
#[derive(Debug, Clone, Copy)]
pub struct Blake3Hasher;

/// The 32 bytes that BLAKE3 returns for `input`.
pub uninterp spec fn blake3_output(input: Seq<u8>) -> Seq<u8>;

/// `blake3::hash`, with the bytes of the hash it returns. The hash is a
/// function of the input's bytes alone, and has 32 bytes.
#[verifier::external_body]
fn blake3_hash(input: &Vec<u8>) -> (out: Vec<u8>)
    ensures
        out@ == blake3_output(input@),
        out@.len() == 32,
{
    blake3::hash(input.as_slice()).as_bytes().to_vec()
}

impl AlgebraicHasher for Blake3Hasher {
    /// BLAKE3 of the elements' bytes, read as a digest.
    open spec fn hash_spec(input: Seq<BFieldElement>) -> Digest {
        Digest::from_bytes_spec(blake3_output(elements_bytes_spec(input)))
    }

    fn hash_slice(elements: &Vec<BFieldElement>) -> (digest: Digest) {
        let bytes = elements_to_bytes(elements);
        let out = blake3_hash(&bytes);
        Digest::from_bytes(out.as_slice())
    }

    proof fn lemma_hash_is_canonical(input: Seq<BFieldElement>) {
        let bytes = blake3_output(elements_bytes_spec(input));
        BFieldElement::lemma_from_int(spec_u64_from_le_bytes(bytes.subrange(0, 8)) as int);
        BFieldElement::lemma_from_int(spec_u64_from_le_bytes(bytes.subrange(8, 16)) as int);
        BFieldElement::lemma_from_int(spec_u64_from_le_bytes(bytes.subrange(16, 24)) as int);
        BFieldElement::lemma_from_int(spec_u64_from_le_bytes(bytes.subrange(24, 32)) as int);
    }
}

} // verus!
