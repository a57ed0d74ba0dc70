//! Hash functions on sequences of field elements, and what is drawn from
//! their digests.

use crate::b_field_element::{BFieldElement, P};
use crate::digest::Digest;
use vstd::arithmetic::div_mod::lemma_mod_decreases;
use vstd::prelude::*;

verus! {

/// A hash function from sequences of field elements to digests.
pub trait AlgebraicHasher {
    /// The digest of `input`: the function that `hash_slice` computes.
    spec fn hash_spec(input: Seq<BFieldElement>) -> Digest;

    fn hash_slice(elements: &Vec<BFieldElement>) -> (digest: Digest)
        ensures
            digest == Self::hash_spec(elements@),
    ;

    /// Digests are made of canonical elements.
    proof fn lemma_hash_is_canonical(input: Seq<BFieldElement>)
        ensures
            Self::hash_spec(input).is_canonical(),
    ;
}

/// The digest of two digests, the left one first.
pub open spec fn hash_pair_spec<H: AlgebraicHasher>(left: Digest, right: Digest) -> Digest {
    H::hash_spec(left.sequence_spec() + right.sequence_spec())
}

pub fn hash_pair<H: AlgebraicHasher>(left: &Digest, right: &Digest) -> (digest: Digest)
    ensures
        digest == hash_pair_spec::<H>(*left, *right),
{
    let mut elements = left.to_sequence();
    let mut more = right.to_sequence();
    elements.append(&mut more);
    H::hash_slice(&elements)
}

/// The first element of `seed`, reduced modulo `max`. Without bias only
/// where `max` is a power of two up to `2^32`.
pub open spec fn sample_index_spec(seed: Digest, max: nat) -> nat {
    (seed.e0@ % (max as int)) as nat
}

/// The number of residues from zero on that fall evenly into `max` classes:
/// the greatest multiple of `max` up to the modulus.
pub open spec fn unbiased_zone_spec(max: nat) -> int {
    P - (P as int) % (max as int)
}

/// The first element of `seed` below the unbiased zone, reduced modulo
/// `max`; if there is none, the last element, reduced.
pub open spec fn sample_index_not_power_of_two_spec(seed: Digest, max: nat) -> nat {
    let zone = unbiased_zone_spec(max);
    if seed.e0@ < zone {
        (seed.e0@ % (max as int)) as nat
    } else if seed.e1@ < zone {
        (seed.e1@ % (max as int)) as nat
    } else if seed.e2@ < zone {
        (seed.e2@ % (max as int)) as nat
    } else {
        (seed.e3@ % (max as int)) as nat
    }
}

/// The residues below the unbiased zone fall evenly into the `max`
/// classes, and fewer than `max` residues lie at or above it.
pub proof fn lemma_zone_is_even(max: nat)
    requires
        0 < max,
    ensures
        unbiased_zone_spec(max) % (max as int) == 0,
        P - max < unbiased_zone_spec(max) <= P,
{
    let p = P as int;
    let m = max as int;
    vstd::arithmetic::div_mod::lemma_fundamental_div_mod(p, m);
    vstd::arithmetic::div_mod::lemma_mod_multiples_basic(p / m, m);
    vstd::arithmetic::mul::lemma_mul_is_commutative(p / m, m);
}

/// An index below `max` drawn from `seed`.
pub fn sample_index(seed: &Digest, max: usize) -> (res: usize)
    requires
        max > 0,
    ensures
        res == sample_index_spec(*seed, max as nat),
        res < max,
{
    (seed.e0.value() % (max as u64)) as usize
}

/// An index below `max` drawn from `seed`, where `max` need not be a power
/// of two: elements of the digest that would favour the low indices are
/// passed over.
pub fn sample_index_not_power_of_two(seed: &Digest, max: usize) -> (res: usize)
    requires
        max > 0,
    ensures
        res == sample_index_not_power_of_two_spec(*seed, max as nat),
        res < max,
{
    let m = max as u64;
    proof {
        lemma_mod_decreases(P as nat, m as nat);
    }
    let zone = P - P % m;
    if seed.e0.value() < zone {
        (seed.e0.value() % m) as usize
    } else if seed.e1.value() < zone {
        (seed.e1.value() % m) as usize
    } else if seed.e2.value() < zone {
        (seed.e2.value() % m) as usize
    } else {
        (seed.e3.value() % m) as usize
    }
}

} // verus!
