//! FRI, the low-degree test: the prover commits to a codeword and to its
//! successive folds, and answers queries into them; the verifier checks
//! that the answers are consistent and that the last fold is the codeword
//! of a polynomial of low degree.

use crate::algebraic_hasher::{
    AlgebraicHasher, sample_index, sample_index_not_power_of_two,
    sample_index_not_power_of_two_spec, sample_index_spec,
};
use crate::b_field_element::BFieldElement;
use crate::codec::{
    auth_pairs_bytes_spec, codeword_bytes_spec, decode_auth_pairs, decode_auth_pairs_spec,
    decode_codeword, decode_codeword_spec, encode_auth_pairs, encode_codeword,
};
use crate::digest::Digest;
use crate::fri_domain::FriDomain;
use crate::merkle_tree::{authentication_structure_spec, MerkleTree, root_spec};
use crate::polynomial::{colinear_y_spec, Polynomial, x_degree_spec};
use crate::power_of_two::{
    ceil_power_of_two, is_power_of_two_spec, lemma_log_2_ceil_at_most, lemma_log_2_ceil_bounds,
    lemma_pow2_is_power_of_two, log_2_ceil, log_2_ceil_spec,
};
use crate::proof_stream::{
    dequeue_length_prepended_spec, dequeue_spec, fiat_shamir_spec, length_prepended_spec,
    ProofStream,
};
use crate::x_field_element::XFieldElement;
use std::marker::PhantomData;
use vstd::arithmetic::div_mod::lemma_fundamental_div_mod;
use vstd::arithmetic::power2::{
    lemma2_to64, lemma2_to64_rest, lemma_pow2_adds, lemma_pow2_pos, lemma_pow2_strictly_increases,
    lemma_pow2_subtracts, lemma_pow2_unfold, pow2,
};
use vstd::slice::slice_to_vec;
use vstd::prelude::*;

verus! {

/// Why a proof was not accepted.
#[derive(PartialEq, Eq, Debug, Clone, Copy, Structural)]
pub enum ValidationError {
    /// An opening does not lead to the root of its layer.
    BadMerkleProof,
    /// The transcript ends too early, or holds data of the wrong length.
    BadSizedProof,
    /// The parameters leave no round of folding.
    NonPositiveRoundCount,
    /// The values folded from the queries are not those of the last
    /// codeword; the number is that of the last round.
    NotColinear(usize),
    /// The last codeword is that of a polynomial of too high a degree.
    LastIterationTooHighDegree,
    /// The last codeword does not have the root that was sent for it.
    BadMerkleRootForLastCodeword,
}

/// The parameters of the test: the evaluation domain, the ratio of its
/// length to the number of coefficients of the polynomials that pass, and
/// the number of queries.
#[derive(Debug)]
pub struct Fri<H> {
    pub expansion_factor: usize,
    pub colinearity_checks_count: usize,
    pub domain: FriDomain,
    pub _hasher: PhantomData<H>,
}

impl<H> Clone for Fri<H> {
    fn clone(&self) -> (res: Self)
        ensures
            res == *self,
    {
        Fri {
            expansion_factor: self.expansion_factor,
            colinearity_checks_count: self.colinearity_checks_count,
            domain: self.domain,
            _hasher: PhantomData,
        }
    }
}

/// The quotient `a / b`, rounded up.
pub open spec fn ceil_div_spec(a: nat, b: nat) -> nat {
    if a % b == 0 {
        a / b
    } else {
        a / b + 1
    }
}

/// `n`, halved `r` times.
pub open spec fn halved_spec(n: nat, r: nat) -> nat
    decreases r,
{
    if r == 0 {
        n
    } else {
        halved_spec(n, (r - 1) as nat) / 2
    }
}

/// `n`, doubled `r` times.
pub open spec fn doubled_spec(n: nat, r: nat) -> nat
    decreases r,
{
    if r == 0 {
        n
    } else {
        2 * doubled_spec(n, (r - 1) as nat)
    }
}

/// The number of rounds of folding before the rounds are counted that the
/// number of queries takes away: the logarithm of the number of
/// coefficients.
pub open spec fn full_rounds_spec(length: nat, expansion_factor: nat) -> nat {
    log_2_ceil_spec(length / expansion_factor)
}

/// The number of rounds that are left out so that the last codeword is as
/// long as there are queries.
pub open spec fn missed_rounds_spec(expansion_factor: nat, queries: nat) -> nat {
    if expansion_factor < queries {
        log_2_ceil_spec(ceil_div_spec(queries, expansion_factor))
    } else {
        0
    }
}

/// The number of rounds, and the greatest degree that the polynomial of
/// the last codeword may have.
pub open spec fn num_rounds_spec(length: nat, expansion_factor: nat, queries: nat) -> (int, int) {
    let missed = missed_rounds_spec(expansion_factor, queries);
    (full_rounds_spec(length, expansion_factor) - missed, pow2(missed) - 1)
}

/// The digest from which the choice of number `counter` is drawn: that of
/// the seed followed by the counter.
pub open spec fn counter_hash_spec<H: AlgebraicHasher>(seed: Digest, counter: nat) -> Digest {
    H::hash_spec(seed.sequence_spec().push(BFieldElement::from_int(counter as int)))
}

/// The first `count` indices into the last codeword, which has the length
/// `last_length`, and the indices that are still to be had: each choice
/// takes one index out of those that are left.
pub open spec fn last_indices_spec<H: AlgebraicHasher>(
    seed: Digest,
    last_length: nat,
    count: nat,
) -> (Seq<usize>, Seq<usize>)
    decreases count,
{
    if count == 0 {
        (Seq::empty(), Seq::new(last_length, |i: int| i as usize))
    } else {
        let (chosen, left) = last_indices_spec::<H>(seed, last_length, (count - 1) as nat);
        let k = sample_index_not_power_of_two_spec(
            counter_hash_spec::<H>(seed, (count - 1) as nat),
            left.len(),
        );
        (chosen.push(left[k as int]), left.remove(k as int))
    }
}

/// The index of query `j` after `lifts` lifts from the last codeword
/// towards the first: each lift goes to a codeword of twice the length, and
/// a bit drawn from the seed says whether the index moves into its upper
/// half.
pub open spec fn lifted_index_spec<H: AlgebraicHasher>(
    seed: Digest,
    last_length: nat,
    queries: nat,
    lifts: nat,
    j: nat,
) -> nat
    decreases lifts,
{
    if lifts == 0 {
        last_indices_spec::<H>(seed, last_length, queries).0[j as int] as nat
    } else {
        let below = lifted_index_spec::<H>(seed, last_length, queries, (lifts - 1) as nat, j);
        let bit = sample_index_spec(counter_hash_spec::<H>(seed, lifts * queries + j), 2);
        if bit == 0 {
            below + doubled_spec(last_length, (lifts - 1) as nat)
        } else {
            below
        }
    }
}

/// The indices of the queries into the first codeword, for the codeword
/// length `length`, `rounds` rounds and `queries` queries.
pub open spec fn sample_indices_spec<H: AlgebraicHasher>(
    seed: Digest,
    length: nat,
    rounds: nat,
    queries: nat,
) -> Seq<usize> {
    Seq::new(
        queries,
        |j: int|
            lifted_index_spec::<H>(
                seed,
                halved_spec(length, rounds),
                queries,
                if rounds == 0 {
                    0
                } else {
                    (rounds - 1) as nat
                },
                j as nat,
            ) as usize,
    )
}

/// Doubling more often gives no less.
pub proof fn lemma_doubled_grows(a: nat, r: nat, s: nat)
    requires
        r <= s,
    ensures
        doubled_spec(a, r) <= doubled_spec(a, s),
    decreases s,
{
    if r < s {
        lemma_doubled_grows(a, r, (s - 1) as nat);
    }
}

/// Halving and then doubling as often gives no more than there was.
pub proof fn lemma_doubled_halved(n: nat, r: nat)
    ensures
        doubled_spec(halved_spec(n, r), r) <= n,
    decreases r,
{
    if r > 0 {
        lemma_doubled_halved(n, (r - 1) as nat);
        lemma_doubled_monotone(halved_spec(n, r) * 2, halved_spec(n, (r - 1) as nat), (r - 1) as nat);
        lemma_doubled_twice(halved_spec(n, r), (r - 1) as nat);
    }
}

/// Doubling keeps the order of two numbers.
pub proof fn lemma_doubled_monotone(a: nat, b: nat, r: nat)
    requires
        a <= b,
    ensures
        doubled_spec(a, r) <= doubled_spec(b, r),
    decreases r,
{
    if r > 0 {
        lemma_doubled_monotone(a, b, (r - 1) as nat);
    }
}

/// Doubling twice a number gives twice the doubled number.
pub proof fn lemma_doubled_twice(a: nat, r: nat)
    ensures
        doubled_spec(2 * a, r) == 2 * doubled_spec(a, r),
    decreases r,
{
    if r > 0 {
        lemma_doubled_twice(a, (r - 1) as nat);
    }
}

impl<H: AlgebraicHasher> Fri<H> {
    /// Whether the number of rounds can be computed in machine integers:
    /// the domain is no shorter than the expansion factor, which is not
    /// zero, there are no more missed rounds than rounds, and the greatest
    /// degree of the last polynomial is a 32-bit number.
    pub open spec fn rounds_defined(self) -> bool {
        &&& 0 < self.expansion_factor <= self.domain.length
        &&& missed_rounds_spec(self.expansion_factor as nat, self.colinearity_checks_count as nat)
            <= full_rounds_spec(self.domain.length as nat, self.expansion_factor as nat)
        &&& pow2(
            missed_rounds_spec(self.expansion_factor as nat, self.colinearity_checks_count as nat),
        ) - 1 <= u32::MAX
    }

    /// The number of rounds, and zero where the parameters leave none.
    pub open spec fn rounds_spec(self) -> nat {
        let rounds = num_rounds_spec(
            self.domain.length as nat,
            self.expansion_factor as nat,
            self.colinearity_checks_count as nat,
        ).0;
        if rounds >= 0 {
            rounds as nat
        } else {
            0
        }
    }

    /// The greatest degree that the polynomial of the last codeword may
    /// have.
    pub open spec fn last_degree_spec(self) -> int {
        num_rounds_spec(
            self.domain.length as nat,
            self.expansion_factor as nat,
            self.colinearity_checks_count as nat,
        ).1
    }

    /// The length of the last codeword.
    pub open spec fn last_length_spec(self) -> nat {
        halved_spec(self.domain.length as nat, self.rounds_spec())
    }

    pub fn new(
        offset: BFieldElement,
        omega: BFieldElement,
        domain_length: usize,
        expansion_factor: usize,
        colinearity_checks_count: usize,
    ) -> (res: Self)
        ensures
            res.domain.offset == offset,
            res.domain.omega == omega,
            res.domain.length == domain_length,
            res.expansion_factor == expansion_factor,
            res.colinearity_checks_count == colinearity_checks_count,
    {
        let domain = FriDomain { offset, omega, length: domain_length };
        Fri { domain, expansion_factor, colinearity_checks_count, _hasher: PhantomData }
    }

    /// The number of rounds before any is left out, the number of rounds
    /// that are left out, and the power of two of the latter.
    fn round_counts(&self) -> (res: (u64, u64, u128))
        requires
            0 < self.expansion_factor,
        ensures
            res.0 == full_rounds_spec(self.domain.length as nat, self.expansion_factor as nat),
            res.1 == missed_rounds_spec(
                self.expansion_factor as nat,
                self.colinearity_checks_count as nat,
            ),
            res.2 == pow2(res.1 as nat),
            res.0 <= 64,
            res.1 <= 64,
    {
        let full = log_2_ceil((self.domain.length / self.expansion_factor) as u64);
        if self.expansion_factor < self.colinearity_checks_count {
            let quotient = self.colinearity_checks_count / self.expansion_factor;
            proof {
                if self.expansion_factor >= 2 {
                    vstd::arithmetic::div_mod::lemma_div_decreases(
                        self.colinearity_checks_count as int,
                        self.expansion_factor as int,
                    );
                }
            }
            let ceiling = if self.colinearity_checks_count % self.expansion_factor == 0 {
                quotient
            } else {
                quotient + 1
            };
            let (missed, power) = ceil_power_of_two(ceiling as u64);
            (full, missed, power)
        } else {
            proof {
                lemma2_to64();
            }
            (full, 0, 1)
        }
    }

    /// The number of rounds and the greatest degree of the last
    /// polynomial, where machine integers can hold them.
    pub fn checked_num_rounds(&self) -> (res: Option<(u8, u32)>)
        ensures
            res is Some <==> self.rounds_defined(),
            res matches Some(counts) ==> (counts.0 as int, counts.1 as int) == num_rounds_spec(
                self.domain.length as nat,
                self.expansion_factor as nat,
                self.colinearity_checks_count as nat,
            ),
    {
        if self.expansion_factor == 0 || self.expansion_factor > self.domain.length {
            return None;
        }
        let (full, missed, power) = self.round_counts();
        if missed > full || power > 0x1_0000_0000 {
            return None;
        }
        Some(self.num_rounds())
    }

    /// The number of rounds, and the greatest degree that the polynomial
    /// of the last codeword may have.
    pub fn num_rounds(&self) -> (res: (u8, u32))
        requires
            self.rounds_defined(),
        ensures
            (res.0 as int, res.1 as int) == num_rounds_spec(
                self.domain.length as nat,
                self.expansion_factor as nat,
                self.colinearity_checks_count as nat,
            ),
    {
        let (full, missed, power) = self.round_counts();
        proof {
            lemma_pow2_pos(missed as nat);
        }
        ((full - missed) as u8, (power - 1) as u32)
    }

    /// The argument at which the value of index `idx` of the codeword of
    /// round `round` is taken: the point of index `idx` of the first
    /// domain, squared `round` times.
    pub fn get_evaluation_argument(&self, idx: usize, round: usize) -> (res: BFieldElement)
        requires
            idx <= u32::MAX,
            round < 32,
        ensures
            res == self.domain.offset.mul_spec(self.domain.omega.pow_spec(idx as nat)).pow_spec(
                pow2(round as nat),
            ),
    {
        let mut exponent: u32 = 1;
        let mut i: usize = 0;
        proof {
            vstd::arithmetic::power2::lemma2_to64();
        }
        while i < round
            invariant
                i <= round < 32,
                exponent == pow2(i as nat),
            decreases round - i,
        {
            proof {
                vstd::arithmetic::power2::lemma_pow2_unfold((i + 1) as nat);
                vstd::arithmetic::power2::lemma_pow2_strictly_increases((i + 1) as nat, 32);
                vstd::arithmetic::power2::lemma2_to64();
            }
            exponent = exponent * 2;
            i = i + 1;
        }
        self.domain.offset.mul(self.domain.omega.mod_pow_u32(idx as u32)).mod_pow_u32(exponent)
    }

    /// The points of the domain: the offset times the powers of the
    /// generator, from the power zero up to the first that is one again.
    pub fn get_evaluation_domain(&self) -> (res: Vec<BFieldElement>)
        ensures
            res@.len() >= 1,
            forall|i: int|
                0 <= i < res@.len() ==> #[trigger] res@[i] == self.domain.domain_value_spec(
                    i as nat,
                ),
            forall|i: int|
                1 <= i < res@.len() ==> #[trigger] self.domain.omega.pow_spec(i as nat)
                    != BFieldElement::spec_one(),
            self.domain.omega.pow_spec(res@.len()) == BFieldElement::spec_one() || res@.len()
                == usize::MAX,
            self.domain.is_coset() ==> res@.len() == self.domain.length,
    {
        let powers = self.domain.omega.get_cyclic_group_elements(None);
        proof {
            if self.domain.is_coset() {
                let n = self.domain.length as nat;
                let k = powers@.len();
                self.domain.lemma_generator_is_unit();
                lemma_pow2_pos(log_2_ceil_spec(n));
                if k < n {
                    self.domain.lemma_generator_has_its_order(k);
                } else if k > n {
                    let i = n as int;
                    assert(self.domain.omega.pow_spec(i as nat) != BFieldElement::spec_one());
                }
            }
        }
        let mut res: Vec<BFieldElement> = Vec::new();
        let mut i: usize = 0;
        while i < powers.len()
            invariant
                i <= powers@.len(),
                res@.len() == i,
                forall|j: int|
                    0 <= j < powers@.len() ==> #[trigger] powers@[j] == self.domain.omega.pow_spec(
                        j as nat,
                    ),
                forall|j: int|
                    0 <= j < i ==> #[trigger] res@[j] == self.domain.domain_value_spec(j as nat),
            decreases powers@.len() - i,
        {
            res.push(powers[i].mul(self.domain.offset));
            i = i + 1;
        }
        res
    }
}

/// `n`, halved `r` times.
pub fn halved(n: usize, r: u8) -> (res: usize)
    ensures
        res == halved_spec(n as nat, r as nat),
{
    let mut res = n;
    let mut i: u8 = 0;
    while i < r
        invariant
            i <= r,
            res == halved_spec(n as nat, i as nat),
        decreases r - i,
    {
        res = res / 2;
        i = i + 1;
    }
    res
}

impl<H: AlgebraicHasher> Fri<H> {
    /// Whether the indices of the queries can be drawn: the number of
    /// rounds is defined, the last codeword is as long as there are
    /// queries, and 32 bits hold the number of choices drawn.
    pub open spec fn sampler_ready(self) -> bool {
        &&& self.rounds_defined()
        &&& self.colinearity_checks_count <= self.last_length_spec()
        &&& self.colinearity_checks_count <= u32::MAX
        &&& self.colinearity_checks_count * self.rounds_spec() <= u32::MAX
    }

    /// Whether the indices of the queries can be drawn.
    pub fn check_sampler_ready(&self) -> (res: bool)
        ensures
            res == self.sampler_ready(),
    {
        let rounds = match self.checked_num_rounds() {
            Some((rounds, _)) => rounds,
            None => {
                return false;
            },
        };
        let queries = self.colinearity_checks_count;
        assert(queries * rounds <= usize::MAX * 255) by (nonlinear_arith)
            requires
                queries <= usize::MAX,
                rounds <= 255,
        ;
        queries <= halved(self.domain.length, rounds) && queries as u128 <= u32::MAX as u128
            && queries as u128 * rounds as u128 <= u32::MAX as u128
    }

    /// The digest from which the choice of number `counter` is drawn.
    fn counter_hash(seed: &Digest, counter: u64) -> (res: Digest)
        ensures
            res == counter_hash_spec::<H>(*seed, counter as nat),
    {
        let mut elements = seed.to_sequence();
        elements.push(BFieldElement::new(counter));
        H::hash_slice(&elements)
    }

    /// The indices of the queries into the first codeword: distinct
    /// indices into the last codeword, each lifted round by round.
    #[verifier::rlimit(50)]
    pub fn sample_indices(&self, seed: &Digest) -> (res: Vec<usize>)
        requires
            self.sampler_ready(),
        ensures
            res@ == sample_indices_spec::<H>(
                *seed,
                self.domain.length as nat,
                self.rounds_spec(),
                self.colinearity_checks_count as nat,
            ),
            forall|j: int| 0 <= j < res@.len() ==> #[trigger] res@[j] < self.domain.length,
    {
        let (rounds, _) = self.num_rounds();
        let queries = self.colinearity_checks_count;
        let last_length = halved(self.domain.length, rounds);
        let ghost length = self.domain.length as nat;
        let mut left: Vec<usize> = Vec::new();
        let mut i: usize = 0;
        while i < last_length
            invariant
                i <= last_length,
                left@.len() == i,
                forall|k: int| 0 <= k < i ==> #[trigger] left@[k] == k,
            decreases last_length - i,
        {
            left.push(i);
            i = i + 1;
        }
        proof {
            assert(left@ =~= Seq::new(last_length as nat, |i: int| i as usize));
        }
        let mut indices: Vec<usize> = Vec::new();
        let mut counter: u64 = 0;
        while indices.len() < queries
            invariant
                indices@.len() == counter,
                counter <= queries <= last_length,
                queries <= u32::MAX,
                left@.len() == last_length - counter,
                (indices@, left@) == last_indices_spec::<H>(
                    *seed,
                    last_length as nat,
                    counter as nat,
                ),
                forall|k: int| 0 <= k < left@.len() ==> #[trigger] left@[k] < last_length,
                forall|k: int| 0 <= k < indices@.len() ==> #[trigger] indices@[k] < last_length,
            decreases queries - counter,
        {
            let hash = Self::counter_hash(seed, counter);
            let k = sample_index_not_power_of_two(&hash, left.len());
            let chosen = left.remove(k);
            indices.push(chosen);
            counter = counter + 1;
        }
        proof {
            lemma_doubled_halved(length, rounds as nat);
        }
        let mut stride: usize = last_length;
        let mut lift: u8 = 1;
        while lift < rounds
            invariant
                1 <= lift,
                lift <= rounds || (rounds == 0 && lift == 1),
                rounds == self.rounds_spec(),
                queries == self.colinearity_checks_count,
                queries * rounds <= u32::MAX,
                last_length == halved_spec(length, rounds as nat),
                doubled_spec(last_length as nat, rounds as nat) <= length <= usize::MAX,
                stride == doubled_spec(last_length as nat, (lift - 1) as nat),
                indices@.len() == queries,
                counter == lift * queries,
                forall|j: int|
                    0 <= j < queries ==> #[trigger] indices@[j] == lifted_index_spec::<H>(
                        *seed,
                        last_length as nat,
                        queries as nat,
                        (lift - 1) as nat,
                        j as nat,
                    ),
                forall|j: int| 0 <= j < queries ==> #[trigger] indices@[j] < stride,
            decreases rounds - lift,
        {
            proof {
                lemma_doubled_grows(last_length as nat, lift as nat, rounds as nat);
                assert((lift + 1) * queries <= rounds * queries) by (nonlinear_arith)
                    requires
                        lift + 1 <= rounds,
                        0 <= queries,
                ;
                assert((lift + 1) * queries == lift * queries + queries) by (nonlinear_arith);
            }
            let mut j: usize = 0;
            while j < queries
                invariant
                    j <= queries,
                    1 <= lift < rounds,
                    indices@.len() == queries,
                    counter == lift * queries + j,
                    lift * queries + queries <= u32::MAX,
                    2 * stride <= usize::MAX,
                    stride == doubled_spec(last_length as nat, (lift - 1) as nat),
                    forall|i: int|
                        0 <= i < j ==> #[trigger] indices@[i] == lifted_index_spec::<H>(
                            *seed,
                            last_length as nat,
                            queries as nat,
                            lift as nat,
                            i as nat,
                        ),
                    forall|i: int| 0 <= i < j ==> #[trigger] indices@[i] < 2 * stride,
                    forall|i: int|
                        j <= i < queries ==> #[trigger] indices@[i] == lifted_index_spec::<H>(
                            *seed,
                            last_length as nat,
                            queries as nat,
                            (lift - 1) as nat,
                            i as nat,
                        ),
                    forall|i: int| j <= i < queries ==> #[trigger] indices@[i] < stride,
                decreases queries - j,
            {
                let hash = Self::counter_hash(seed, counter);
                if sample_index(&hash, 2) == 0 {
                    let lifted = indices[j] + stride;
                    indices.set(j, lifted);
                }
                counter = counter + 1;
                j = j + 1;
            }
            stride = stride * 2;
            lift = lift + 1;
        }
        proof {
            let lifts: nat = if rounds == 0 {
                0
            } else {
                (rounds - 1) as nat
            };
            lemma_doubled_grows(last_length as nat, lifts, rounds as nat);
            assert(lifts == lift - 1);
            let wanted = sample_indices_spec::<H>(*seed, length, rounds as nat, queries as nat);
            assert(wanted.len() == queries);
            assert forall|j: int| 0 <= j < queries implies indices@[j] == wanted[j] by {
                assert(indices@[j] == lifted_index_spec::<H>(
                    *seed,
                    last_length as nat,
                    queries as nat,
                    lifts,
                    j as nat,
                ));
            }
            assert(indices@ =~= sample_indices_spec::<H>(
                *seed,
                length,
                rounds as nat,
                queries as nat,
            ));
        }
        indices
    }
}

/// The digests of the leaves of the tree over `codeword`: the digest of
/// each value's coefficients.
pub open spec fn leaf_digests_spec<H: AlgebraicHasher>(codeword: Seq<XFieldElement>) -> Seq<
    Digest,
> {
    Seq::new(codeword.len(), |i: int| H::hash_spec(codeword[i].sequence_spec()))
}

/// The inverse of two in the extension field.
pub open spec fn two_inverse_spec() -> XFieldElement {
    XFieldElement::spec_one().add_spec(XFieldElement::spec_one()).inverse_spec()
}

/// The value of the fold at the square of a point `x`, whose inverse is
/// `x_inverse`, from the values `low` and `high` of the codeword at `x`
/// and at `-x`: `((1 + alpha / x) low + (1 - alpha / x) high) / 2`.
pub open spec fn fold_value_spec(
    alpha: XFieldElement,
    x_inverse: BFieldElement,
    low: XFieldElement,
    high: XFieldElement,
) -> XFieldElement {
    let quotient = alpha.scale_spec(x_inverse);
    two_inverse_spec().mul_spec(
        XFieldElement::spec_one().add_spec(quotient).mul_spec(low).add_spec(
            XFieldElement::spec_one().sub_spec(quotient).mul_spec(high),
        ),
    )
}

/// The fold of `codeword`, a codeword on the coset of `generator` with
/// the offset `offset`, under the challenge `alpha`: a codeword of half the
/// length, on the coset of the squares.
pub open spec fn fold_spec(
    codeword: Seq<XFieldElement>,
    alpha: XFieldElement,
    offset: BFieldElement,
    generator: BFieldElement,
) -> Seq<XFieldElement> {
    let half = codeword.len() / 2;
    Seq::new(
        half,
        |i: int|
            fold_value_spec(
                alpha,
                generator.pow_spec(i as nat).mul_spec(offset).inverse_spec(),
                codeword[i],
                codeword[half + i],
            ),
    )
}

/// Moves each index of `indices` half the length of a codeword on, around
/// the end: to the index of the value that its own is folded with.
pub fn move_to_siblings(indices: &mut Vec<usize>, length: usize)
    requires
        0 < length,
        forall|i: int|
            0 <= i < old(indices)@.len() ==> #[trigger] old(indices)@[i] + length / 2
                <= usize::MAX,
    ensures
        final(indices)@ == sibling_indices_spec(old(indices)@, length as nat),
{
    let ghost before = indices@;
    let mut j: usize = 0;
    while j < indices.len()
        invariant
            j <= indices@.len(),
            indices@.len() == before.len(),
            0 < length,
            forall|i: int| 0 <= i < before.len() ==> #[trigger] before[i] + length / 2 <= usize::MAX,
            forall|i: int|
                0 <= i < j ==> #[trigger] indices@[i] == ((before[i] + length / 2) % (
                length as int)) as usize,
            forall|i: int| j <= i < before.len() ==> #[trigger] indices@[i] == before[i],
        decreases indices@.len() - j,
    {
        let moved = (indices[j] + length / 2) % length;
        indices.set(j, moved);
        j = j + 1;
    }
    proof {
        assert(indices@ =~= sibling_indices_spec(before, length as nat));
    }
}

/// The digests of the leaves of the tree over `codeword`.
pub fn leaf_digests<H: AlgebraicHasher>(codeword: &[XFieldElement]) -> (res: Vec<Digest>)
    ensures
        res@ == leaf_digests_spec::<H>(codeword@),
{
    let mut res: Vec<Digest> = Vec::new();
    let mut i: usize = 0;
    while i < codeword.len()
        invariant
            i <= codeword@.len(),
            res@.len() == i,
            forall|j: int|
                0 <= j < i ==> #[trigger] res@[j] == H::hash_spec(codeword@[j].sequence_spec()),
        decreases codeword@.len() - i,
    {
        let elements = codeword[i].to_sequence();
        res.push(H::hash_slice(&elements));
        i = i + 1;
    }
    proof {
        assert(res@ =~= leaf_digests_spec::<H>(codeword@));
    }
    res
}

/// The fold of `codeword` under the challenge `alpha`.
pub fn fold(
    codeword: &[XFieldElement],
    alpha: XFieldElement,
    offset: BFieldElement,
    generator: BFieldElement,
) -> (res: Vec<XFieldElement>)
    requires
        offset.is_unit(),
        generator.is_unit(),
    ensures
        res@ == fold_spec(codeword@, alpha, offset, generator),
{
    let half = codeword.len() / 2;
    let mut points: Vec<BFieldElement> = Vec::new();
    let mut power = BFieldElement::one();
    let mut i: usize = 0;
    while i < half
        invariant
            i <= half,
            offset.is_unit(),
            generator.is_unit(),
            points@.len() == i,
            power == generator.pow_spec(i as nat),
            forall|j: int|
                0 <= j < i ==> #[trigger] points@[j] == generator.pow_spec(j as nat).mul_spec(
                    offset,
                ),
            forall|j: int| 0 <= j < i ==> (#[trigger] points@[j]).is_unit(),
        decreases half - i,
    {
        proof {
            BFieldElement::lemma_pow_is_unit(generator, i as nat);
            BFieldElement::lemma_unit_product(power, offset);
            BFieldElement::lemma_mul_commutative(power, generator);
        }
        points.push(power.mul(offset));
        power = power.mul(generator);
        i = i + 1;
    }
    let inverses = BFieldElement::batch_inversion(&points);
    let one = XFieldElement::one();
    let two_inverse = one.add(one).inverse();
    let mut res: Vec<XFieldElement> = Vec::new();
    let mut i: usize = 0;
    while i < half
        invariant
            i <= half,
            half == codeword@.len() / 2,
            one == XFieldElement::spec_one(),
            two_inverse == two_inverse_spec(),
            inverses@.len() == half,
            forall|j: int|
                0 <= j < half ==> #[trigger] inverses@[j] == generator.pow_spec(j as nat).mul_spec(
                    offset,
                ).inverse_spec(),
            res@.len() == i,
            forall|j: int|
                0 <= j < i ==> #[trigger] res@[j] == fold_value_spec(
                    alpha,
                    generator.pow_spec(j as nat).mul_spec(offset).inverse_spec(),
                    codeword@[j],
                    codeword@[half + j],
                ),
        decreases half - i,
    {
        let quotient = alpha.scale(inverses[i]);
        res.push(
            two_inverse.mul(
                one.add(quotient).mul(codeword[i]).add(one.sub(quotient).mul(codeword[half + i])),
            ),
        );
        i = i + 1;
    }
    proof {
        assert(res@ =~= fold_spec(codeword@, alpha, offset, generator));
    }
    res
}

/// A power of two, halved no more often than its logarithm says, is a
/// power of two.
pub proof fn lemma_halved_pow2(a: nat, r: nat)
    requires
        r <= a,
    ensures
        halved_spec(pow2(a), r) == pow2((a - r) as nat),
    decreases r,
{
    if r > 0 {
        lemma_halved_pow2(a, (r - 1) as nat);
        lemma_pow2_unfold((a - r + 1) as nat);
    }
}

/// The state of the commit phase after the root of layer `r` was written:
/// the codeword of layer `r`, and the transcript. Layer 0 is `codeword`;
/// each further layer is the fold of the one before it, under the
/// challenge that the transcript gives once that layer's root is written,
/// on the domain with the generator and the offset squared once more.
pub open spec fn commit_layer_spec<H: AlgebraicHasher>(
    domain: FriDomain,
    codeword: Seq<XFieldElement>,
    transcript: Seq<u8>,
    r: nat,
) -> (Seq<XFieldElement>, Seq<u8>)
    decreases r,
{
    if r == 0 {
        (codeword, transcript + root_spec::<H>(leaf_digests_spec::<H>(codeword)).bytes_spec())
    } else {
        let (below, written) = commit_layer_spec::<H>(domain, codeword, transcript, (r - 1) as nat);
        let alpha = XFieldElement::sample_spec(fiat_shamir_spec::<H>(written, written.len()));
        let folded = fold_spec(
            below,
            alpha,
            domain.offset.squared_spec((r - 1) as nat),
            domain.omega.squared_spec((r - 1) as nat),
        );
        (folded, written + root_spec::<H>(leaf_digests_spec::<H>(folded)).bytes_spec())
    }
}

/// The transcript at the end of the commit phase: the roots of the layers
/// 0 to `rounds`, then the last codeword behind its length.
pub open spec fn commit_transcript_spec<H: AlgebraicHasher>(
    domain: FriDomain,
    codeword: Seq<XFieldElement>,
    transcript: Seq<u8>,
    rounds: nat,
) -> Seq<u8> {
    let (last, written) = commit_layer_spec::<H>(domain, codeword, transcript, rounds);
    written + length_prepended_spec(codeword_bytes_spec(last))
}

/// For each index of `indices` the index of the value that is folded with
/// it, in a codeword of the length `length`: the index half the length
/// further on, around the end.
pub open spec fn sibling_indices_spec(indices: Seq<usize>, length: nat) -> Seq<usize> {
    Seq::new(indices.len(), |j: int| ((indices[j] + length / 2) % (length as int)) as usize)
}

/// The indices of the second opening of round `r`, where `top` are the
/// indices of the queries into the first codeword, of the length `length`.
pub open spec fn b_indices_spec(top: Seq<usize>, length: nat, r: nat) -> Seq<usize>
    decreases r,
{
    if r == 0 {
        sibling_indices_spec(top, length)
    } else {
        sibling_indices_spec(b_indices_spec(top, length, (r - 1) as nat), halved_spec(length, r))
    }
}

/// The opening of the values of `codeword` at `indices`, with the values.
pub open spec fn auth_pairs_spec<H: AlgebraicHasher>(
    codeword: Seq<XFieldElement>,
    indices: Seq<usize>,
) -> Seq<(Seq<Option<Digest>>, XFieldElement)> {
    let paths = authentication_structure_spec::<H>(leaf_digests_spec::<H>(codeword), indices);
    Seq::new(indices.len(), |j: int| (paths[j], codeword[indices[j] as int]))
}

/// The bytes that the opening of the values of `codeword` at `indices`
/// adds to the transcript.
pub open spec fn bundle_bytes_spec<H: AlgebraicHasher>(
    codeword: Seq<XFieldElement>,
    indices: Seq<usize>,
) -> Seq<u8> {
    length_prepended_spec(auth_pairs_bytes_spec(auth_pairs_spec::<H>(codeword, indices)))
}

/// The indices of the queries into the first codeword that a proof of
/// `codeword` draws, where the transcript began as `transcript`.
pub open spec fn top_indices_spec<H: AlgebraicHasher>(
    domain: FriDomain,
    codeword: Seq<XFieldElement>,
    transcript: Seq<u8>,
    rounds: nat,
    queries: nat,
) -> Seq<usize> {
    let committed = commit_transcript_spec::<H>(domain, codeword, transcript, rounds);
    sample_indices_spec::<H>(
        fiat_shamir_spec::<H>(committed, committed.len()),
        domain.length as nat,
        rounds,
        queries,
    )
}

/// The transcript of a proof of `codeword` once the queries into the first
/// `r` layers are answered: that of the commit phase, then the opening of
/// the first codeword at the indices of the queries, then for each of the
/// first `r` layers the opening at the indices that are folded with those
/// of the queries.
pub open spec fn proof_transcript_spec<H: AlgebraicHasher>(
    domain: FriDomain,
    codeword: Seq<XFieldElement>,
    transcript: Seq<u8>,
    rounds: nat,
    queries: nat,
    r: nat,
) -> Seq<u8>
    decreases r,
{
    let top = top_indices_spec::<H>(domain, codeword, transcript, rounds, queries);
    if r == 0 {
        commit_transcript_spec::<H>(domain, codeword, transcript, rounds) + bundle_bytes_spec::<H>(
            codeword,
            top,
        )
    } else {
        proof_transcript_spec::<H>(domain, codeword, transcript, rounds, queries, (r - 1) as nat)
            + bundle_bytes_spec::<H>(
            commit_layer_spec::<H>(domain, codeword, transcript, (r - 1) as nat).0,
            b_indices_spec(top, domain.length as nat, (r - 1) as nat),
        )
    }
}

/// The length of the codeword of layer `r`.
pub proof fn lemma_commit_layer_len<H: AlgebraicHasher>(
    domain: FriDomain,
    codeword: Seq<XFieldElement>,
    transcript: Seq<u8>,
    r: nat,
)
    ensures
        commit_layer_spec::<H>(domain, codeword, transcript, r).0.len() == halved_spec(
            codeword.len(),
            r,
        ),
    decreases r,
{
    if r > 0 {
        lemma_commit_layer_len::<H>(domain, codeword, transcript, (r - 1) as nat);
    }
}

impl<H: AlgebraicHasher> Fri<H> {
    /// Whether the parameters are those of a test: the domain is valid and
    /// the machine can hold a tree over it, the expansion factor is a
    /// power of two from two up to the domain's length, there is a query,
    /// and 32 bits hold the number of choices drawn.
    pub open spec fn is_valid(self) -> bool {
        &&& self.domain.is_valid()
        &&& 2 * self.domain.length <= usize::MAX
        &&& is_power_of_two_spec(self.expansion_factor as nat)
        &&& 2 <= self.expansion_factor <= self.domain.length
        &&& 1 <= self.colinearity_checks_count
        &&& self.colinearity_checks_count * self.rounds_spec() <= u32::MAX
    }

    /// Whether the parameters are those of a test.
    pub fn check_valid(&self) -> (res: bool)
        ensures
            res == self.is_valid(),
    {
        if !self.domain.check_valid() || self.domain.length > usize::MAX / 2
            || !crate::power_of_two::is_power_of_two(self.expansion_factor as u64)
            || self.expansion_factor < 2 || self.expansion_factor > self.domain.length
            || self.colinearity_checks_count < 1 {
            return false;
        }
        let (full, missed, _) = self.round_counts();
        let rounds: u64 = if missed < full {
            full - missed
        } else {
            0
        };
        assert(rounds == self.rounds_spec());
        assert(self.colinearity_checks_count * rounds <= usize::MAX * 64) by (nonlinear_arith)
            requires
                self.colinearity_checks_count <= usize::MAX,
                rounds <= 64,
        ;
        self.colinearity_checks_count as u128 * rounds as u128 <= u32::MAX as u128
    }

    /// Whether the parameters leave a round of folding.
    pub open spec fn has_rounds(self) -> bool {
        missed_rounds_spec(self.expansion_factor as nat, self.colinearity_checks_count as nat)
            < full_rounds_spec(self.domain.length as nat, self.expansion_factor as nat)
    }

    /// What the number of rounds of valid parameters leaves: a last
    /// codeword with room for all queries, and in each layer a codeword
    /// whose length is a power of two. There are at most 32 rounds.
    pub proof fn lemma_rounds(self)
        requires
            self.is_valid(),
            self.has_rounds(),
        ensures
            self.rounds_defined(),
            1 <= self.rounds_spec() <= 32,
            0 <= self.last_degree_spec() <= u32::MAX,
            self.colinearity_checks_count <= self.last_length_spec(),
            self.sampler_ready(),
            forall|r: nat|
                r <= self.rounds_spec() ==> is_power_of_two_spec(
                    #[trigger] halved_spec(self.domain.length as nat, r),
                ),
            forall|r: nat|
                r <= self.rounds_spec() ==> 1 <= #[trigger] halved_spec(
                    self.domain.length as nat,
                    r,
                ) <= self.domain.length,
            forall|r: nat|
                r < self.rounds_spec() ==> 2 <= #[trigger] halved_spec(
                    self.domain.length as nat,
                    r,
                ),
    {
        self.lemma_rounds_and_lengths();
    }

    /// The lengths that the number of rounds leaves: the domain has as
    /// many points for each unit of the expansion factor as the power of
    /// two of the rounds before any is left out, and the last codeword as
    /// many values as the expansion factor times the power of two of the
    /// rounds left out.
    pub proof fn lemma_lengths(self)
        requires
            self.is_valid(),
            self.has_rounds(),
        ensures
            self.domain.length / self.expansion_factor == pow2(
                full_rounds_spec(self.domain.length as nat, self.expansion_factor as nat),
            ),
            self.last_length_spec() == self.expansion_factor * pow2(
                missed_rounds_spec(
                    self.expansion_factor as nat,
                    self.colinearity_checks_count as nat,
                ),
            ),
    {
        self.lemma_rounds_and_lengths();
    }

    proof fn lemma_rounds_and_lengths(self)
        requires
            self.is_valid(),
            self.has_rounds(),
        ensures
            self.rounds_defined(),
            1 <= self.rounds_spec() <= 32,
            0 <= self.last_degree_spec() <= u32::MAX,
            self.colinearity_checks_count <= self.last_length_spec(),
            self.sampler_ready(),
            self.domain.length / self.expansion_factor == pow2(
                full_rounds_spec(self.domain.length as nat, self.expansion_factor as nat),
            ),
            self.last_length_spec() == self.expansion_factor * pow2(
                missed_rounds_spec(
                    self.expansion_factor as nat,
                    self.colinearity_checks_count as nat,
                ),
            ),
            forall|r: nat|
                r <= self.rounds_spec() ==> is_power_of_two_spec(
                    #[trigger] halved_spec(self.domain.length as nat, r),
                ),
            forall|r: nat|
                r <= self.rounds_spec() ==> 1 <= #[trigger] halved_spec(
                    self.domain.length as nat,
                    r,
                ) <= self.domain.length,
            forall|r: nat|
                r < self.rounds_spec() ==> 2 <= #[trigger] halved_spec(
                    self.domain.length as nat,
                    r,
                ),
    {
        let n = self.domain.length as nat;
        let rho = self.expansion_factor as nat;
        let q = self.colinearity_checks_count as nat;
        let a = log_2_ceil_spec(n);
        let b = log_2_ceil_spec(rho);
        lemma2_to64();
        lemma2_to64_rest();
        lemma_log_2_ceil_at_most(n, 32);
        lemma_log_2_ceil_at_most(rho, a);
        lemma_pow2_subtracts(b, a);
        lemma_pow2_is_power_of_two((a - b) as nat);
        let full = full_rounds_spec(n, rho);
        assert(full == a - b);
        let m = missed_rounds_spec(rho, q);
        lemma_pow2_strictly_increases(m, 32);
        lemma_pow2_pos(m);
        let rounds = (full - m) as nat;
        assert(self.rounds_spec() == rounds);
        lemma_halved_pow2(a, rounds);
        lemma_pow2_adds(b, m);
        assert(self.last_length_spec() == rho * pow2(m));
        if rho < q {
            let c = ceil_div_spec(q, rho);
            lemma_fundamental_div_mod(q as int, rho as int);
            assert(q <= rho * c) by (nonlinear_arith)
                requires
                    q == rho * (q / rho) + (q % rho),
                    0 <= q % rho < rho,
                    c == if q % rho == 0 {
                        q / rho
                    } else {
                        q / rho + 1
                    },
            ;
            assert(c >= 1) by (nonlinear_arith)
                requires
                    q <= rho * c,
                    q > rho,
                    rho > 0,
            ;
            lemma_log_2_ceil_bounds(c);
            assert(rho * c <= rho * pow2(m)) by (nonlinear_arith)
                requires
                    c <= pow2(m),
            ;
        } else {
            assert(rho * pow2(0) == rho);
        }
        assert forall|r: nat| r <= rounds implies is_power_of_two_spec(
            #[trigger] halved_spec(n, r),
        ) && 1 <= halved_spec(n, r) <= n && (r < rounds ==> 2 <= halved_spec(n, r)) by {
            lemma_halved_pow2(a, r);
            lemma_pow2_is_power_of_two((a - r) as nat);
            lemma_pow2_pos((a - r) as nat);
            if r < a {
                lemma_pow2_unfold((a - r) as nat);
                lemma_pow2_pos((a - r - 1) as nat);
            }
            if r > 0 {
                lemma_pow2_strictly_increases((a - r) as nat, a);
            }
        }
    }

    /// The number of rounds and the greatest degree of the last
    /// polynomial, where the parameters leave a round.
    fn checked_rounds(&self) -> (res: Option<(u8, u32)>)
        requires
            self.is_valid(),
        ensures
            match res {
                Some((rounds, degree)) => self.has_rounds() && rounds == self.rounds_spec()
                    && degree == self.last_degree_spec(),
                None => !self.has_rounds(),
            },
    {
        let (full, missed, _) = self.round_counts();
        if missed >= full {
            return None;
        }
        proof {
            self.lemma_rounds();
        }
        Some(self.num_rounds())
    }

    /// Writes the opening of the values of `codeword` at `indices`, with
    /// the values, to the transcript.
    fn enqueue_auth_pairs(
        indices: &[usize],
        codeword: &[XFieldElement],
        merkle_tree: &MerkleTree<H>,
        proof_stream: &mut ProofStream,
    )
        requires
            merkle_tree.leaves_spec() == leaf_digests_spec::<H>(codeword@),
            forall|j: int| 0 <= j < indices@.len() ==> indices@[j] < codeword@.len(),
        ensures
            final(proof_stream).transcript@ == old(proof_stream).transcript@ + bundle_bytes_spec::<
                H,
            >(codeword@, indices@),
            final(proof_stream).read_index == old(proof_stream).read_index,
    {
        let paths = merkle_tree.get_authentication_structure(indices);
        let mut values: Vec<XFieldElement> = Vec::new();
        let mut j: usize = 0;
        while j < indices.len()
            invariant
                j <= indices@.len(),
                forall|j: int| 0 <= j < indices@.len() ==> indices@[j] < codeword@.len(),
                values@.len() == j,
                forall|i: int| 0 <= i < j ==> #[trigger] values@[i] == codeword@[indices@[i] as int],
            decreases indices@.len() - j,
        {
            values.push(codeword[indices[j]]);
            j = j + 1;
        }
        let bytes = encode_auth_pairs(paths.as_slice(), values.as_slice());
        proof {
            assert(Seq::new(paths@.len(), |j: int| (paths@[j].0@, values@[j]))
                =~= auth_pairs_spec::<H>(codeword@, indices@));
        }
        proof_stream.enqueue_length_prepended(bytes.as_slice());
    }

    /// The commit phase: writes the root of the tree over `codeword` and
    /// over each of its folds, then the last fold itself, and returns the
    /// codeword and the tree of each layer.
    #[verifier::rlimit(50)]
    fn commit(&self, codeword: &[XFieldElement], proof_stream: &mut ProofStream) -> (res: Vec<
        (Vec<XFieldElement>, MerkleTree<H>),
    >)
        requires
            self.is_valid(),
            self.has_rounds(),
            codeword@.len() == self.domain.length,
        ensures
            res@.len() == self.rounds_spec() + 1,
            forall|r: int|
                0 <= r <= self.rounds_spec() ==> (#[trigger] res@[r]).0@ == commit_layer_spec::<H>(
                    self.domain,
                    codeword@,
                    old(proof_stream).transcript@,
                    r as nat,
                ).0,
            forall|r: int|
                0 <= r <= self.rounds_spec() ==> (#[trigger] res@[r]).1.leaves_spec()
                    == leaf_digests_spec::<H>(res@[r].0@),
            final(proof_stream).transcript@ == commit_transcript_spec::<H>(
                self.domain,
                codeword@,
                old(proof_stream).transcript@,
                self.rounds_spec(),
            ),
            final(proof_stream).read_index == old(proof_stream).read_index,
    {
        let ghost start = proof_stream.transcript@;
        let ghost length = self.domain.length as nat;
        proof {
            self.lemma_rounds();
            self.domain.lemma_generator_is_unit();
            assert(halved_spec(length, 0) == length);
        }
        let (num_rounds, _) = self.num_rounds();
        let mut generator = self.domain.omega;
        let mut offset = self.domain.offset;
        let first = slice_to_vec(codeword);
        let digests = leaf_digests::<H>(first.as_slice());
        let tree = MerkleTree::<H>::from_digests(digests.as_slice());
        let root = tree.get_root().to_bytes();
        proof_stream.enqueue(root.as_slice());
        let mut layers: Vec<(Vec<XFieldElement>, MerkleTree<H>)> = Vec::new();
        layers.push((first, tree));
        let mut r: u8 = 0;
        while r < num_rounds
            invariant
                r <= num_rounds,
                num_rounds == self.rounds_spec(),
                length == self.domain.length,
                2 * length <= usize::MAX,
                codeword@.len() == length,
                forall|k: nat|
                    k <= num_rounds ==> is_power_of_two_spec(#[trigger] halved_spec(length, k)),
                forall|k: nat| k <= num_rounds ==> 1 <= #[trigger] halved_spec(length, k) <= length,
                generator == self.domain.omega.squared_spec(r as nat),
                offset == self.domain.offset.squared_spec(r as nat),
                generator.is_unit(),
                offset.is_unit(),
                layers@.len() == r + 1,
                forall|k: int|
                    0 <= k <= r ==> (#[trigger] layers@[k]).0@ == commit_layer_spec::<H>(
                        self.domain,
                        codeword@,
                        start,
                        k as nat,
                    ).0,
                forall|k: int|
                    0 <= k <= r ==> (#[trigger] layers@[k]).1.leaves_spec()
                        == leaf_digests_spec::<H>(layers@[k].0@),
                proof_stream.transcript@ == commit_layer_spec::<H>(
                    self.domain,
                    codeword@,
                    start,
                    r as nat,
                ).1,
                proof_stream.read_index == old(proof_stream).read_index,
            decreases num_rounds - r,
        {
            let challenge = proof_stream.prover_fiat_shamir::<H>();
            let alpha = XFieldElement::sample(&challenge);
            let folded = fold(layers[r as usize].0.as_slice(), alpha, offset, generator);
            proof {
                lemma_commit_layer_len::<H>(self.domain, codeword@, start, r as nat);
                lemma_commit_layer_len::<H>(self.domain, codeword@, start, (r + 1) as nat);
                assert(is_power_of_two_spec(halved_spec(length, (r + 1) as nat)));
                assert(halved_spec(length, (r + 1) as nat) <= length);
                BFieldElement::lemma_unit_product(generator, generator);
                BFieldElement::lemma_unit_product(offset, offset);
            }
            let digests = leaf_digests::<H>(folded.as_slice());
            let tree = MerkleTree::<H>::from_digests(digests.as_slice());
            let root = tree.get_root().to_bytes();
            proof_stream.enqueue(root.as_slice());
            layers.push((folded, tree));
            generator = generator.mul(generator);
            offset = offset.mul(offset);
            r = r + 1;
        }
        let last = encode_codeword(layers[num_rounds as usize].0.as_slice());
        proof_stream.enqueue_length_prepended(last.as_slice());
        layers
    }

    /// Proves that `codeword` is close to the codeword of a polynomial of
    /// low degree: appends the proof to the transcript, and returns the
    /// indices of the queries into `codeword`. Where the parameters leave
    /// no round of folding, nothing is written.
    #[verifier::rlimit(50)]
    pub fn prove(&self, codeword: &[XFieldElement], proof_stream: &mut ProofStream) -> (res: Result<
        Vec<usize>,
        ValidationError,
    >)
        requires
            self.is_valid(),
            codeword@.len() == self.domain.length,
        ensures
            final(proof_stream).read_index == old(proof_stream).read_index,
            match res {
                Ok(indices) => {
                    &&& self.has_rounds()
                    &&& indices@ == top_indices_spec::<H>(
                        self.domain,
                        codeword@,
                        old(proof_stream).transcript@,
                        self.rounds_spec(),
                        self.colinearity_checks_count as nat,
                    )
                    &&& final(proof_stream).transcript@ == proof_transcript_spec::<H>(
                        self.domain,
                        codeword@,
                        old(proof_stream).transcript@,
                        self.rounds_spec(),
                        self.colinearity_checks_count as nat,
                        self.rounds_spec(),
                    )
                },
                Err(error) => {
                    &&& !self.has_rounds()
                    &&& error == ValidationError::NonPositiveRoundCount
                    &&& final(proof_stream).transcript@ == old(proof_stream).transcript@
                },
            },
    {
        let ghost start = proof_stream.transcript@;
        let ghost length = self.domain.length as nat;
        let ghost queries = self.colinearity_checks_count as nat;
        let num_rounds = match self.checked_rounds() {
            Some((rounds, _)) => rounds,
            None => {
                return Err(ValidationError::NonPositiveRoundCount);
            },
        };
        proof {
            self.lemma_rounds();
        }
        let layers = self.commit(codeword, proof_stream);
        let seed = proof_stream.prover_fiat_shamir::<H>();
        let top_level_indices = self.sample_indices(&seed);
        let ghost top = top_level_indices@;
        proof {
            assert(halved_spec(length, 0) == length);
            assert(layers@[0].0@ == codeword@);
        }
        Self::enqueue_auth_pairs(
            top_level_indices.as_slice(),
            layers[0].0.as_slice(),
            &layers[0].1,
            proof_stream,
        );
        let mut current_domain_len = self.domain.length;
        let mut b_indices = slice_to_vec(top_level_indices.as_slice());
        let mut r: u8 = 0;
        while r < num_rounds
            invariant
                r <= num_rounds,
                num_rounds == self.rounds_spec(),
                length == self.domain.length,
                queries == self.colinearity_checks_count,
                2 * length <= usize::MAX,
                codeword@.len() == length,
                top == top_indices_spec::<H>(self.domain, codeword@, start, num_rounds as nat, queries),
                forall|k: nat| k < num_rounds ==> 2 <= #[trigger] halved_spec(length, k) <= length,
                forall|k: nat|
                    k <= num_rounds ==> is_power_of_two_spec(#[trigger] halved_spec(length, k)),
                current_domain_len == halved_spec(length, r as nat),
                layers@.len() == num_rounds + 1,
                forall|k: int|
                    0 <= k <= num_rounds ==> (#[trigger] layers@[k]).0@ == commit_layer_spec::<H>(
                        self.domain,
                        codeword@,
                        start,
                        k as nat,
                    ).0,
                forall|k: int|
                    0 <= k <= num_rounds ==> (#[trigger] layers@[k]).1.leaves_spec()
                        == leaf_digests_spec::<H>(layers@[k].0@),
                b_indices@.len() == top.len(),
                r == 0 ==> b_indices@ == top,
                r > 0 ==> b_indices@ == b_indices_spec(top, length, (r - 1) as nat),
                forall|j: int|
                    0 <= j < b_indices@.len() ==> #[trigger] b_indices@[j] < 2 * current_domain_len,
                r == 0 ==> forall|j: int|
                    0 <= j < b_indices@.len() ==> #[trigger] b_indices@[j] < current_domain_len,
                proof_stream.transcript@ == proof_transcript_spec::<H>(
                    self.domain,
                    codeword@,
                    start,
                    num_rounds as nat,
                    queries,
                    r as nat,
                ),
                proof_stream.read_index == old(proof_stream).read_index,
            decreases num_rounds - r,
        {
            let ghost before = b_indices@;
            proof {
                assert(is_power_of_two_spec(halved_spec(length, r as nat)));
                crate::power_of_two::lemma_half_power_of_two(current_domain_len as nat);
                if r > 0 {
                    assert(halved_spec(length, (r - 1) as nat) <= length);
                }
            }
            move_to_siblings(&mut b_indices, current_domain_len);
            proof {
                lemma_commit_layer_len::<H>(self.domain, codeword@, start, r as nat);
            }
            Self::enqueue_auth_pairs(
                b_indices.as_slice(),
                layers[r as usize].0.as_slice(),
                &layers[r as usize].1,
                proof_stream,
            );
            current_domain_len = current_domain_len / 2;
            r = r + 1;
        }
        Ok(top_level_indices)
    }
}

/// The roots of the layers 0 to `r` and the challenges of the rounds 0 to
/// `r - 1`, as the transcript gives them from `at` on, and the place
/// behind them: each challenge is drawn from what stands before the root
/// that follows it.
pub open spec fn read_roots_spec<H: AlgebraicHasher>(transcript: Seq<u8>, at: nat, r: nat) -> Option<
    (Seq<Digest>, Seq<XFieldElement>, nat),
>
    decreases r,
{
    if r == 0 {
        match dequeue_spec(transcript, at, 32) {
            Some((bytes, behind)) => Some(
                (seq![Digest::from_bytes_spec(bytes)], Seq::empty(), behind),
            ),
            None => None,
        }
    } else {
        match read_roots_spec::<H>(transcript, at, (r - 1) as nat) {
            Some((roots, alphas, pos)) => {
                let alpha = XFieldElement::sample_spec(fiat_shamir_spec::<H>(transcript, pos));
                match dequeue_spec(transcript, pos, 32) {
                    Some((bytes, behind)) => Some(
                        (roots.push(Digest::from_bytes_spec(bytes)), alphas.push(alpha), behind),
                    ),
                    None => None,
                }
            },
            None => None,
        }
    }
}

/// The place behind the message that stands at `at` behind its length;
/// `at` itself where the transcript ends before the message does.
pub open spec fn behind_message_spec(transcript: Seq<u8>, at: nat) -> nat {
    match dequeue_length_prepended_spec(transcript, at) {
        Some((_, behind)) => behind,
        None => at,
    }
}

/// The place behind the roots of the layers 0 to `r` that stand at `at`,
/// as far as the transcript holds them whole.
pub open spec fn behind_roots_spec(transcript: Seq<u8>, at: nat, r: nat) -> nat
    decreases r,
{
    let before = if r == 0 {
        at
    } else {
        behind_roots_spec(transcript, at, (r - 1) as nat)
    };
    match dequeue_spec(transcript, before, 32) {
        Some((_, behind)) => behind,
        None => before,
    }
}

/// Where a root is missing, the roots behind it are missing too.
pub proof fn lemma_behind_roots_stays(transcript: Seq<u8>, at: nat, r: nat, later: nat)
    requires
        r <= later,
        dequeue_spec(
            transcript,
            if r == 0 {
                at
            } else {
                behind_roots_spec(transcript, at, (r - 1) as nat)
            },
            32,
        ) is None,
    ensures
        behind_roots_spec(transcript, at, later) == behind_roots_spec(transcript, at, r),
    decreases later,
{
    if r < later {
        lemma_behind_roots_stays(transcript, at, r, (later - 1) as nat);
    }
}

/// The roots that are read whole are read up to the place behind them.
pub proof fn lemma_behind_roots<H: AlgebraicHasher>(transcript: Seq<u8>, at: nat, r: nat)
    requires
        read_roots_spec::<H>(transcript, at, r) is Some,
    ensures
        read_roots_spec::<H>(transcript, at, r) matches Some((_, _, behind)) && behind
            == behind_roots_spec(transcript, at, r),
    decreases r,
{
    if r > 0 {
        lemma_behind_roots::<H>(transcript, at, (r - 1) as nat);
    }
}

/// The codeword that the transcript holds at `at` behind its length, and
/// the place behind it.
pub open spec fn read_codeword_spec(transcript: Seq<u8>, at: nat) -> Option<
    (Seq<XFieldElement>, nat),
> {
    match dequeue_length_prepended_spec(transcript, at) {
        Some((bytes, behind)) => match decode_codeword_spec(bytes) {
            Some(values) => Some((values, behind)),
            None => None,
        },
        None => None,
    }
}

/// The values that the opening at `at` in the transcript shows at the
/// indices `indices` of the codeword with `n` values and the root `root`,
/// and the place behind the opening. The opening must be whole, else the
/// proof is badly sized; and it must lead to the root, which an opening
/// with another number of values than there are indices does not.
pub open spec fn authenticate_spec<H: AlgebraicHasher>(
    transcript: Seq<u8>,
    at: nat,
    indices: Seq<usize>,
    root: Digest,
    n: nat,
) -> Result<(Seq<XFieldElement>, nat), ValidationError> {
    match dequeue_length_prepended_spec(transcript, at) {
        None => Err(ValidationError::BadSizedProof),
        Some((bytes, behind)) => match decode_auth_pairs_spec(bytes) {
            None => Err(ValidationError::BadSizedProof),
            Some(pairs) => {
                let values = Seq::new(pairs.len(), |j: int| pairs[j].1);
                let paths = Seq::new(pairs.len(), |j: int| pairs[j].0);
                if crate::merkle_tree::verify_spec::<H>(
                    root,
                    n,
                    indices,
                    paths,
                    leaf_digests_spec::<H>(values),
                ) {
                    Ok((values, behind))
                } else {
                    Err(ValidationError::BadMerkleProof)
                }
            },
        },
    }
}

/// The argument at which the value of index `idx` of the codeword of round
/// `round` is taken.
pub open spec fn evaluation_argument_spec(domain: FriDomain, idx: nat, round: nat) -> BFieldElement {
    domain.offset.mul_spec(domain.omega.pow_spec(idx)).pow_spec(pow2(round))
}

/// For each query the value at the challenge `alpha` of the line through
/// its two points of round `round`: the value of the next codeword that
/// the two values fold to.
pub open spec fn colinear_values_spec(
    domain: FriDomain,
    a_indices: Seq<usize>,
    a_values: Seq<XFieldElement>,
    b_indices: Seq<usize>,
    b_values: Seq<XFieldElement>,
    alpha: XFieldElement,
    round: nat,
) -> Seq<XFieldElement> {
    Seq::new(
        a_indices.len(),
        |j: int|
            colinear_y_spec(
                (
                    XFieldElement::lift_spec(
                        evaluation_argument_spec(domain, a_indices[j] as nat, round),
                    ),
                    a_values[j],
                ),
                (
                    XFieldElement::lift_spec(
                        evaluation_argument_spec(domain, b_indices[j] as nat, round),
                    ),
                    b_values[j],
                ),
                alpha,
            ),
    )
}

/// Each index of `indices`, reduced modulo `length`.
pub open spec fn reduced_indices_spec(indices: Seq<usize>, length: nat) -> Seq<usize> {
    Seq::new(indices.len(), |j: int| ((indices[j] as int) % (length as int)) as usize)
}

/// The two points of each query in the first codeword, each as an index
/// with the value there: for each query first its own point, then the
/// point that it is folded with.
pub open spec fn evaluations_spec(
    a_indices: Seq<usize>,
    a_values: Seq<XFieldElement>,
    b_indices: Seq<usize>,
    b_values: Seq<XFieldElement>,
) -> Seq<(usize, XFieldElement)> {
    Seq::new(
        2 * a_indices.len(),
        |i: int|
            if i % 2 == 0 {
                (a_indices[i / 2], a_values[i / 2])
            } else {
                (b_indices[i / 2], b_values[i / 2])
            },
    )
}

/// The state of the query phase after `r` rounds, or the error that ended
/// it: the indices and the values that the queries have reached, the
/// indices of the last second opening, the place in the transcript, and
/// the points of the first round.
///
/// Each round reads the opening of the values that the queries' values are
/// folded with, against the root of its layer, and folds: each index is
/// reduced to the next codeword's length, each value becomes the value on
/// the line through the two points at the round's challenge.
pub open spec fn query_rounds_spec<H: AlgebraicHasher>(
    domain: FriDomain,
    transcript: Seq<u8>,
    roots: Seq<Digest>,
    alphas: Seq<XFieldElement>,
    top: Seq<usize>,
    first_values: Seq<XFieldElement>,
    at: nat,
    r: nat,
) -> Result<
    (Seq<usize>, Seq<XFieldElement>, Seq<usize>, nat, Seq<(usize, XFieldElement)>),
    ValidationError,
>
    decreases r,
{
    if r == 0 {
        Ok((top, first_values, top, at, Seq::empty()))
    } else {
        match query_rounds_spec::<H>(
            domain,
            transcript,
            roots,
            alphas,
            top,
            first_values,
            at,
            (r - 1) as nat,
        ) {
            Err(error) => Err(error),
            Ok((a_indices, a_values, b_before, pos, evaluations)) => {
                let length = halved_spec(domain.length as nat, (r - 1) as nat);
                let b_indices = sibling_indices_spec(b_before, length);
                match authenticate_spec::<H>(transcript, pos, b_indices, roots[r - 1], length) {
                    Err(error) => Err(error),
                    Ok((b_values, behind)) => Ok(
                        (
                            reduced_indices_spec(a_indices, length / 2),
                            colinear_values_spec(
                                domain,
                                a_indices,
                                a_values,
                                b_indices,
                                b_values,
                                alphas[r - 1],
                                (r - 1) as nat,
                            ),
                            b_indices,
                            behind,
                            if r == 1 {
                                evaluations_spec(a_indices, a_values, b_indices, b_values)
                            } else {
                                evaluations
                            },
                        ),
                    ),
                }
            },
        }
    }
}

/// The place in the transcript that the query phase has reached after `r`
/// rounds, or when an error ended it: behind the last opening that the
/// transcript holds whole.
pub open spec fn behind_query_rounds_spec<H: AlgebraicHasher>(
    domain: FriDomain,
    transcript: Seq<u8>,
    roots: Seq<Digest>,
    alphas: Seq<XFieldElement>,
    top: Seq<usize>,
    first_values: Seq<XFieldElement>,
    at: nat,
    r: nat,
) -> nat
    decreases r,
{
    if r == 0 {
        at
    } else {
        match query_rounds_spec::<H>(
            domain,
            transcript,
            roots,
            alphas,
            top,
            first_values,
            at,
            (r - 1) as nat,
        ) {
            Err(_) => behind_query_rounds_spec::<H>(
                domain,
                transcript,
                roots,
                alphas,
                top,
                first_values,
                at,
                (r - 1) as nat,
            ),
            Ok((_, _, _, pos, _)) => behind_message_spec(transcript, pos),
        }
    }
}

/// Whether each value of `values` is the value of `codeword` at the index
/// of `indices` in the same place.
pub open spec fn values_agree_spec(
    indices: Seq<usize>,
    values: Seq<XFieldElement>,
    codeword: Seq<XFieldElement>,
) -> bool {
    forall|j: int| 0 <= j < indices.len() ==> values[j] == codeword[#[trigger] indices[j] as int]
}

/// An error of the query phase stays its result in all later rounds, and
/// nothing more is read.
pub proof fn lemma_query_rounds_error_stays<H: AlgebraicHasher>(
    domain: FriDomain,
    transcript: Seq<u8>,
    roots: Seq<Digest>,
    alphas: Seq<XFieldElement>,
    top: Seq<usize>,
    first_values: Seq<XFieldElement>,
    at: nat,
    r: nat,
    later: nat,
)
    requires
        r <= later,
        query_rounds_spec::<H>(domain, transcript, roots, alphas, top, first_values, at, r) is Err,
    ensures
        query_rounds_spec::<H>(domain, transcript, roots, alphas, top, first_values, at, later)
            == query_rounds_spec::<H>(domain, transcript, roots, alphas, top, first_values, at, r),
        behind_query_rounds_spec::<H>(
            domain,
            transcript,
            roots,
            alphas,
            top,
            first_values,
            at,
            later,
        ) == behind_query_rounds_spec::<H>(
            domain,
            transcript,
            roots,
            alphas,
            top,
            first_values,
            at,
            r,
        ),
    decreases later,
{
    if r < later {
        lemma_query_rounds_error_stays::<H>(
            domain,
            transcript,
            roots,
            alphas,
            top,
            first_values,
            at,
            r,
            (later - 1) as nat,
        );
    }
}

/// Where fewer roots cannot be read, more cannot either.
pub proof fn lemma_read_roots_fails_on<H: AlgebraicHasher>(
    transcript: Seq<u8>,
    at: nat,
    r: nat,
    later: nat,
)
    requires
        r <= later,
        read_roots_spec::<H>(transcript, at, r) is None,
    ensures
        read_roots_spec::<H>(transcript, at, later) is None,
    decreases later,
{
    if r < later {
        lemma_read_roots_fails_on::<H>(transcript, at, r, (later - 1) as nat);
    }
}

impl<H: AlgebraicHasher> Fri<H> {
    /// The domain of the last codeword: the generator and the offset
    /// squared once for each round.
    pub open spec fn last_domain_spec(self) -> FriDomain {
        FriDomain {
            offset: self.domain.offset.squared_spec(self.rounds_spec()),
            omega: self.domain.omega.squared_spec(self.rounds_spec()),
            length: self.last_length_spec() as usize,
        }
    }

    /// The coefficients of the polynomial that takes the values `last` on
    /// the domain of the last codeword.
    pub open spec fn last_polynomial_spec(self, last: Seq<XFieldElement>) -> Seq<XFieldElement> {
        Seq::new(
            last.len(),
            |k: int| self.last_domain_spec().x_interpolant_coefficient_spec(last, k as nat),
        )
    }

    /// What the verifier finds of the last codeword `last`, for which the
    /// root `root` was sent: it has the length of the last layer, else the
    /// proof is badly sized; the tree over it has the root `root`; and the
    /// polynomial that takes its values on its domain has no higher a
    /// degree than the parameters allow.
    pub open spec fn check_last_codeword_spec(self, last: Seq<XFieldElement>, root: Digest) -> Result<
        (),
        ValidationError,
    > {
        if last.len() != self.last_length_spec() {
            Err(ValidationError::BadSizedProof)
        } else if root_spec::<H>(leaf_digests_spec::<H>(last)) != root {
            Err(ValidationError::BadMerkleRootForLastCodeword)
        } else if x_degree_spec(self.last_polynomial_spec(last)) > self.last_degree_spec() {
            Err(ValidationError::LastIterationTooHighDegree)
        } else {
            Ok(())
        }
    }

    /// What the verifier makes of the proof that the transcript holds from
    /// `at` on: the error that it ends with, or the two points of each
    /// query in the first codeword and the place behind the proof.
    ///
    /// The verifier reads the roots and draws the challenges; reads the
    /// last codeword and checks it; draws the indices of the queries from
    /// what it has read; reads the opening of the first codeword at these
    /// indices; goes through the rounds; and at the end finds the values
    /// that the queries fold to in the last codeword, else the values are
    /// not colinear.
    pub open spec fn verify_spec(self, transcript: Seq<u8>, at: nat) -> Result<
        (Seq<(usize, XFieldElement)>, nat),
        ValidationError,
    > {
        let rounds = self.rounds_spec();
        let length = self.domain.length as nat;
        if !self.has_rounds() {
            Err(ValidationError::NonPositiveRoundCount)
        } else {
            match read_roots_spec::<H>(transcript, at, rounds) {
                None => Err(ValidationError::BadSizedProof),
                Some((roots, alphas, behind_roots)) => match read_codeword_spec(
                    transcript,
                    behind_roots,
                ) {
                    None => Err(ValidationError::BadSizedProof),
                    Some((last, behind_last)) => match self.check_last_codeword_spec(
                        last,
                        roots[rounds as int],
                    ) {
                        Err(error) => Err(error),
                        Ok(_) => {
                            let top = sample_indices_spec::<H>(
                                fiat_shamir_spec::<H>(transcript, behind_last),
                                length,
                                rounds,
                                self.colinearity_checks_count as nat,
                            );
                            match authenticate_spec::<H>(
                                transcript,
                                behind_last,
                                top,
                                roots[0],
                                length,
                            ) {
                                Err(error) => Err(error),
                                Ok((first_values, behind_first)) => match query_rounds_spec::<H>(
                                    self.domain,
                                    transcript,
                                    roots,
                                    alphas,
                                    top,
                                    first_values,
                                    behind_first,
                                    rounds,
                                ) {
                                    Err(error) => Err(error),
                                    Ok((a_indices, a_values, _, behind, evaluations)) => {
                                        if values_agree_spec(a_indices, a_values, last) {
                                            Ok((evaluations, behind))
                                        } else {
                                            Err(
                                                ValidationError::NotColinear(
                                                    (rounds - 1) as usize,
                                                ),
                                            )
                                        }
                                    },
                                },
                            }
                        },
                    },
                },
            }
        }
    }

    /// Where the verifier stops reading the proof that the transcript holds
    /// from `at` on: behind the proof where it reads it to its end, and
    /// else behind the last message that it read whole before it found the
    /// error.
    pub open spec fn verify_end_spec(self, transcript: Seq<u8>, at: nat) -> nat {
        let rounds = self.rounds_spec();
        let length = self.domain.length as nat;
        if !self.has_rounds() {
            at
        } else {
            match read_roots_spec::<H>(transcript, at, rounds) {
                None => behind_roots_spec(transcript, at, rounds),
                Some((roots, alphas, behind_roots)) => match read_codeword_spec(
                    transcript,
                    behind_roots,
                ) {
                    None => behind_message_spec(transcript, behind_roots),
                    Some((last, behind_last)) => match self.check_last_codeword_spec(
                        last,
                        roots[rounds as int],
                    ) {
                        Err(_) => behind_last,
                        Ok(_) => {
                            let top = sample_indices_spec::<H>(
                                fiat_shamir_spec::<H>(transcript, behind_last),
                                length,
                                rounds,
                                self.colinearity_checks_count as nat,
                            );
                            match authenticate_spec::<H>(
                                transcript,
                                behind_last,
                                top,
                                roots[0],
                                length,
                            ) {
                                Err(_) => behind_message_spec(transcript, behind_last),
                                Ok((first_values, behind_first)) => behind_query_rounds_spec::<H>(
                                    self.domain,
                                    transcript,
                                    roots,
                                    alphas,
                                    top,
                                    first_values,
                                    behind_first,
                                    rounds,
                                ),
                            }
                        },
                    },
                },
            }
        }
    }

    /// Reads the roots of the layers 0 to `rounds`, and draws the
    /// challenge of each round from what stands before the root that
    /// follows it.
    fn read_roots(proof_stream: &mut ProofStream, rounds: u8) -> (res: Option<
        (Vec<Digest>, Vec<XFieldElement>),
    >)
        ensures
            final(proof_stream).transcript == old(proof_stream).transcript,
            match read_roots_spec::<H>(
                old(proof_stream).transcript@,
                old(proof_stream).read_index as nat,
                rounds as nat,
            ) {
                Some((roots, alphas, behind)) => res matches Some((r, a)) && r@ == roots && a@
                    == alphas && final(proof_stream).read_index == behind && roots.len()
                    == rounds + 1 && alphas.len() == rounds,
                None => res is None,
            },
            final(proof_stream).read_index == behind_roots_spec(
                old(proof_stream).transcript@,
                old(proof_stream).read_index as nat,
                rounds as nat,
            ),
    {
        let ghost transcript = proof_stream.transcript@;
        let ghost at = proof_stream.read_index as nat;
        let mut roots: Vec<Digest> = Vec::new();
        let mut alphas: Vec<XFieldElement> = Vec::new();
        match proof_stream.dequeue(32) {
            Some(bytes) => {
                roots.push(Digest::from_bytes(bytes.as_slice()));
            },
            None => {
                proof {
                    lemma_read_roots_fails_on::<H>(transcript, at, 0, rounds as nat);
                    lemma_behind_roots_stays(transcript, at, 0, rounds as nat);
                }
                return None;
            },
        }
        proof {
            let first = transcript.subrange(at as int, at as int + 32);
            assert(roots@ =~= seq![Digest::from_bytes_spec(first)]);
        }
        let mut r: u8 = 0;
        while r < rounds
            invariant
                r <= rounds,
                proof_stream.transcript@ == transcript,
                proof_stream.transcript == old(proof_stream).transcript,
                at == old(proof_stream).read_index,
                proof_stream.read_index <= transcript.len(),
                roots@.len() == r + 1,
                alphas@.len() == r,
                read_roots_spec::<H>(transcript, at, r as nat) == Some(
                    (roots@, alphas@, proof_stream.read_index as nat),
                ),
            decreases rounds - r,
        {
            let challenge = proof_stream.verifier_fiat_shamir::<H>();
            let alpha = XFieldElement::sample(&challenge);
            match proof_stream.dequeue(32) {
                Some(bytes) => {
                    roots.push(Digest::from_bytes(bytes.as_slice()));
                    alphas.push(alpha);
                },
                None => {
                    proof {
                        lemma_read_roots_fails_on::<H>(
                            transcript,
                            at,
                            (r + 1) as nat,
                            rounds as nat,
                        );
                        lemma_behind_roots::<H>(transcript, at, r as nat);
                        lemma_behind_roots_stays(transcript, at, (r + 1) as nat, rounds as nat);
                    }
                    return None;
                },
            }
            r = r + 1;
        }
        proof {
            lemma_behind_roots::<H>(transcript, at, rounds as nat);
        }
        Some((roots, alphas))
    }

    /// Reads the codeword that stands behind its length.
    fn read_codeword(proof_stream: &mut ProofStream) -> (res: Option<Vec<XFieldElement>>)
        ensures
            final(proof_stream).transcript == old(proof_stream).transcript,
            match read_codeword_spec(
                old(proof_stream).transcript@,
                old(proof_stream).read_index as nat,
            ) {
                Some((values, behind)) => res matches Some(v) && v@ == values
                    && final(proof_stream).read_index == behind
                    && behind <= old(proof_stream).transcript@.len(),
                None => res is None,
            },
            final(proof_stream).read_index == behind_message_spec(
                old(proof_stream).transcript@,
                old(proof_stream).read_index as nat,
            ),
    {
        match proof_stream.dequeue_length_prepended() {
            Some(bytes) => decode_codeword(bytes.as_slice()),
            None => None,
        }
    }

    /// Checks the last codeword `last`, for which the root `root` was
    /// sent.
    fn check_last_codeword(&self, last: &Vec<XFieldElement>, root: &Digest) -> (res: Result<
        (),
        ValidationError,
    >)
        requires
            self.is_valid(),
            self.has_rounds(),
        ensures
            res == self.check_last_codeword_spec(last@, *root),
    {
        proof {
            self.lemma_rounds();
        }
        let (rounds, degree_of_last_round) = self.num_rounds();
        let last_length = halved(self.domain.length, rounds);
        if last.len() != last_length {
            return Err(ValidationError::BadSizedProof);
        }
        let digests = leaf_digests::<H>(last.as_slice());
        let tree = MerkleTree::<H>::from_digests(digests.as_slice());
        if tree.get_root() != *root {
            return Err(ValidationError::BadMerkleRootForLastCodeword);
        }
        let mut last_omega = self.domain.omega;
        let mut last_offset = self.domain.offset;
        let mut r: u8 = 0;
        while r < rounds
            invariant
                r <= rounds,
                last_omega == self.domain.omega.squared_spec(r as nat),
                last_offset == self.domain.offset.squared_spec(r as nat),
            decreases rounds - r,
        {
            last_omega = last_omega.mul(last_omega);
            last_offset = last_offset.mul(last_offset);
            r = r + 1;
        }
        let last_domain = FriDomain { offset: last_offset, omega: last_omega, length: last_length };
        let interpolant = last_domain.x_interpolate(last.as_slice());
        proof {
            assert(interpolant.coefficients@ =~= self.last_polynomial_spec(last@));
        }
        if interpolant.degree() as i64 > degree_of_last_round as i64 {
            return Err(ValidationError::LastIterationTooHighDegree);
        }
        Ok(())
    }

    /// Reads the opening of the values at `indices` of a codeword with
    /// `num_leaves` values and the root `root`, and returns the values if
    /// the opening leads to the root. The opening is read whether it does
    /// or not: the read index stands behind it, unless the transcript ends
    /// before the opening does.
    fn dequeue_and_authenticate(
        indices: &[usize],
        root: Digest,
        num_leaves: usize,
        proof_stream: &mut ProofStream,
    ) -> (res: Result<Vec<XFieldElement>, ValidationError>)
        requires
            2 * num_leaves <= usize::MAX,
        ensures
            final(proof_stream).transcript == old(proof_stream).transcript,
            match authenticate_spec::<H>(
                old(proof_stream).transcript@,
                old(proof_stream).read_index as nat,
                indices@,
                root,
                num_leaves as nat,
            ) {
                Ok((values, behind)) => res matches Ok(v) && v@ == values
                    && final(proof_stream).read_index == behind
                    && values.len() == indices@.len(),
                Err(error) => res == Err::<Vec<XFieldElement>, ValidationError>(error),
            },
            final(proof_stream).read_index == behind_message_spec(
                old(proof_stream).transcript@,
                old(proof_stream).read_index as nat,
            ),
    {
        let bytes = match proof_stream.dequeue_length_prepended() {
            Some(bytes) => bytes,
            None => {
                return Err(ValidationError::BadSizedProof);
            },
        };
        let (paths, values) = match decode_auth_pairs(bytes.as_slice()) {
            Some(decoded) => decoded,
            None => {
                return Err(ValidationError::BadSizedProof);
            },
        };
        let ghost pairs = decode_auth_pairs_spec(bytes@)->0;
        proof {
            assert(values@ =~= Seq::new(pairs.len(), |j: int| pairs[j].1));
            assert(crate::merkle_tree::paths_view(paths@) =~= Seq::new(
                pairs.len(),
                |j: int| pairs[j].0,
            ));
        }
        let digests = leaf_digests::<H>(values.as_slice());
        if MerkleTree::<H>::verify_authentication_structure(
            root,
            num_leaves,
            indices,
            paths.as_slice(),
            digests.as_slice(),
        ) {
            Ok(values)
        } else {
            Err(ValidationError::BadMerkleProof)
        }
    }

    /// For each query the value that its two values of round `round` fold
    /// to under the challenge `alpha`.
    fn colinear_values(
        &self,
        a_indices: &Vec<usize>,
        a_values: &Vec<XFieldElement>,
        b_indices: &Vec<usize>,
        b_values: &Vec<XFieldElement>,
        alpha: XFieldElement,
        round: usize,
    ) -> (res: Vec<XFieldElement>)
        requires
            round < 32,
            a_values@.len() == a_indices@.len(),
            b_indices@.len() == a_indices@.len(),
            b_values@.len() == a_indices@.len(),
            forall|j: int| 0 <= j < a_indices@.len() ==> a_indices@[j] <= u32::MAX,
            forall|j: int| 0 <= j < b_indices@.len() ==> b_indices@[j] <= u32::MAX,
        ensures
            res@ == colinear_values_spec(
                self.domain,
                a_indices@,
                a_values@,
                b_indices@,
                b_values@,
                alpha,
                round as nat,
            ),
    {
        let mut res: Vec<XFieldElement> = Vec::new();
        let mut j: usize = 0;
        while j < a_indices.len()
            invariant
                j <= a_indices@.len(),
                round < 32,
                a_values@.len() == a_indices@.len(),
                b_indices@.len() == a_indices@.len(),
                b_values@.len() == a_indices@.len(),
                forall|j: int| 0 <= j < a_indices@.len() ==> a_indices@[j] <= u32::MAX,
                forall|j: int| 0 <= j < b_indices@.len() ==> b_indices@[j] <= u32::MAX,
                res@.len() == j,
                forall|i: int|
                    0 <= i < j ==> #[trigger] res@[i] == colinear_values_spec(
                        self.domain,
                        a_indices@,
                        a_values@,
                        b_indices@,
                        b_values@,
                        alpha,
                        round as nat,
                    )[i],
            decreases a_indices@.len() - j,
        {
            let x_a = XFieldElement::lift(self.get_evaluation_argument(a_indices[j], round));
            let x_b = XFieldElement::lift(self.get_evaluation_argument(b_indices[j], round));
            res.push(
                Polynomial::<XFieldElement>::get_colinear_y(
                    (x_a, a_values[j]),
                    (x_b, b_values[j]),
                    alpha,
                ),
            );
            j = j + 1;
        }
        proof {
            assert(res@ =~= colinear_values_spec(
                self.domain,
                a_indices@,
                a_values@,
                b_indices@,
                b_values@,
                alpha,
                round as nat,
            ));
        }
        res
    }
}

impl<H: AlgebraicHasher> Fri<H> {
    /// Whether each value of `values` is the value of `codeword` at the
    /// index of `indices` in the same place.
    fn values_agree(
        indices: &Vec<usize>,
        values: &Vec<XFieldElement>,
        codeword: &Vec<XFieldElement>,
    ) -> (res: bool)
        requires
            values@.len() == indices@.len(),
            forall|j: int| 0 <= j < indices@.len() ==> #[trigger] indices@[j] < codeword@.len(),
        ensures
            res == values_agree_spec(indices@, values@, codeword@),
    {
        let mut j: usize = 0;
        while j < indices.len()
            invariant
                j <= indices@.len(),
                values@.len() == indices@.len(),
                forall|j: int| 0 <= j < indices@.len() ==> #[trigger] indices@[j] < codeword@.len(),
                forall|i: int|
                    0 <= i < j ==> values@[i] == codeword@[#[trigger] indices@[i] as int],
            decreases indices@.len() - j,
        {
            if values[j] != codeword[indices[j]] {
                return false;
            }
            j = j + 1;
        }
        true
    }

    /// Verifies the proof that the transcript holds from the read index on.
    /// A proof that is accepted is read to its end, and the two points of
    /// each query in the first codeword are returned: for each query first
    /// its own index and value, then those of the point that it is folded
    /// with. Where the proof is not accepted, the read index stands behind
    /// what was read of it.
    #[verifier::rlimit(50)]
    pub fn verify(&self, proof_stream: &mut ProofStream) -> (res: Result<
        Vec<(usize, XFieldElement)>,
        ValidationError,
    >)
        requires
            self.is_valid(),
        ensures
            final(proof_stream).transcript == old(proof_stream).transcript,
            match self.verify_spec(
                old(proof_stream).transcript@,
                old(proof_stream).read_index as nat,
            ) {
                Ok((evaluations, behind)) => res matches Ok(v) && v@ == evaluations
                    && final(proof_stream).read_index == behind,
                Err(error) => res == Err::<Vec<(usize, XFieldElement)>, ValidationError>(error),
            },
            final(proof_stream).read_index == self.verify_end_spec(
                old(proof_stream).transcript@,
                old(proof_stream).read_index as nat,
            ),
    {
        let ghost transcript = proof_stream.transcript@;
        let ghost at = proof_stream.read_index as nat;
        let ghost length = self.domain.length as nat;
        let ghost queries = self.colinearity_checks_count as nat;
        let num_rounds = match self.checked_rounds() {
            Some((rounds, _)) => rounds,
            None => {
                return Err(ValidationError::NonPositiveRoundCount);
            },
        };
        proof {
            self.lemma_rounds();
            assert(halved_spec(length, 0) == length);
        }
        let (roots, alphas) = match Self::read_roots(proof_stream, num_rounds) {
            Some(read) => read,
            None => {
                return Err(ValidationError::BadSizedProof);
            },
        };
        let ghost behind_roots = proof_stream.read_index as nat;
        let last_codeword = match Self::read_codeword(proof_stream) {
            Some(values) => values,
            None => {
                return Err(ValidationError::BadSizedProof);
            },
        };
        let ghost behind_last = proof_stream.read_index as nat;
        match self.check_last_codeword(&last_codeword, &roots[num_rounds as usize]) {
            Err(error) => {
                return Err(error);
            },
            Ok(_) => {},
        }
        let seed = proof_stream.verifier_fiat_shamir::<H>();
        let mut a_indices = self.sample_indices(&seed);
        let ghost top = a_indices@;
        let mut a_values = match Self::dequeue_and_authenticate(
            a_indices.as_slice(),
            roots[0],
            self.domain.length,
            proof_stream,
        ) {
            Ok(values) => values,
            Err(error) => {
                return Err(error);
            },
        };
        let ghost first_values = a_values@;
        let ghost behind_first = proof_stream.read_index as nat;
        let mut b_indices = slice_to_vec(a_indices.as_slice());
        let mut codeword_evaluations: Vec<(usize, XFieldElement)> = Vec::new();
        let mut current_domain_len = self.domain.length;
        let mut r: u8 = 0;
        while r < num_rounds
            invariant
                r <= num_rounds <= 32,
                self.is_valid(),
                self.has_rounds(),
                num_rounds == self.rounds_spec(),
                length == self.domain.length,
                length <= 0x1_0000_0000,
                2 * length <= usize::MAX,
                transcript == old(proof_stream).transcript@,
                at == old(proof_stream).read_index,
                proof_stream.transcript == old(proof_stream).transcript,
                read_roots_spec::<H>(transcript, at, num_rounds as nat) == Some(
                    (roots@, alphas@, behind_roots),
                ),
                roots@.len() == num_rounds + 1,
                alphas@.len() == num_rounds,
                read_codeword_spec(transcript, behind_roots) == Some((last_codeword@, behind_last)),
                self.check_last_codeword_spec(last_codeword@, roots@[num_rounds as int]) is Ok,
                top == sample_indices_spec::<H>(
                    fiat_shamir_spec::<H>(transcript, behind_last),
                    length,
                    num_rounds as nat,
                    self.colinearity_checks_count as nat,
                ),
                authenticate_spec::<H>(transcript, behind_last, top, roots@[0], length) == Ok::<
                    (Seq<XFieldElement>, nat),
                    ValidationError,
                >((first_values, behind_first)),
                forall|k: nat| k < num_rounds ==> 2 <= #[trigger] halved_spec(length, k) <= length,
                forall|k: nat|
                    k <= num_rounds ==> is_power_of_two_spec(#[trigger] halved_spec(length, k)),
                forall|k: nat| k <= num_rounds ==> 1 <= #[trigger] halved_spec(length, k) <= length,
                current_domain_len == halved_spec(length, r as nat),
                a_indices@.len() == top.len(),
                a_values@.len() == top.len(),
                b_indices@.len() == top.len(),
                forall|j: int|
                    0 <= j < a_indices@.len() ==> #[trigger] a_indices@[j] < current_domain_len,
                forall|j: int|
                    0 <= j < b_indices@.len() ==> #[trigger] b_indices@[j] < 2 * current_domain_len,
                r == 0 ==> forall|j: int|
                    0 <= j < b_indices@.len() ==> #[trigger] b_indices@[j] < current_domain_len,
                query_rounds_spec::<H>(
                    self.domain,
                    transcript,
                    roots@,
                    alphas@,
                    top,
                    first_values,
                    behind_first,
                    r as nat,
                ) == Ok::<
                    (
                        Seq<usize>,
                        Seq<XFieldElement>,
                        Seq<usize>,
                        nat,
                        Seq<(usize, XFieldElement)>,
                    ),
                    ValidationError,
                >(
                    (
                        a_indices@,
                        a_values@,
                        b_indices@,
                        proof_stream.read_index as nat,
                        codeword_evaluations@,
                    ),
                ),
                behind_query_rounds_spec::<H>(
                    self.domain,
                    transcript,
                    roots@,
                    alphas@,
                    top,
                    first_values,
                    behind_first,
                    r as nat,
                ) == proof_stream.read_index,
            decreases num_rounds - r,
        {
            let ghost b_before = b_indices@;
            let ghost a_before = a_indices@;
            proof {
                assert(is_power_of_two_spec(halved_spec(length, r as nat)));
                crate::power_of_two::lemma_half_power_of_two(current_domain_len as nat);
                if r > 0 {
                    assert(halved_spec(length, (r - 1) as nat) <= length);
                }
            }
            move_to_siblings(&mut b_indices, current_domain_len);
            let b_values = match Self::dequeue_and_authenticate(
                b_indices.as_slice(),
                roots[r as usize],
                current_domain_len,
                proof_stream,
            ) {
                Ok(values) => values,
                Err(error) => {
                    proof {
                        lemma_query_rounds_error_stays::<H>(
                            self.domain,
                            transcript,
                            roots@,
                            alphas@,
                            top,
                            first_values,
                            behind_first,
                            (r + 1) as nat,
                            num_rounds as nat,
                        );
                    }
                    return Err(error);
                },
            };
            let c_values = self.colinear_values(
                &a_indices,
                &a_values,
                &b_indices,
                &b_values,
                alphas[r as usize],
                r as usize,
            );
            if r == 0 {
                let mut s: usize = 0;
                while s < a_indices.len()
                    invariant
                        s <= a_indices@.len(),
                        a_values@.len() == a_indices@.len(),
                        b_indices@.len() == a_indices@.len(),
                        b_values@.len() == a_indices@.len(),
                        codeword_evaluations@.len() == 2 * s,
                        forall|i: int|
                            0 <= i < 2 * s ==> #[trigger] codeword_evaluations@[i]
                                == evaluations_spec(a_indices@, a_values@, b_indices@, b_values@)[i],
                    decreases a_indices@.len() - s,
                {
                    codeword_evaluations.push((a_indices[s], a_values[s]));
                    codeword_evaluations.push((b_indices[s], b_values[s]));
                    s = s + 1;
                }
                proof {
                    assert(codeword_evaluations@ =~= evaluations_spec(
                        a_indices@,
                        a_values@,
                        b_indices@,
                        b_values@,
                    ));
                }
            }
            current_domain_len = current_domain_len / 2;
            let mut j: usize = 0;
            while j < a_indices.len()
                invariant
                    j <= a_indices@.len(),
                    a_indices@.len() == a_before.len(),
                    1 <= current_domain_len,
                    forall|i: int|
                        0 <= i < j ==> #[trigger] a_indices@[i] == ((a_before[i] as int) % (
                        current_domain_len as int)) as usize,
                    forall|i: int|
                        j <= i < a_before.len() ==> #[trigger] a_indices@[i] == a_before[i],
                decreases a_indices@.len() - j,
            {
                let reduced = a_indices[j] % current_domain_len;
                a_indices.set(j, reduced);
                j = j + 1;
            }
            proof {
                assert(a_indices@ =~= reduced_indices_spec(a_before, current_domain_len as nat));
            }
            a_values = c_values;
            r = r + 1;
        }
        if !Self::values_agree(&a_indices, &a_values, &last_codeword) {
            return Err(ValidationError::NotColinear((num_rounds - 1) as usize));
        }
        Ok(codeword_evaluations)
    }

}

/// The indices into the last codeword that are chosen and those that are
/// left are together the indices from zero up to the codeword's length,
/// each once.
pub proof fn lemma_last_indices_partition<H: AlgebraicHasher>(
    seed: Digest,
    last_length: nat,
    count: nat,
)
    requires
        count <= last_length <= usize::MAX,
    ensures
        ({
            let (chosen, left) = last_indices_spec::<H>(seed, last_length, count);
            &&& chosen.len() == count
            &&& left.len() == last_length - count
            &&& (chosen + left).no_duplicates()
            &&& forall|i: int| 0 <= i < chosen.len() ==> #[trigger] chosen[i] < last_length
            &&& forall|i: int| 0 <= i < left.len() ==> #[trigger] left[i] < last_length
        }),
    decreases count,
{
    if count == 0 {
        let (chosen, left) = last_indices_spec::<H>(seed, last_length, 0);
        assert(chosen + left =~= left);
    } else {
        lemma_last_indices_partition::<H>(seed, last_length, (count - 1) as nat);
        let (before, pool) = last_indices_spec::<H>(seed, last_length, (count - 1) as nat);
        let (chosen, left) = last_indices_spec::<H>(seed, last_length, count);
        let k = sample_index_not_power_of_two_spec(
            counter_hash_spec::<H>(seed, (count - 1) as nat),
            pool.len(),
        ) as int;
        assert(0 <= k < pool.len());
        let old = before + pool;
        let new = chosen + left;
        let m = before.len() as int;
        assert forall|i: int, j: int| 0 <= i < new.len() && 0 <= j < new.len() && i != j implies new[i]
            != new[j] by {
            let oi = if i < m {
                i
            } else if i == m {
                m + k
            } else if i - m - 1 < k {
                i - 1
            } else {
                i
            };
            let oj = if j < m {
                j
            } else if j == m {
                m + k
            } else if j - m - 1 < k {
                j - 1
            } else {
                j
            };
            assert(new[i] == old[oi]);
            assert(new[j] == old[oj]);
            assert(oi != oj);
        }
    }
}

/// Doubling any number of times gives a multiple.
pub proof fn lemma_doubled_is_multiple(n: nat, r: nat)
    requires
        n > 0,
    ensures
        doubled_spec(n, r) % n == 0,
        doubled_spec(n, r) >= n,
    decreases r,
{
    if r > 0 {
        lemma_doubled_is_multiple(n, (r - 1) as nat);
        let d = doubled_spec(n, (r - 1) as nat);
        vstd::arithmetic::div_mod::lemma_add_mod_noop(d as int, d as int, n as int);
        assert(doubled_spec(n, r) == d + d);
        vstd::arithmetic::div_mod::lemma_small_mod(0, n);
    } else {
        vstd::arithmetic::div_mod::lemma_mod_self_0(n as int);
    }
}

/// A lifted index is below the length of the codeword that it was lifted
/// to, and is the index into the last codeword plus a multiple of the last
/// codeword's length.
pub proof fn lemma_lifted_index<H: AlgebraicHasher>(
    seed: Digest,
    last_length: nat,
    queries: nat,
    lifts: nat,
    j: nat,
)
    requires
        j < queries <= last_length <= usize::MAX,
    ensures
        lifted_index_spec::<H>(seed, last_length, queries, lifts, j) < doubled_spec(
            last_length,
            lifts,
        ),
        lifted_index_spec::<H>(seed, last_length, queries, lifts, j) % last_length
            == last_indices_spec::<H>(seed, last_length, queries).0[j as int],
    decreases lifts,
{
    lemma_last_indices_partition::<H>(seed, last_length, queries);
    let last = last_indices_spec::<H>(seed, last_length, queries).0[j as int];
    if lifts == 0 {
        vstd::arithmetic::div_mod::lemma_small_mod(last as nat, last_length);
    } else {
        lemma_lifted_index::<H>(seed, last_length, queries, (lifts - 1) as nat, j);
        let below = lifted_index_spec::<H>(seed, last_length, queries, (lifts - 1) as nat, j);
        let stride = doubled_spec(last_length, (lifts - 1) as nat);
        lemma_doubled_is_multiple(last_length, (lifts - 1) as nat);
        vstd::arithmetic::div_mod::lemma_add_mod_noop(
            below as int,
            stride as int,
            last_length as int,
        );
        vstd::arithmetic::div_mod::lemma_mod_twice(below as int, last_length as int);
    }
}

/// The sampler's indices belong to distinct places of the last codeword:
/// the indices into the last codeword are pairwise distinct and below its
/// length, and each index into the first codeword is below the first
/// codeword's length and falls, modulo the last codeword's length, on the
/// index into the last codeword that it was lifted from. So the indices
/// into the first codeword are pairwise distinct too.
pub proof fn lemma_sampled_indices_distinct<H: AlgebraicHasher>(
    seed: Digest,
    length: nat,
    rounds: nat,
    queries: nat,
)
    requires
        queries <= halved_spec(length, rounds),
        length <= usize::MAX,
    ensures
        ({
            let last_length = halved_spec(length, rounds);
            let last = last_indices_spec::<H>(seed, last_length, queries).0;
            let top = sample_indices_spec::<H>(seed, length, rounds, queries);
            &&& last.len() == queries
            &&& top.len() == queries
            &&& forall|i: int| 0 <= i < queries ==> #[trigger] last[i] < last_length
            &&& forall|i: int, j: int|
                0 <= i < queries && 0 <= j < queries && i != j ==> last[i] != last[j]
            &&& forall|i: int| 0 <= i < queries ==> #[trigger] top[i] < length
            &&& forall|i: int|
                0 <= i < queries ==> (#[trigger] top[i] as int) % (last_length as int) == last[i]
            &&& forall|i: int, j: int|
                0 <= i < queries && 0 <= j < queries && i != j ==> top[i] != top[j]
        }),
{
    let last_length = halved_spec(length, rounds);
    let last = last_indices_spec::<H>(seed, last_length, queries).0;
    let pool = last_indices_spec::<H>(seed, last_length, queries).1;
    let top = sample_indices_spec::<H>(seed, length, rounds, queries);
    let lifts: nat = if rounds == 0 {
        0
    } else {
        (rounds - 1) as nat
    };
    lemma_doubled_halved(length, rounds);
    lemma_doubled_grows(last_length, lifts, rounds);
    assert(last_length <= length) by {
        lemma_doubled_grows(last_length, 0, rounds);
    };
    lemma_last_indices_partition::<H>(seed, last_length, queries);
    assert forall|i: int, j: int| 0 <= i < queries && 0 <= j < queries && i != j implies last[i]
        != last[j] by {
        assert((last + pool)[i] == last[i]);
        assert((last + pool)[j] == last[j]);
    }
    assert forall|i: int| 0 <= i < queries implies #[trigger] top[i] < length && (top[i] as int) % (
    last_length as int) == last[i] by {
        lemma_lifted_index::<H>(seed, last_length, queries, lifts, i as nat);
    }
}

/// A proof is determined by what it is made from: the same parameters, the
/// same codeword and the same transcript to begin with give the same
/// indices and the same transcript, byte for byte.
pub proof fn lemma_proof_is_determined<H: AlgebraicHasher>(
    first: Fri<H>,
    second: Fri<H>,
    first_codeword: Seq<XFieldElement>,
    second_codeword: Seq<XFieldElement>,
    first_transcript: Seq<u8>,
    second_transcript: Seq<u8>,
)
    requires
        first.domain == second.domain,
        first.expansion_factor == second.expansion_factor,
        first.colinearity_checks_count == second.colinearity_checks_count,
        first_codeword == second_codeword,
        first_transcript == second_transcript,
    ensures
        top_indices_spec::<H>(
            first.domain,
            first_codeword,
            first_transcript,
            first.rounds_spec(),
            first.colinearity_checks_count as nat,
        ) == top_indices_spec::<H>(
            second.domain,
            second_codeword,
            second_transcript,
            second.rounds_spec(),
            second.colinearity_checks_count as nat,
        ),
        proof_transcript_spec::<H>(
            first.domain,
            first_codeword,
            first_transcript,
            first.rounds_spec(),
            first.colinearity_checks_count as nat,
            first.rounds_spec(),
        ) == proof_transcript_spec::<H>(
            second.domain,
            second_codeword,
            second_transcript,
            second.rounds_spec(),
            second.colinearity_checks_count as nat,
            second.rounds_spec(),
        ),
{
}

} // verus!
