//! Evaluation domains: cosets of subgroups of the prime field's
//! multiplicative group, on which polynomials are evaluated and from whose
//! values they are found again.

use crate::b_field_element::{BFieldElement, P};
use crate::ntt::{b_learn_canonical, b_ntt, x_learn_canonical, x_ntt};
use crate::polynomial::{b_eval_spec, b_horner, Polynomial, x_eval_spec, x_horner};
use crate::power_of_two::{is_power_of_two_spec, lemma_log_2_ceil_at_most, log_2_ceil_spec};
use crate::x_field_element::XFieldElement;
use vstd::arithmetic::power2::{
    lemma2_to64, lemma2_to64_rest, lemma_pow2_adds, lemma_pow2_pos, pow2,
};
use vstd::prelude::*;

verus! {

/// The coset `offset * <omega>`, where `omega` generates a subgroup of
/// order `length`.
#[derive(Debug, Clone, Copy)]
pub struct FriDomain {
    pub offset: BFieldElement,
    pub omega: BFieldElement,
    pub length: usize,
}

impl FriDomain {
    /// Whether `omega` generates a subgroup of order `length`, a power of
    /// two, and `offset` has an inverse: the power `length / 2` of `omega`
    /// is minus one, which in a field is to say that the power `length` is
    /// one and the power `length / 2` is not. The field has no subgroup of
    /// a power of two above `2^32`.
    pub open spec fn is_coset(self) -> bool {
        &&& is_power_of_two_spec(self.length as nat)
        &&& self.length <= 0x1_0000_0000
        &&& self.omega.is_canonical()
        &&& self.offset.is_canonical()
        &&& self.length == 1 ==> self.omega == BFieldElement::spec_one()
        &&& self.length >= 2 ==> self.omega.pow_spec((self.length / 2) as nat)
            == BFieldElement::spec_minus_one()
        &&& self.offset.is_unit()
    }

    /// Whether this is the coset of a subgroup of order `length`, and none
    /// of its points lies in the subgroup: the offset is no power of
    /// `omega`.
    pub open spec fn is_valid(self) -> bool {
        &&& self.is_coset()
        &&& forall|i: nat| i < self.length ==> self.offset != #[trigger] self.omega.pow_spec(i)
    }

    /// Whether `omega` generates a subgroup of order `length`, and
    /// `offset` has an inverse.
    pub fn check_coset(&self) -> (res: bool)
        ensures
            res == self.is_coset(),
    {
        let _ = self.omega.is_canonical_exec();
        let _ = self.offset.is_canonical_exec();
        proof {
            BFieldElement::lemma_from_int_congruent(P - 1, -1);
        }
        if !crate::power_of_two::is_power_of_two(self.length as u64) {
            return false;
        }
        if self.length as u64 > 0x1_0000_0000 {
            return false;
        }
        assert(self.length != 0) by {
            lemma_pow2_pos(log_2_ceil_spec(self.length as nat));
        };
        if self.length == 1 {
            if !self.omega.is_one() {
                return false;
            }
        } else {
            let half = self.omega.mod_pow((self.length / 2) as u64);
            if half != BFieldElement::new(P - 1) {
                return false;
            }
        }
        self.offset.mul(self.offset.inverse()).is_one()
    }

    /// Whether this is the coset of a subgroup of order `length`, and none
    /// of its points lies in the subgroup.
    pub fn check_valid(&self) -> (res: bool)
        ensures
            res == self.is_valid(),
    {
        if !self.check_coset() {
            return false;
        }
        let mut power = BFieldElement::one();
        let mut i: usize = 0;
        while i < self.length
            invariant
                i <= self.length,
                self.is_coset(),
                power == self.omega.pow_spec(i as nat),
                forall|k: nat| k < i ==> self.offset != #[trigger] self.omega.pow_spec(k),
            decreases self.length - i,
        {
            if self.offset == power {
                return false;
            }
            proof {
                BFieldElement::lemma_mul_commutative(power, self.omega);
            }
            power = power.mul(self.omega);
            i = i + 1;
        }
        true
    }

    /// The domain's point of index `i`: `offset * omega^i`.
    pub open spec fn domain_value_spec(self, i: nat) -> BFieldElement {
        self.omega.pow_spec(i).mul_spec(self.offset)
    }

    /// The inverse of the domain's length, as a field element.
    pub open spec fn length_inverse_spec(self) -> BFieldElement {
        BFieldElement::from_int(self.length as int).inverse_spec()
    }

    /// The coefficient of `x^k` in the polynomial of degree below `length`
    /// that takes the values `values` on the domain: the inverse transform
    /// of the values, brought back from the coset.
    pub open spec fn b_interpolant_coefficient_spec(
        self,
        values: Seq<BFieldElement>,
        k: nat,
    ) -> BFieldElement {
        self.offset.inverse_spec().pow_spec(k).mul_spec(
            self.length_inverse_spec().mul_spec(
                b_eval_spec(values, self.omega.inverse_spec().pow_spec(k)),
            ),
        )
    }

    /// The coefficient of `x^k` in the polynomial of degree below `length`
    /// that takes the values `values` on the domain.
    pub open spec fn x_interpolant_coefficient_spec(
        self,
        values: Seq<XFieldElement>,
        k: nat,
    ) -> XFieldElement {
        x_eval_spec(values, self.omega.inverse_spec().pow_spec(k)).scale_spec(
            self.length_inverse_spec(),
        ).scale_spec(self.offset.inverse_spec().pow_spec(k))
    }

    /// The values on the domain of the polynomial over the prime field
    /// with the coefficients `coefficients`.
    pub open spec fn b_evaluate_spec(self, coefficients: Seq<BFieldElement>) -> Seq<BFieldElement> {
        Seq::new(
            self.length as nat,
            |i: int| b_eval_spec(coefficients, self.domain_value_spec(i as nat)),
        )
    }

    /// The values on the domain of the polynomial over the extension field
    /// with the coefficients `coefficients`.
    pub open spec fn x_evaluate_spec(self, coefficients: Seq<XFieldElement>) -> Seq<XFieldElement> {
        Seq::new(
            self.length as nat,
            |i: int| x_eval_spec(coefficients, self.domain_value_spec(i as nat)),
        )
    }

    /// The coefficients of the polynomial of degree below `length` that
    /// takes the values `values` on the domain.
    pub open spec fn b_interpolate_spec(self, values: Seq<BFieldElement>) -> Seq<BFieldElement> {
        Seq::new(self.length as nat, |k: int| self.b_interpolant_coefficient_spec(values, k as nat))
    }

    /// The coefficients of the polynomial of degree below `length` that
    /// takes the values `values` on the domain.
    pub open spec fn x_interpolate_spec(self, values: Seq<XFieldElement>) -> Seq<XFieldElement> {
        Seq::new(self.length as nat, |k: int| self.x_interpolant_coefficient_spec(values, k as nat))
    }

    /// The values on the domain of the polynomial `polynomial`, which is
    /// over the extension field.
    pub fn x_evaluate(&self, polynomial: &Polynomial<XFieldElement>) -> (res: Vec<XFieldElement>)
        ensures
            res@ == self.x_evaluate_spec(polynomial.coefficients@),
            res@.len() == self.length,
            forall|i: int|
                0 <= i < self.length ==> #[trigger] res@[i] == x_eval_spec(
                    polynomial.coefficients@,
                    self.domain_value_spec(i as nat),
                ),
    {
        if polynomial.coefficients.len() <= self.length && self.check_coset() {
            x_learn_canonical(polynomial.coefficients.as_slice());
            return x_ntt(polynomial.coefficients.as_slice(), self);
        }
        let mut res: Vec<XFieldElement> = Vec::new();
        let mut power = BFieldElement::one();
        let mut i: usize = 0;
        while i < self.length
            invariant
                i <= self.length,
                res@.len() == i,
                power == self.omega.pow_spec(i as nat),
                forall|j: int|
                    0 <= j < i ==> #[trigger] res@[j] == x_eval_spec(
                        polynomial.coefficients@,
                        self.domain_value_spec(j as nat),
                    ),
            decreases self.length - i,
        {
            res.push(x_horner(polynomial.coefficients.as_slice(), power.mul(self.offset)));
            proof {
                BFieldElement::lemma_mul_commutative(power, self.omega);
            }
            power = power.mul(self.omega);
            i = i + 1;
        }
        proof {
            assert(res@ =~= self.x_evaluate_spec(polynomial.coefficients@));
        }
        res
    }

    /// The polynomial of degree below `length` that takes the values
    /// `values` on the domain, with all its `length` coefficients.
    pub fn x_interpolate(&self, values: &[XFieldElement]) -> (res: Polynomial<XFieldElement>)
        requires
            values@.len() == self.length,
        ensures
            res.coefficients@ == self.x_interpolate_spec(values@),
            res.coefficients@.len() == self.length,
            forall|k: int|
                0 <= k < self.length ==> #[trigger] res.coefficients@[k]
                    == self.x_interpolant_coefficient_spec(values@, k as nat),
    {
        let length_inverse = BFieldElement::new(self.length as u64).inverse();
        let omega_inverse = self.omega.inverse();
        let offset_inverse = self.offset.inverse();
        let mut coefficients: Vec<XFieldElement> = Vec::new();
        let mut point = BFieldElement::one();
        let mut shift = BFieldElement::one();
        let mut k: usize = 0;
        if self.check_coset() {
            let inverse_domain = FriDomain {
                offset: BFieldElement::one(),
                omega: omega_inverse,
                length: self.length,
            };
            proof {
                self.lemma_inverse_domain_is_coset();
            }
            x_learn_canonical(values);
            let transformed = x_ntt(values, &inverse_domain);
            while k < self.length
                invariant
                    k <= self.length,
                    self.is_coset(),
                    inverse_domain == self.inverse_domain_spec(),
                    transformed@ == inverse_domain.x_evaluate_spec(values@),
                    coefficients@.len() == k,
                    length_inverse == self.length_inverse_spec(),
                    offset_inverse == self.offset.inverse_spec(),
                    shift == offset_inverse.pow_spec(k as nat),
                    forall|j: int|
                        0 <= j < k ==> #[trigger] coefficients@[j]
                            == self.x_interpolant_coefficient_spec(values@, j as nat),
                decreases self.length - k,
            {
                proof {
                    self.lemma_inverse_domain_point(k as nat);
                    BFieldElement::lemma_mul_commutative(shift, offset_inverse);
                }
                coefficients.push(transformed[k].scale(length_inverse).scale(shift));
                shift = shift.mul(offset_inverse);
                k = k + 1;
            }
            proof {
                assert(coefficients@ =~= self.x_interpolate_spec(values@));
            }
            return Polynomial { coefficients };
        }
        while k < self.length
            invariant
                k <= self.length,
                values@.len() == self.length,
                coefficients@.len() == k,
                length_inverse == self.length_inverse_spec(),
                omega_inverse == self.omega.inverse_spec(),
                offset_inverse == self.offset.inverse_spec(),
                point == omega_inverse.pow_spec(k as nat),
                shift == offset_inverse.pow_spec(k as nat),
                forall|j: int|
                    0 <= j < k ==> #[trigger] coefficients@[j]
                        == self.x_interpolant_coefficient_spec(values@, j as nat),
            decreases self.length - k,
        {
            coefficients.push(x_horner(values, point).scale(length_inverse).scale(shift));
            proof {
                BFieldElement::lemma_mul_commutative(point, omega_inverse);
                BFieldElement::lemma_mul_commutative(shift, offset_inverse);
            }
            point = point.mul(omega_inverse);
            shift = shift.mul(offset_inverse);
            k = k + 1;
        }
        proof {
            assert(coefficients@ =~= self.x_interpolate_spec(values@));
        }
        Polynomial { coefficients }
    }

    /// The domain's point of index `index`.
    pub fn b_domain_value(&self, index: u32) -> (res: BFieldElement)
        ensures
            res == self.domain_value_spec(index as nat),
    {
        self.omega.mod_pow_u32(index).mul(self.offset)
    }

    /// All points of the domain, by index.
    pub fn b_domain_values(&self) -> (res: Vec<BFieldElement>)
        ensures
            res@.len() == self.length,
            forall|i: int|
                0 <= i < self.length ==> #[trigger] res@[i] == self.domain_value_spec(i as nat),
    {
        let mut res: Vec<BFieldElement> = Vec::new();
        let mut power = BFieldElement::one();
        let mut i: usize = 0;
        while i < self.length
            invariant
                i <= self.length,
                res@.len() == i,
                power == self.omega.pow_spec(i as nat),
                forall|j: int|
                    0 <= j < i ==> #[trigger] res@[j] == self.domain_value_spec(j as nat),
            decreases self.length - i,
        {
            res.push(power.mul(self.offset));
            proof {
                BFieldElement::lemma_mul_commutative(power, self.omega);
            }
            power = power.mul(self.omega);
            i = i + 1;
        }
        res
    }

    /// The values on the domain of the polynomial `polynomial`, which is
    /// over the prime field.
    pub fn b_evaluate(&self, polynomial: &Polynomial<BFieldElement>) -> (res: Vec<BFieldElement>)
        ensures
            res@ == self.b_evaluate_spec(polynomial.coefficients@),
            res@.len() == self.length,
            forall|i: int|
                0 <= i < self.length ==> #[trigger] res@[i] == b_eval_spec(
                    polynomial.coefficients@,
                    self.domain_value_spec(i as nat),
                ),
    {
        if polynomial.coefficients.len() <= self.length && self.check_coset() {
            b_learn_canonical(polynomial.coefficients.as_slice());
            return b_ntt(polynomial.coefficients.as_slice(), self);
        }
        let mut res: Vec<BFieldElement> = Vec::new();
        let mut power = BFieldElement::one();
        let mut i: usize = 0;
        while i < self.length
            invariant
                i <= self.length,
                res@.len() == i,
                power == self.omega.pow_spec(i as nat),
                forall|j: int|
                    0 <= j < i ==> #[trigger] res@[j] == b_eval_spec(
                        polynomial.coefficients@,
                        self.domain_value_spec(j as nat),
                    ),
            decreases self.length - i,
        {
            res.push(b_horner(polynomial.coefficients.as_slice(), power.mul(self.offset)));
            proof {
                BFieldElement::lemma_mul_commutative(power, self.omega);
            }
            power = power.mul(self.omega);
            i = i + 1;
        }
        proof {
            assert(res@ =~= self.b_evaluate_spec(polynomial.coefficients@));
        }
        res
    }

    /// The polynomial of degree below `length` that takes the values
    /// `values` on the domain, with all its `length` coefficients.
    pub fn b_interpolate(&self, values: &[BFieldElement]) -> (res: Polynomial<BFieldElement>)
        requires
            values@.len() == self.length,
        ensures
            res.coefficients@ == self.b_interpolate_spec(values@),
            res.coefficients@.len() == self.length,
            forall|k: int|
                0 <= k < self.length ==> #[trigger] res.coefficients@[k]
                    == self.b_interpolant_coefficient_spec(values@, k as nat),
    {
        let length_inverse = BFieldElement::new(self.length as u64).inverse();
        let omega_inverse = self.omega.inverse();
        let offset_inverse = self.offset.inverse();
        let mut coefficients: Vec<BFieldElement> = Vec::new();
        let mut point = BFieldElement::one();
        let mut shift = BFieldElement::one();
        let mut k: usize = 0;
        if self.check_coset() {
            let inverse_domain = FriDomain {
                offset: BFieldElement::one(),
                omega: omega_inverse,
                length: self.length,
            };
            proof {
                self.lemma_inverse_domain_is_coset();
            }
            b_learn_canonical(values);
            let transformed = b_ntt(values, &inverse_domain);
            while k < self.length
                invariant
                    k <= self.length,
                    self.is_coset(),
                    inverse_domain == self.inverse_domain_spec(),
                    transformed@ == inverse_domain.b_evaluate_spec(values@),
                    coefficients@.len() == k,
                    length_inverse == self.length_inverse_spec(),
                    offset_inverse == self.offset.inverse_spec(),
                    shift == offset_inverse.pow_spec(k as nat),
                    forall|j: int|
                        0 <= j < k ==> #[trigger] coefficients@[j]
                            == self.b_interpolant_coefficient_spec(values@, j as nat),
                decreases self.length - k,
            {
                proof {
                    self.lemma_inverse_domain_point(k as nat);
                    BFieldElement::lemma_mul_commutative(shift, offset_inverse);
                }
                coefficients.push(shift.mul(length_inverse.mul(transformed[k])));
                shift = shift.mul(offset_inverse);
                k = k + 1;
            }
            proof {
                assert(coefficients@ =~= self.b_interpolate_spec(values@));
            }
            return Polynomial { coefficients };
        }
        while k < self.length
            invariant
                k <= self.length,
                values@.len() == self.length,
                coefficients@.len() == k,
                length_inverse == self.length_inverse_spec(),
                omega_inverse == self.omega.inverse_spec(),
                offset_inverse == self.offset.inverse_spec(),
                point == omega_inverse.pow_spec(k as nat),
                shift == offset_inverse.pow_spec(k as nat),
                forall|j: int|
                    0 <= j < k ==> #[trigger] coefficients@[j]
                        == self.b_interpolant_coefficient_spec(values@, j as nat),
            decreases self.length - k,
        {
            coefficients.push(shift.mul(length_inverse.mul(b_horner(values, point))));
            proof {
                BFieldElement::lemma_mul_commutative(point, omega_inverse);
                BFieldElement::lemma_mul_commutative(shift, offset_inverse);
            }
            point = point.mul(omega_inverse);
            shift = shift.mul(offset_inverse);
            k = k + 1;
        }
        proof {
            assert(coefficients@ =~= self.b_interpolate_spec(values@));
        }
        Polynomial { coefficients }
    }
}

impl FriDomain {
    /// The subgroup itself, with the inverse of the generator for its
    /// generator: the points at which the values of a polynomial are
    /// summed up to find its coefficients.
    pub open spec fn inverse_domain_spec(self) -> FriDomain {
        FriDomain {
            offset: BFieldElement::spec_one(),
            omega: self.omega.inverse_spec(),
            length: self.length,
        }
    }

    /// The inverse of the generator of a subgroup generates the subgroup.
    pub proof fn lemma_inverse_domain_is_coset(self)
        requires
            self.is_coset(),
        ensures
            self.inverse_domain_spec().is_coset(),
    {
        let n = self.length as nat;
        let omega = self.omega;
        self.lemma_generator_is_unit();
        BFieldElement::lemma_one_is_unit();
        BFieldElement::lemma_pow_canonical(omega, (P - 2) as nat);
        lemma_pow2_pos(log_2_ceil_spec(n));
        if n == 1 {
            BFieldElement::lemma_one_pow((P - 2) as nat);
        } else {
            crate::power_of_two::lemma_half_power_of_two(n);
            let half = (n / 2) as nat;
            let most = (n - 1) as nat;
            BFieldElement::lemma_pow_pow(omega, most, half);
            BFieldElement::lemma_pow_pow(omega, half, most);
            assert(most * half == half * most) by (nonlinear_arith);
            BFieldElement::lemma_minus_one_pow(most);
        }
    }

    /// The points of the inverse domain are the powers of the inverse of
    /// the generator.
    pub proof fn lemma_inverse_domain_point(self, k: nat)
        ensures
            self.inverse_domain_spec().domain_value_spec(k) == self.omega.inverse_spec().pow_spec(
                k,
            ),
    {
        BFieldElement::lemma_pow_canonical(self.omega.inverse_spec(), k);
        BFieldElement::lemma_mul_one(self.omega.inverse_spec().pow_spec(k));
    }

    /// The generator of a coset's subgroup has the order `length`, and is
    /// a unit, whose inverse is its power `length - 1`.
    pub proof fn lemma_generator_is_unit(self)
        requires
            self.is_coset(),
        ensures
            self.omega.pow_spec(self.length as nat) == BFieldElement::spec_one(),
            self.length >= 2 ==> self.omega.pow_spec((self.length / 2) as nat)
                != BFieldElement::spec_one(),
            self.omega.is_unit(),
            self.omega.inverse_spec() == self.omega.pow_spec((self.length - 1) as nat),
    {
        BFieldElement::lemma_from_int(-1);
        BFieldElement::lemma_from_int(1);
        let n = self.length as nat;
        let omega = self.omega;
        let one = BFieldElement::spec_one();
        BFieldElement::lemma_pow_one(omega);
        if n == 1 {
            BFieldElement::lemma_one_is_unit();
            BFieldElement::lemma_one_pow((P - 2) as nat);
        } else {
            let m = log_2_ceil_spec(n);
            lemma2_to64();
            lemma2_to64_rest();
            lemma_log_2_ceil_at_most(n, 32);
            crate::power_of_two::lemma_half_power_of_two(n);
            let half = (n / 2) as nat;
            // The power `n` is the square of minus one.
            BFieldElement::lemma_pow_add(omega, half, half);
            let minus_one = BFieldElement::spec_minus_one();
            BFieldElement::lemma_from_int(-1);
            assert(minus_one.mul_spec(minus_one) == one) by {
                assert(minus_one@ == P - 1);
                assert(((P - 1) * (P - 1)) % (P as int) == 1) by (nonlinear_arith);
                BFieldElement::lemma_from_int_congruent((P - 1) * (P - 1), 1);
            };
            assert(omega.pow_spec(n) == one);
            // `P - 1` is a multiple of `n`.
            lemma_pow2_adds(m, (32 - m) as nat);
            lemma_pow2_pos((32 - m) as nat);
            let k = pow2((32 - m) as nat) * 0xffff_ffff;
            assert(n * k == P - 1) by (nonlinear_arith)
                requires
                    n * pow2((32 - m) as nat) == 0x1_0000_0000,
                    k == pow2((32 - m) as nat) * 0xffff_ffff,
            ;
            BFieldElement::lemma_pow_pow(omega, n, k);
            BFieldElement::lemma_one_pow(k);
            // The power `n - 1` is an inverse.
            BFieldElement::lemma_pow_add(omega, 1, (n - 1) as nat);
            BFieldElement::lemma_pow_canonical(omega, (n - 1) as nat);
            BFieldElement::lemma_unit_from_witness(omega, omega.pow_spec((n - 1) as nat));
        }
    }
}

} // verus!
