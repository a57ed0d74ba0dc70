//! The cubic extension of the prime field: polynomials of degree below three
//! over the prime field, taken modulo `x^3 - x + 1`.

use crate::b_field_element::BFieldElement;
use crate::digest::Digest;
use vstd::prelude::*;

verus! {

/// `c0 + c1 x + c2 x^2`.
#[derive(Clone, Copy, Debug, PartialEq, Eq, Structural, Hash)]
pub struct XFieldElement {
    pub c0: BFieldElement,
    pub c1: BFieldElement,
    pub c2: BFieldElement,
}

impl XFieldElement {
    pub open spec fn is_canonical(self) -> bool {
        self.c0.is_canonical() && self.c1.is_canonical() && self.c2.is_canonical()
    }

    pub open spec fn spec_zero() -> Self {
        Self::lift_spec(BFieldElement::spec_zero())
    }

    pub open spec fn spec_one() -> Self {
        Self::lift_spec(BFieldElement::spec_one())
    }

    /// The element of the prime field `b`, as an element of the extension.
    pub open spec fn lift_spec(b: BFieldElement) -> Self {
        XFieldElement { c0: b, c1: BFieldElement::spec_zero(), c2: BFieldElement::spec_zero() }
    }

    /// The element that a digest gives: its first three elements.
    pub open spec fn sample_spec(digest: Digest) -> Self {
        XFieldElement { c0: digest.e0, c1: digest.e1, c2: digest.e2 }
    }

    /// The three coefficients, lowest first.
    pub open spec fn sequence_spec(self) -> Seq<BFieldElement> {
        seq![self.c0, self.c1, self.c2]
    }

    pub open spec fn add_spec(self, rhs: Self) -> Self {
        XFieldElement {
            c0: self.c0.add_spec(rhs.c0),
            c1: self.c1.add_spec(rhs.c1),
            c2: self.c2.add_spec(rhs.c2),
        }
    }

    pub open spec fn sub_spec(self, rhs: Self) -> Self {
        XFieldElement {
            c0: self.c0.sub_spec(rhs.c0),
            c1: self.c1.sub_spec(rhs.c1),
            c2: self.c2.sub_spec(rhs.c2),
        }
    }

    pub open spec fn neg_spec(self) -> Self {
        XFieldElement { c0: self.c0.neg_spec(), c1: self.c1.neg_spec(), c2: self.c2.neg_spec() }
    }

    /// The product by an element of the prime field.
    pub open spec fn scale_spec(self, b: BFieldElement) -> Self {
        XFieldElement { c0: b.mul_spec(self.c0), c1: b.mul_spec(self.c1), c2: b.mul_spec(self.c2) }
    }

    /// The product of the two polynomials, reduced by `x^3 = x - 1` and
    /// `x^4 = x^2 - x`.
    pub open spec fn mul_spec(self, rhs: Self) -> Self {
        let t3 = self.c1.mul_spec(rhs.c2).add_spec(self.c2.mul_spec(rhs.c1));
        let t4 = self.c2.mul_spec(rhs.c2);
        XFieldElement {
            c0: self.c0.mul_spec(rhs.c0).sub_spec(t3),
            c1: self.c0.mul_spec(rhs.c1).add_spec(self.c1.mul_spec(rhs.c0)).add_spec(t3).sub_spec(
                t4,
            ),
            c2: self.c0.mul_spec(rhs.c2).add_spec(self.c1.mul_spec(rhs.c1)).add_spec(
                self.c2.mul_spec(rhs.c0),
            ).add_spec(t4),
        }
    }

    /// The cofactors of the first row of the matrix of the multiplication by
    /// `self`, in the basis `1, x, x^2`.
    pub open spec fn cofactors_spec(self) -> Self {
        let s = self.c0.add_spec(self.c2);
        XFieldElement {
            c0: s.mul_spec(s).sub_spec(self.c1.sub_spec(self.c2).mul_spec(self.c1)),
            c1: self.c1.sub_spec(self.c2).mul_spec(self.c2).sub_spec(self.c1.mul_spec(s)),
            c2: self.c1.mul_spec(self.c1).sub_spec(s.mul_spec(self.c2)),
        }
    }

    /// The determinant of the multiplication by `self`: its norm.
    pub open spec fn norm_spec(self) -> BFieldElement {
        let k = self.cofactors_spec();
        self.c0.mul_spec(k.c0).sub_spec(self.c2.mul_spec(k.c1)).sub_spec(self.c1.mul_spec(k.c2))
    }

    /// The cofactors over the norm: the inverse of `self` where the norm is
    /// a unit, by Cramer's rule.
    pub open spec fn inverse_spec(self) -> Self {
        self.cofactors_spec().scale_spec(self.norm_spec().inverse_spec())
    }

    pub fn new(c0: BFieldElement, c1: BFieldElement, c2: BFieldElement) -> (res: Self)
        ensures
            res == (XFieldElement { c0, c1, c2 }),
    {
        XFieldElement { c0, c1, c2 }
    }

    pub fn zero() -> (res: Self)
        ensures
            res == Self::spec_zero(),
    {
        Self::lift(BFieldElement::zero())
    }

    pub fn one() -> (res: Self)
        ensures
            res == Self::spec_one(),
    {
        Self::lift(BFieldElement::one())
    }

    pub fn lift(b: BFieldElement) -> (res: Self)
        ensures
            res == Self::lift_spec(b),
    {
        XFieldElement { c0: b, c1: BFieldElement::zero(), c2: BFieldElement::zero() }
    }

    /// The element that a digest gives: its first three elements.
    pub fn sample(digest: &Digest) -> (res: Self)
        ensures
            res == Self::sample_spec(*digest),
    {
        XFieldElement { c0: digest.e0, c1: digest.e1, c2: digest.e2 }
    }

    pub fn is_zero(&self) -> (res: bool)
        ensures
            res == (*self == Self::spec_zero()),
    {
        self.c0.is_zero() && self.c1.is_zero() && self.c2.is_zero()
    }

    /// The three coefficients, lowest first.
    pub fn to_sequence(&self) -> (res: Vec<BFieldElement>)
        ensures
            res@ == self.sequence_spec(),
    {
        let mut res: Vec<BFieldElement> = Vec::new();
        res.push(self.c0);
        res.push(self.c1);
        res.push(self.c2);
        assert(res@ =~= self.sequence_spec());
        res
    }

    pub fn add(self, rhs: Self) -> (res: Self)
        ensures
            res == self.add_spec(rhs),
    {
        XFieldElement {
            c0: self.c0.add(rhs.c0),
            c1: self.c1.add(rhs.c1),
            c2: self.c2.add(rhs.c2),
        }
    }

    pub fn sub(self, rhs: Self) -> (res: Self)
        ensures
            res == self.sub_spec(rhs),
    {
        XFieldElement {
            c0: self.c0.sub(rhs.c0),
            c1: self.c1.sub(rhs.c1),
            c2: self.c2.sub(rhs.c2),
        }
    }

    pub fn neg(self) -> (res: Self)
        ensures
            res == self.neg_spec(),
    {
        XFieldElement { c0: self.c0.neg(), c1: self.c1.neg(), c2: self.c2.neg() }
    }

    pub fn scale(self, b: BFieldElement) -> (res: Self)
        ensures
            res == self.scale_spec(b),
    {
        XFieldElement { c0: b.mul(self.c0), c1: b.mul(self.c1), c2: b.mul(self.c2) }
    }

    pub fn mul(self, rhs: Self) -> (res: Self)
        ensures
            res == self.mul_spec(rhs),
    {
        let t3 = self.c1.mul(rhs.c2).add(self.c2.mul(rhs.c1));
        let t4 = self.c2.mul(rhs.c2);
        XFieldElement {
            c0: self.c0.mul(rhs.c0).sub(t3),
            c1: self.c0.mul(rhs.c1).add(self.c1.mul(rhs.c0)).add(t3).sub(t4),
            c2: self.c0.mul(rhs.c2).add(self.c1.mul(rhs.c1)).add(self.c2.mul(rhs.c0)).add(t4),
        }
    }

    /// The multiplicative inverse where the norm is a unit, and zero for
    /// zero.
    pub fn inverse(self) -> (res: Self)
        ensures
            res == self.inverse_spec(),
    {
        let s = self.c0.add(self.c2);
        let k = XFieldElement {
            c0: s.mul(s).sub(self.c1.sub(self.c2).mul(self.c1)),
            c1: self.c1.sub(self.c2).mul(self.c2).sub(self.c1.mul(s)),
            c2: self.c1.mul(self.c1).sub(s.mul(self.c2)),
        };
        let norm = self.c0.mul(k.c0).sub(self.c2.mul(k.c1)).sub(self.c1.mul(k.c2));
        k.scale(norm.inverse())
    }
}

impl BFieldElement {
    /// This element, as an element of the extension field.
    pub fn lift(&self) -> (res: XFieldElement)
        ensures
            res == XFieldElement::lift_spec(*self),
    {
        XFieldElement::lift(*self)
    }
}

} // verus!
