//! Polynomials in one variable, as the sequence of their coefficients from
//! the constant term up.

use crate::b_field_element::BFieldElement;
use crate::x_field_element::XFieldElement;
use vstd::std_specs::cmp::PartialEqSpecImpl;
use vstd::prelude::*;

verus! {

#[derive(Debug, Clone)]
pub struct Polynomial<T> {
    pub coefficients: Vec<T>,
}

/// The value at `x` of the polynomial over the prime field with the
/// coefficients `coefficients`.
pub open spec fn b_eval_spec(coefficients: Seq<BFieldElement>, x: BFieldElement) -> BFieldElement
    decreases coefficients.len(),
{
    if coefficients.len() == 0 {
        BFieldElement::spec_zero()
    } else {
        coefficients[0].add_spec(x.mul_spec(b_eval_spec(coefficients.drop_first(), x)))
    }
}

/// The value at `x`, an element of the prime field, of the polynomial over
/// the extension field with the coefficients `coefficients`.
pub open spec fn x_eval_spec(coefficients: Seq<XFieldElement>, x: BFieldElement) -> XFieldElement
    decreases coefficients.len(),
{
    if coefficients.len() == 0 {
        XFieldElement::spec_zero()
    } else {
        coefficients[0].add_spec(x_eval_spec(coefficients.drop_first(), x).scale_spec(x))
    }
}

/// The degree of the polynomial with the coefficients `coefficients`: the
/// index of its last coefficient that is not zero, and -1 if all are zero.
pub open spec fn b_degree_spec(coefficients: Seq<BFieldElement>) -> int
    decreases coefficients.len(),
{
    if coefficients.len() == 0 {
        -1
    } else if coefficients.last() != BFieldElement::spec_zero() {
        coefficients.len() - 1
    } else {
        b_degree_spec(coefficients.drop_last())
    }
}

/// The degree of the polynomial with the coefficients `coefficients`: the
/// index of its last coefficient that is not zero, and -1 if all are zero.
pub open spec fn x_degree_spec(coefficients: Seq<XFieldElement>) -> int
    decreases coefficients.len(),
{
    if coefficients.len() == 0 {
        -1
    } else if coefficients.last() != XFieldElement::spec_zero() {
        coefficients.len() - 1
    } else {
        x_degree_spec(coefficients.drop_last())
    }
}

/// Whether two coefficient sequences stand for the same polynomial: they
/// agree up to zeros at the end.
pub open spec fn b_same_polynomial_spec(a: Seq<BFieldElement>, b: Seq<BFieldElement>) -> bool {
    &&& b_degree_spec(a) == b_degree_spec(b)
    &&& forall|i: int| 0 <= i <= b_degree_spec(a) ==> a[i] == b[i]
}

/// Whether two coefficient sequences stand for the same polynomial: they
/// agree up to zeros at the end.
pub open spec fn x_same_polynomial_spec(a: Seq<XFieldElement>, b: Seq<XFieldElement>) -> bool {
    &&& x_degree_spec(a) == x_degree_spec(b)
    &&& forall|i: int| 0 <= i <= x_degree_spec(a) ==> a[i] == b[i]
}

/// The value at `x` of the line through `from` and `to`, two points with
/// an abscissa and an ordinate each. Where the two abscissas are the same,
/// this is the ordinate of `from`.
pub open spec fn colinear_y_spec(
    from: (XFieldElement, XFieldElement),
    to: (XFieldElement, XFieldElement),
    x: XFieldElement,
) -> XFieldElement {
    let dy = to.1.sub_spec(from.1);
    let dx = to.0.sub_spec(from.0);
    from.1.add_spec(x.sub_spec(from.0).mul_spec(dy).mul_spec(dx.inverse_spec()))
}

pub proof fn lemma_b_degree_bounds(coefficients: Seq<BFieldElement>)
    ensures
        -1 <= b_degree_spec(coefficients) < coefficients.len(),
        b_degree_spec(coefficients) >= 0 ==> coefficients[b_degree_spec(coefficients)]
            != BFieldElement::spec_zero(),
        forall|i: int|
            b_degree_spec(coefficients) < i < coefficients.len() ==> coefficients[i]
                == BFieldElement::spec_zero(),
    decreases coefficients.len(),
{
    if coefficients.len() > 0 {
        lemma_b_degree_bounds(coefficients.drop_last());
        assert forall|i: int|
            b_degree_spec(coefficients) < i < coefficients.len() implies coefficients[i]
            == BFieldElement::spec_zero() by {
            if i < coefficients.len() - 1 {
                assert(coefficients[i] == coefficients.drop_last()[i]);
            }
        }
    }
}

pub proof fn lemma_x_degree_bounds(coefficients: Seq<XFieldElement>)
    ensures
        -1 <= x_degree_spec(coefficients) < coefficients.len(),
        x_degree_spec(coefficients) >= 0 ==> coefficients[x_degree_spec(coefficients)]
            != XFieldElement::spec_zero(),
        forall|i: int|
            x_degree_spec(coefficients) < i < coefficients.len() ==> coefficients[i]
                == XFieldElement::spec_zero(),
    decreases coefficients.len(),
{
    if coefficients.len() > 0 {
        lemma_x_degree_bounds(coefficients.drop_last());
        assert forall|i: int|
            x_degree_spec(coefficients) < i < coefficients.len() implies coefficients[i]
            == XFieldElement::spec_zero() by {
            if i < coefficients.len() - 1 {
                assert(coefficients[i] == coefficients.drop_last()[i]);
            }
        }
    }
}

/// The value at `x` of the polynomial with the coefficients `coefficients`,
/// by Horner's rule.
pub fn b_horner(coefficients: &[BFieldElement], x: BFieldElement) -> (res: BFieldElement)
    ensures
        res == b_eval_spec(coefficients@, x),
{
    let n = coefficients.len();
    let mut acc = BFieldElement::zero();
    let mut i: usize = n;
    while i > 0
        invariant
            i <= n,
            n == coefficients@.len(),
            acc == b_eval_spec(coefficients@.subrange(i as int, n as int), x),
        decreases i,
    {
        i = i - 1;
        proof {
            let tail = coefficients@.subrange(i as int, n as int);
            assert(tail.drop_first() =~= coefficients@.subrange(i + 1, n as int));
        }
        acc = coefficients[i].add(x.mul(acc));
    }
    proof {
        assert(coefficients@.subrange(0, n as int) =~= coefficients@);
    }
    acc
}

/// The value at `x` of the polynomial with the coefficients `coefficients`,
/// by Horner's rule.
pub fn x_horner(coefficients: &[XFieldElement], x: BFieldElement) -> (res: XFieldElement)
    ensures
        res == x_eval_spec(coefficients@, x),
{
    let n = coefficients.len();
    let mut acc = XFieldElement::zero();
    let mut i: usize = n;
    while i > 0
        invariant
            i <= n,
            n == coefficients@.len(),
            acc == x_eval_spec(coefficients@.subrange(i as int, n as int), x),
        decreases i,
    {
        i = i - 1;
        proof {
            let tail = coefficients@.subrange(i as int, n as int);
            assert(tail.drop_first() =~= coefficients@.subrange(i + 1, n as int));
        }
        acc = coefficients[i].add(acc.scale(x));
    }
    proof {
        assert(coefficients@.subrange(0, n as int) =~= coefficients@);
    }
    acc
}

impl<T> Polynomial<T> {
    pub fn new(coefficients: Vec<T>) -> (res: Self)
        ensures
            res.coefficients == coefficients,
    {
        Polynomial { coefficients }
    }
}

impl Polynomial<BFieldElement> {
    /// The polynomial whose value at `x` is that of this one at
    /// `factor * x`: each coefficient times the power of `factor` that its
    /// index gives.
    pub fn scale(&self, factor: &BFieldElement) -> (res: Self)
        ensures
            res.coefficients@.len() == self.coefficients@.len(),
            forall|k: int|
                0 <= k < self.coefficients@.len() ==> #[trigger] res.coefficients@[k]
                    == factor.pow_spec(k as nat).mul_spec(self.coefficients@[k]),
    {
        let mut coefficients: Vec<BFieldElement> = Vec::new();
        let mut power = BFieldElement::one();
        let mut k: usize = 0;
        while k < self.coefficients.len()
            invariant
                k <= self.coefficients@.len(),
                coefficients@.len() == k,
                power == factor.pow_spec(k as nat),
                forall|j: int|
                    0 <= j < k ==> #[trigger] coefficients@[j] == factor.pow_spec(
                        j as nat,
                    ).mul_spec(self.coefficients@[j]),
            decreases self.coefficients@.len() - k,
        {
            coefficients.push(power.mul(self.coefficients[k]));
            proof {
                BFieldElement::lemma_mul_commutative(power, *factor);
            }
            power = power.mul(*factor);
            k = k + 1;
        }
        Polynomial { coefficients }
    }

    /// The value of the polynomial at `x`, by Horner's rule.
    pub fn evaluate(&self, x: &BFieldElement) -> (res: BFieldElement)
        ensures
            res == b_eval_spec(self.coefficients@, *x),
    {
        b_horner(self.coefficients.as_slice(), *x)
    }

    /// The number of coefficients up to the last that is not zero: the
    /// degree and one.
    pub fn significant_len(&self) -> (res: usize)
        ensures
            res == b_degree_spec(self.coefficients@) + 1,
    {
        let mut i: usize = self.coefficients.len();
        proof {
            assert(self.coefficients@.take(i as int) =~= self.coefficients@);
        }
        while i > 0
            invariant
                i <= self.coefficients@.len(),
                b_degree_spec(self.coefficients@) == b_degree_spec(
                    self.coefficients@.take(i as int),
                ),
            decreases i,
        {
            proof {
                assert(self.coefficients@.take(i as int).drop_last()
                    =~= self.coefficients@.take(i - 1));
            }
            if !self.coefficients[i - 1].is_zero() {
                return i;
            }
            i = i - 1;
        }
        0
    }

    /// The degree: the index of the last coefficient that is not zero, and
    /// -1 for the zero polynomial.
    pub fn degree(&self) -> (res: isize)
        requires
            self.coefficients@.len() <= isize::MAX,
        ensures
            res == b_degree_spec(self.coefficients@),
    {
        proof {
            lemma_b_degree_bounds(self.coefficients@);
        }
        let n = self.significant_len();
        if n == 0 {
            -1
        } else {
            (n - 1) as isize
        }
    }

    /// Whether `self` and `other` are the same polynomial, whatever zeros
    /// their coefficient vectors end in.
    pub fn equals(&self, other: &Self) -> (res: bool)
        ensures
            res == b_same_polynomial_spec(self.coefficients@, other.coefficients@),
    {
        let n = self.significant_len();
        if n != other.significant_len() {
            return false;
        }
        proof {
            lemma_b_degree_bounds(self.coefficients@);
            lemma_b_degree_bounds(other.coefficients@);
        }
        let mut i: usize = 0;
        while i < n
            invariant
                i <= n,
                n == b_degree_spec(self.coefficients@) + 1,
                n == b_degree_spec(other.coefficients@) + 1,
                n <= self.coefficients@.len(),
                n <= other.coefficients@.len(),
                forall|j: int| 0 <= j < i ==> self.coefficients@[j] == other.coefficients@[j],
            decreases n - i,
        {
            if self.coefficients[i] != other.coefficients[i] {
                return false;
            }
            i = i + 1;
        }
        true
    }
}

impl Polynomial<XFieldElement> {
    /// The polynomial whose value at `x` is that of this one at
    /// `factor * x`: each coefficient times the power of `factor` that its
    /// index gives.
    pub fn scale(&self, factor: &BFieldElement) -> (res: Self)
        ensures
            res.coefficients@.len() == self.coefficients@.len(),
            forall|k: int|
                0 <= k < self.coefficients@.len() ==> #[trigger] res.coefficients@[k]
                    == self.coefficients@[k].scale_spec(factor.pow_spec(k as nat)),
    {
        let mut coefficients: Vec<XFieldElement> = Vec::new();
        let mut power = BFieldElement::one();
        let mut k: usize = 0;
        while k < self.coefficients.len()
            invariant
                k <= self.coefficients@.len(),
                coefficients@.len() == k,
                power == factor.pow_spec(k as nat),
                forall|j: int|
                    0 <= j < k ==> #[trigger] coefficients@[j] == self.coefficients@[j].scale_spec(
                        factor.pow_spec(j as nat),
                    ),
            decreases self.coefficients@.len() - k,
        {
            coefficients.push(self.coefficients[k].scale(power));
            proof {
                BFieldElement::lemma_mul_commutative(power, *factor);
            }
            power = power.mul(*factor);
            k = k + 1;
        }
        Polynomial { coefficients }
    }

    /// The value of the polynomial at `x`, by Horner's rule.
    pub fn evaluate(&self, x: &BFieldElement) -> (res: XFieldElement)
        ensures
            res == x_eval_spec(self.coefficients@, *x),
    {
        x_horner(self.coefficients.as_slice(), *x)
    }

    /// The number of coefficients up to the last that is not zero: the
    /// degree and one.
    pub fn significant_len(&self) -> (res: usize)
        ensures
            res == x_degree_spec(self.coefficients@) + 1,
    {
        let mut i: usize = self.coefficients.len();
        proof {
            assert(self.coefficients@.take(i as int) =~= self.coefficients@);
        }
        while i > 0
            invariant
                i <= self.coefficients@.len(),
                x_degree_spec(self.coefficients@) == x_degree_spec(
                    self.coefficients@.take(i as int),
                ),
            decreases i,
        {
            proof {
                assert(self.coefficients@.take(i as int).drop_last()
                    =~= self.coefficients@.take(i - 1));
            }
            if !self.coefficients[i - 1].is_zero() {
                return i;
            }
            i = i - 1;
        }
        0
    }

    /// The degree: the index of the last coefficient that is not zero, and
    /// -1 for the zero polynomial.
    pub fn degree(&self) -> (res: isize)
        requires
            self.coefficients@.len() <= isize::MAX,
        ensures
            res == x_degree_spec(self.coefficients@),
    {
        proof {
            lemma_x_degree_bounds(self.coefficients@);
        }
        let n = self.significant_len();
        if n == 0 {
            -1
        } else {
            (n - 1) as isize
        }
    }

    /// Whether `self` and `other` are the same polynomial, whatever zeros
    /// their coefficient vectors end in.
    pub fn equals(&self, other: &Self) -> (res: bool)
        ensures
            res == x_same_polynomial_spec(self.coefficients@, other.coefficients@),
    {
        let n = self.significant_len();
        if n != other.significant_len() {
            return false;
        }
        proof {
            lemma_x_degree_bounds(self.coefficients@);
            lemma_x_degree_bounds(other.coefficients@);
        }
        let mut i: usize = 0;
        while i < n
            invariant
                i <= n,
                n == x_degree_spec(self.coefficients@) + 1,
                n == x_degree_spec(other.coefficients@) + 1,
                n <= self.coefficients@.len(),
                n <= other.coefficients@.len(),
                forall|j: int| 0 <= j < i ==> self.coefficients@[j] == other.coefficients@[j],
            decreases n - i,
        {
            if self.coefficients[i] != other.coefficients[i] {
                return false;
            }
            i = i + 1;
        }
        true
    }

    /// The value at `x` of the line through `from` and `to`.
    pub fn get_colinear_y(
        from: (XFieldElement, XFieldElement),
        to: (XFieldElement, XFieldElement),
        x: XFieldElement,
    ) -> (res: XFieldElement)
        ensures
            res == colinear_y_spec(from, to, x),
    {
        let dy = to.1.sub(from.1);
        let dx = to.0.sub(from.0);
        from.1.add(x.sub(from.0).mul(dy).mul(dx.inverse()))
    }
}

impl PartialEq for Polynomial<BFieldElement> {
    /// Whether the two are the same polynomial, whatever zeros their
    /// coefficient vectors end in.
    fn eq(&self, other: &Self) -> (res: bool) {
        self.equals(other)
    }
}

impl PartialEqSpecImpl for Polynomial<BFieldElement> {
    open spec fn obeys_eq_spec() -> bool {
        true
    }

    open spec fn eq_spec(&self, other: &Self) -> bool {
        b_same_polynomial_spec(self.coefficients@, other.coefficients@)
    }
}

impl PartialEq for Polynomial<XFieldElement> {
    /// Whether the two are the same polynomial, whatever zeros their
    /// coefficient vectors end in.
    fn eq(&self, other: &Self) -> (res: bool) {
        self.equals(other)
    }
}

impl PartialEqSpecImpl for Polynomial<XFieldElement> {
    open spec fn obeys_eq_spec() -> bool {
        true
    }

    open spec fn eq_spec(&self, other: &Self) -> bool {
        x_same_polynomial_spec(self.coefficients@, other.coefficients@)
    }
}

} // verus!
