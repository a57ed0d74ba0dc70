//! Folding the codeword of a polynomial gives the codeword of the folded
//! polynomial, on the domain of the squares.

use crate::b_field_element::{BFieldElement, P};
use crate::domain_laws::{lemma_two_is_unit, x_all_canonical};
use crate::fri::{fold_spec, fold_value_spec};
use crate::fri_domain::FriDomain;
use crate::polynomial::x_eval_spec;
use crate::power_of_two::lemma_half_power_of_two;
use crate::x_field_element::XFieldElement;
use crate::x_field_laws::{
    lemma_module_laws, lemma_mul_is_linear, lemma_mul_of_scaled, lemma_multiple_vanishes,
    lemma_results_are_canonical, lemma_stands_add, lemma_stands_canonical, lemma_stands_same,
    lemma_stands_scale, lemma_two_inverse,
};
use vstd::prelude::*;

verus! {

/// The coefficients of even index of `s`.
pub open spec fn evens_spec(s: Seq<XFieldElement>) -> Seq<XFieldElement> {
    Seq::new((s.len() + 1) / 2, |k: int| s[2 * k])
}

/// The coefficients of odd index of `s`, with a zero at the end where `s`
/// has one coefficient more of even index.
pub open spec fn odds_spec(s: Seq<XFieldElement>) -> Seq<XFieldElement> {
    Seq::new(
        (s.len() + 1) / 2,
        |k: int|
            if 2 * k + 1 < s.len() {
                s[2 * k + 1]
            } else {
                XFieldElement::spec_zero()
            },
    )
}

/// The coefficients of the fold of the polynomial with the coefficients
/// `s` under the challenge `alpha`: each coefficient of even index, and
/// `alpha` times the coefficient behind it.
pub open spec fn fold_polynomial_spec(s: Seq<XFieldElement>, alpha: XFieldElement) -> Seq<
    XFieldElement,
> {
    Seq::new(
        (s.len() + 1) / 2,
        |k: int| evens_spec(s)[k].add_spec(alpha.mul_spec(odds_spec(s)[k])),
    )
}

/// The value of a polynomial over the extension field is canonical.
pub proof fn lemma_x_eval_canonical(c: Seq<XFieldElement>, x: BFieldElement)
    ensures
        x_eval_spec(c, x).is_canonical(),
{
    BFieldElement::lemma_from_int(0);
    if c.len() > 0 {
        lemma_results_are_canonical(c[0], x_eval_spec(c.drop_first(), x).scale_spec(x), x);
    }
}

/// Zero in the extension field: it stays zero when multiplied, and
/// changes nothing when added.
pub proof fn lemma_x_zero(a: XFieldElement, x: BFieldElement)
    requires
        a.is_canonical(),
    ensures
        XFieldElement::spec_zero().scale_spec(x) == XFieldElement::spec_zero(),
        a.mul_spec(XFieldElement::spec_zero()) == XFieldElement::spec_zero(),
        a.add_spec(XFieldElement::spec_zero()) == a,
        XFieldElement::spec_zero().add_spec(a) == a,
        XFieldElement::spec_zero().is_canonical(),
{
    let zero = BFieldElement::spec_zero();
    BFieldElement::lemma_from_int(0);
    BFieldElement::lemma_mul_zero(x);
    BFieldElement::lemma_add_zero(a.c0);
    BFieldElement::lemma_add_zero(a.c1);
    BFieldElement::lemma_add_zero(a.c2);
    lemma_mul_of_scaled(a, zero, a);
    BFieldElement::lemma_mul_zero(a.c0);
    BFieldElement::lemma_mul_zero(a.c1);
    BFieldElement::lemma_mul_zero(a.c2);
}

/// The value of the polynomial whose coefficients are those of `e`, each
/// with `alpha` times that of `o` added: the value of `e`'s, and `alpha`
/// times the value of `o`'s.
pub proof fn lemma_x_eval_of_combination(
    e: Seq<XFieldElement>,
    o: Seq<XFieldElement>,
    alpha: XFieldElement,
    y: BFieldElement,
)
    requires
        e.len() == o.len(),
        x_all_canonical(e),
        x_all_canonical(o),
        alpha.is_canonical(),
        y.is_canonical(),
    ensures
        x_eval_spec(Seq::new(e.len(), |k: int| e[k].add_spec(alpha.mul_spec(o[k]))), y)
            == x_eval_spec(e, y).add_spec(alpha.mul_spec(x_eval_spec(o, y))),
    decreases e.len(),
{
    let s = Seq::new(e.len(), |k: int| e[k].add_spec(alpha.mul_spec(o[k])));
    let zero = XFieldElement::spec_zero();
    lemma_x_zero(alpha, y);
    lemma_x_zero(zero, y);
    if e.len() == 0 {
        assert(x_eval_spec(s, y) == zero);
        assert(x_eval_spec(o, y) == zero);
    } else {
        let er = e.drop_first();
        let or = o.drop_first();
        assert(s.drop_first() =~= Seq::new(er.len(), |k: int| er[k].add_spec(alpha.mul_spec(or[k]))));
        lemma_x_eval_of_combination(er, or, alpha, y);
        let ee = x_eval_spec(er, y);
        let eo = x_eval_spec(or, y);
        lemma_x_eval_canonical(er, y);
        lemma_x_eval_canonical(or, y);
        let ao = alpha.mul_spec(eo);
        // (e0 + alpha o0) + (ee + alpha eo) y == (e0 + ee y) + alpha (o0 + eo y)
        lemma_module_laws(ee, ao, zero, zero, y, y);
        lemma_mul_of_scaled(eo, y, alpha);
        lemma_module_laws(
            e[0],
            alpha.mul_spec(o[0]),
            ee.scale_spec(y),
            ao.scale_spec(y),
            y,
            y,
        );
        lemma_results_are_canonical(eo, eo, y);
        lemma_mul_is_linear(o[0], eo.scale_spec(y), alpha);
        assert(s[0] == e[0].add_spec(alpha.mul_spec(o[0])));
        assert(x_eval_spec(s.drop_first(), y) == ee.add_spec(ao));
        assert(ee.add_spec(ao).scale_spec(y) == ee.scale_spec(y).add_spec(ao.scale_spec(y)));
        assert(ao.scale_spec(y) == alpha.mul_spec(eo.scale_spec(y)));
        assert(x_eval_spec(s, y) == e[0].add_spec(alpha.mul_spec(o[0])).add_spec(
            ee.scale_spec(y).add_spec(ao.scale_spec(y)),
        ));
        assert(x_eval_spec(s, y) == e[0].add_spec(ee.scale_spec(y)).add_spec(
            alpha.mul_spec(o[0]).add_spec(ao.scale_spec(y)),
        ));
        assert(x_eval_spec(o, y) == o[0].add_spec(eo.scale_spec(y)));
        assert(alpha.mul_spec(o[0].add_spec(eo.scale_spec(y))) == alpha.mul_spec(o[0]).add_spec(
            alpha.mul_spec(eo.scale_spec(y)),
        ));
    }
}

/// Three steps of Horner's rule are two steps at the square, for the
/// coefficients of even and for those of odd index.
pub proof fn lemma_horner_by_squares(
    a: BFieldElement,
    b: BFieldElement,
    e: BFieldElement,
    o: BFieldElement,
    x: BFieldElement,
)
    requires
        a.is_canonical(),
        b.is_canonical(),
        e.is_canonical(),
        o.is_canonical(),
        x.is_canonical(),
    ensures
        a.add_spec(x.mul_spec(b.add_spec(x.mul_spec(e.add_spec(x.mul_spec(o)))))) == a.add_spec(
            x.mul_spec(x).mul_spec(e),
        ).add_spec(x.mul_spec(b.add_spec(x.mul_spec(x).mul_spec(o)))),
{
    let (av, bv, ev, ov, xv) = (a@, b@, e@, o@, x@);
    BFieldElement::lemma_canonical(a);
    BFieldElement::lemma_canonical(b);
    BFieldElement::lemma_canonical(e);
    BFieldElement::lemma_canonical(o);
    BFieldElement::lemma_canonical(x);
    // The left-hand side.
    BFieldElement::lemma_from_int_is_homomorphic(xv, ov);
    BFieldElement::lemma_from_int_is_homomorphic(ev, xv * ov);
    BFieldElement::lemma_from_int_is_homomorphic(xv, ev + xv * ov);
    BFieldElement::lemma_from_int_is_homomorphic(bv, xv * (ev + xv * ov));
    BFieldElement::lemma_from_int_is_homomorphic(xv, bv + xv * (ev + xv * ov));
    BFieldElement::lemma_from_int_is_homomorphic(av, xv * (bv + xv * (ev + xv * ov)));
    // The right-hand side.
    BFieldElement::lemma_from_int_is_homomorphic(xv, xv);
    BFieldElement::lemma_from_int_is_homomorphic(xv * xv, ev);
    BFieldElement::lemma_from_int_is_homomorphic(xv * xv, ov);
    BFieldElement::lemma_from_int_is_homomorphic(av, (xv * xv) * ev);
    BFieldElement::lemma_from_int_is_homomorphic(bv, (xv * xv) * ov);
    BFieldElement::lemma_from_int_is_homomorphic(xv, bv + (xv * xv) * ov);
    BFieldElement::lemma_from_int_is_homomorphic(
        av + (xv * xv) * ev,
        xv * (bv + (xv * xv) * ov),
    );
    let xo = xv * ov;
    let xx = xv * xv;
    assert(xv * (ev + xo) == xv * ev + xx * ov) by (nonlinear_arith)
        requires
            xo == xv * ov,
            xx == xv * xv,
    ;
    let inner = xv * ev + xx * ov;
    assert(xv * (bv + inner) == xv * bv + xx * ev + xv * (xx * ov)) by (nonlinear_arith)
        requires
            inner == xv * ev + xx * ov,
            xx == xv * xv,
    ;
    assert(xv * (bv + xx * ov) == xv * bv + xv * (xx * ov)) by (nonlinear_arith);
}

/// The value of a polynomial at `x`: the value at the square of `x` of
/// the polynomial of its coefficients of even index, and `x` times that
/// of the polynomial of its coefficients of odd index.
pub proof fn lemma_x_eval_even_odd(s: Seq<XFieldElement>, x: BFieldElement)
    requires
        x_all_canonical(s),
        x.is_canonical(),
    ensures
        x_eval_spec(s, x) == x_eval_spec(evens_spec(s), x.mul_spec(x)).add_spec(
            x_eval_spec(odds_spec(s), x.mul_spec(x)).scale_spec(x),
        ),
    decreases s.len(),
{
    let y = x.mul_spec(x);
    let zero = XFieldElement::spec_zero();
    BFieldElement::lemma_from_int(0);
    lemma_x_zero(zero, x);
    lemma_x_zero(zero, y);
    if s.len() == 0 {
        assert(evens_spec(s) =~= Seq::<XFieldElement>::empty());
        assert(odds_spec(s) =~= Seq::<XFieldElement>::empty());
        assert(x_eval_spec(s, x) == zero);
    } else if s.len() == 1 {
        assert(s.drop_first() =~= Seq::<XFieldElement>::empty());
        assert(evens_spec(s).drop_first() =~= Seq::<XFieldElement>::empty());
        assert(odds_spec(s).drop_first() =~= Seq::<XFieldElement>::empty());
        assert(x_eval_spec(Seq::<XFieldElement>::empty(), x) == zero);
        assert(x_eval_spec(Seq::<XFieldElement>::empty(), y) == zero);
        assert(evens_spec(s)[0] == s[0]);
        assert(odds_spec(s)[0] == zero);
        lemma_x_zero(s[0], x);
        assert(x_eval_spec(s, x) == s[0]);
        assert(x_eval_spec(evens_spec(s), y) == s[0]);
        assert(x_eval_spec(odds_spec(s), y) == zero);
    } else {
        let rest = s.drop_first().drop_first();
        assert(evens_spec(s).drop_first() =~= evens_spec(rest));
        assert(odds_spec(s).drop_first() =~= odds_spec(rest));
        assert(evens_spec(s)[0] == s[0]);
        assert(odds_spec(s)[0] == s[1]);
        assert(s.drop_first()[0] == s[1]);
        lemma_x_eval_even_odd(rest, x);
        let e = x_eval_spec(evens_spec(rest), y);
        let o = x_eval_spec(odds_spec(rest), y);
        lemma_x_eval_canonical(evens_spec(rest), y);
        lemma_x_eval_canonical(odds_spec(rest), y);
        lemma_horner_by_squares(s[0].c0, s[1].c0, e.c0, o.c0, x);
        lemma_horner_by_squares(s[0].c1, s[1].c1, e.c1, o.c1, x);
        lemma_horner_by_squares(s[0].c2, s[1].c2, e.c2, o.c2, x);
        let inner = x_eval_spec(rest, x);
        assert(inner == e.add_spec(o.scale_spec(x)));
        assert(x_eval_spec(s.drop_first(), x) == s[1].add_spec(inner.scale_spec(x)));
        assert(x_eval_spec(s, x) == s[0].add_spec(
            s[1].add_spec(inner.scale_spec(x)).scale_spec(x),
        ));
        assert(x_eval_spec(evens_spec(s), y) == s[0].add_spec(e.scale_spec(y)));
        assert(x_eval_spec(odds_spec(s), y) == s[1].add_spec(o.scale_spec(y)));
    }
}

/// What is left of the fold of `e + x o` and `e - x o`, less `e + ao`, is
/// a multiple of the modulus, where `2 hv` and `xv xiv` are one modulo the
/// modulus.
proof fn lemma_fold_less_sum(e: int, o: int, ae: int, ao: int, xv: int, xiv: int, hv: int)
    requires
        (1 - 2 * hv) % (P as int) == 0,
        (xv * xiv - 1) % (P as int) == 0,
    ensures
        (hv * (((e + xv * o) + xiv * (ae + xv * ao)) + ((e + (-xv) * o) - xiv * (ae + (-xv) * ao)))
            - (e + ao)) % (P as int) == 0,
{
    let first = (e + xv * o) + xiv * (ae + xv * ao);
    let second = (e + (-xv) * o) - xiv * (ae + (-xv) * ao);
    let xx = xiv * xv;
    assert(xiv * (ae + xv * ao) == xiv * ae + xx * ao) by (nonlinear_arith)
        requires
            xx == xiv * xv,
    ;
    assert(xiv * (ae + (-xv) * ao) == xiv * ae - xx * ao) by (nonlinear_arith)
        requires
            xx == xiv * xv,
    ;
    assert((-xv) * o == -(xv * o)) by (nonlinear_arith);
    assert(first + second == 2 * e + 2 * (xx * ao));
    let two_h = 2 * hv;
    assert(hv * (2 * e + 2 * (xx * ao)) == two_h * e + two_h * (xx * ao)) by (nonlinear_arith)
        requires
            two_h == 2 * hv,
    ;
    let one = xv * xiv;
    assert(xx == one) by (nonlinear_arith)
        requires
            xx == xiv * xv,
            one == xv * xiv,
    ;
    assert(two_h * e + two_h * (one * ao) - (e + ao) == (1 - two_h) * (-e) + (1 - two_h) * (-(one
        * ao)) + (one - 1) * ao) by (nonlinear_arith);
    lemma_multiple_vanishes(1 - 2 * hv, -e);
    lemma_multiple_vanishes(1 - 2 * hv, -(one * ao));
    lemma_multiple_vanishes(xv * xiv - 1, ao);
}

/// The fold of the values `e + x o` and `e - x o` is `e + alpha o`.
#[verifier::rlimit(50)]
pub proof fn lemma_fold_of_even_odd(
    alpha: XFieldElement,
    x: BFieldElement,
    e: XFieldElement,
    o: XFieldElement,
)
    requires
        x.is_unit(),
        x.is_canonical(),
        alpha.is_canonical(),
        e.is_canonical(),
        o.is_canonical(),
    ensures
        fold_value_spec(
            alpha,
            x.inverse_spec(),
            e.add_spec(o.scale_spec(x)),
            e.add_spec(o.scale_spec(x.neg_spec())),
        ) == e.add_spec(alpha.mul_spec(o)),
{
    let p = P as int;
    let xi = x.inverse_spec();
    let xn = x.neg_spec();
    let xv = x@;
    let xiv = xi@;
    let hv: int = 9223372034707292161;
    let h = BFieldElement::from_int(hv);
    let zero = BFieldElement::spec_zero();
    let ae = alpha.mul_spec(e);
    let ao = alpha.mul_spec(o);
    let (e0, e1, e2) = (e.c0@, e.c1@, e.c2@);
    let (o0, o1, o2) = (o.c0@, o.c1@, o.c2@);
    let (ae0, ae1, ae2) = (ae.c0@, ae.c1@, ae.c2@);
    let (ao0, ao1, ao2) = (ao.c0@, ao.c1@, ao.c2@);
    lemma_results_are_canonical(alpha, e, zero);
    lemma_results_are_canonical(alpha, o, zero);
    lemma_stands_canonical(e);
    lemma_stands_canonical(o);
    lemma_stands_canonical(ae);
    lemma_stands_canonical(ao);
    BFieldElement::lemma_canonical(x);
    BFieldElement::lemma_pow_canonical(x, (P - 2) as nat);
    BFieldElement::lemma_canonical(xi);
    BFieldElement::lemma_from_int(0);
    BFieldElement::lemma_from_int(1);
    BFieldElement::lemma_from_int(hv);
    BFieldElement::lemma_from_int(-xv);
    lemma_two_is_unit();
    lemma_two_inverse();
    BFieldElement::lemma_from_int(xv * xiv);
    assert((xv * xiv - 1) % p == 0);
    assert((1 - 2 * hv) % p == 0);
    let low = e.add_spec(o.scale_spec(x));
    let high = e.add_spec(o.scale_spec(xn));
    lemma_results_are_canonical(o, o, x);
    lemma_results_are_canonical(o, o, xn);
    lemma_results_are_canonical(e, o.scale_spec(x), zero);
    lemma_results_are_canonical(e, o.scale_spec(xn), zero);
    // alpha low == ae + ao x, and alpha high == ae + ao (-x)
    lemma_mul_is_linear(e, o.scale_spec(x), alpha);
    lemma_mul_is_linear(e, o.scale_spec(xn), alpha);
    lemma_mul_of_scaled(o, x, alpha);
    lemma_mul_of_scaled(o, xn, alpha);
    let al = ae.add_spec(ao.scale_spec(x));
    let ah = ae.add_spec(ao.scale_spec(xn));
    assert(alpha.mul_spec(low) == al);
    assert(alpha.mul_spec(high) == ah);
    // The fold.
    let one_x = XFieldElement::spec_one();
    let q = alpha.scale_spec(xi);
    lemma_results_are_canonical(alpha, alpha, xi);
    lemma_mul_is_linear(one_x, q, low);
    lemma_mul_is_linear(one_x, q, high);
    lemma_mul_of_scaled(alpha, xi, low);
    lemma_mul_of_scaled(alpha, xi, high);
    let first = low.add_spec(al.scale_spec(xi));
    let second = high.sub_spec(ah.scale_spec(xi));
    assert(one_x.add_spec(q).mul_spec(low) == first);
    assert(one_x.sub_spec(q).mul_spec(high) == second);
    lemma_results_are_canonical(first, second, zero);
    lemma_mul_of_scaled(low, h, first.add_spec(second));
    let folded = fold_value_spec(alpha, xi, low, high);
    assert(folded == first.add_spec(second).scale_spec(h));
    // What the two sides stand for.
    lemma_stands_scale(o, x, o0, o1, o2, xv);
    lemma_stands_scale(o, xn, o0, o1, o2, -xv);
    lemma_stands_add(e, o.scale_spec(x), e0, e1, e2, xv * o0, xv * o1, xv * o2);
    lemma_stands_add(e, o.scale_spec(xn), e0, e1, e2, (-xv) * o0, (-xv) * o1, (-xv) * o2);
    lemma_stands_scale(ao, x, ao0, ao1, ao2, xv);
    lemma_stands_scale(ao, xn, ao0, ao1, ao2, -xv);
    lemma_stands_add(ae, ao.scale_spec(x), ae0, ae1, ae2, xv * ao0, xv * ao1, xv * ao2);
    lemma_stands_add(
        ae,
        ao.scale_spec(xn),
        ae0,
        ae1,
        ae2,
        (-xv) * ao0,
        (-xv) * ao1,
        (-xv) * ao2,
    );
    lemma_stands_scale(al, xi, ae0 + xv * ao0, ae1 + xv * ao1, ae2 + xv * ao2, xiv);
    lemma_stands_scale(ah, xi, ae0 + (-xv) * ao0, ae1 + (-xv) * ao1, ae2 + (-xv) * ao2, xiv);
    lemma_stands_add(
        low,
        al.scale_spec(xi),
        e0 + xv * o0,
        e1 + xv * o1,
        e2 + xv * o2,
        xiv * (ae0 + xv * ao0),
        xiv * (ae1 + xv * ao1),
        xiv * (ae2 + xv * ao2),
    );
    lemma_stands_add(
        high,
        ah.scale_spec(xi),
        e0 + (-xv) * o0,
        e1 + (-xv) * o1,
        e2 + (-xv) * o2,
        xiv * (ae0 + (-xv) * ao0),
        xiv * (ae1 + (-xv) * ao1),
        xiv * (ae2 + (-xv) * ao2),
    );
    let f0 = (e0 + xv * o0) + xiv * (ae0 + xv * ao0);
    let f1 = (e1 + xv * o1) + xiv * (ae1 + xv * ao1);
    let f2 = (e2 + xv * o2) + xiv * (ae2 + xv * ao2);
    let s0 = (e0 + (-xv) * o0) - xiv * (ae0 + (-xv) * ao0);
    let s1 = (e1 + (-xv) * o1) - xiv * (ae1 + (-xv) * ao1);
    let s2 = (e2 + (-xv) * o2) - xiv * (ae2 + (-xv) * ao2);
    lemma_stands_add(first, second, f0, f1, f2, s0, s1, s2);
    lemma_stands_scale(first.add_spec(second), h, f0 + s0, f1 + s1, f2 + s2, hv);
    lemma_stands_add(e, ao, e0, e1, e2, ao0, ao1, ao2);
    lemma_fold_less_sum(e0, o0, ae0, ao0, xv, xiv, hv);
    lemma_fold_less_sum(e1, o1, ae1, ao1, xv, xiv, hv);
    lemma_fold_less_sum(e2, o2, ae2, ao2, xv, xiv, hv);
    lemma_stands_same(
        folded,
        e.add_spec(ao),
        hv * (f0 + s0),
        hv * (f1 + s1),
        hv * (f2 + s2),
        e0 + ao0,
        e1 + ao1,
        e2 + ao2,
    );
}

impl FriDomain {
    /// The domain of the squares of this domain's points: half as many.
    pub open spec fn squared_domain_spec(self) -> FriDomain {
        FriDomain {
            offset: self.offset.mul_spec(self.offset),
            omega: self.omega.mul_spec(self.omega),
            length: self.length / 2,
        }
    }

    /// The squares of the points of a coset are a coset.
    pub proof fn lemma_squared_domain_is_coset(self)
        requires
            self.is_coset(),
            self.length >= 2,
        ensures
            self.squared_domain_spec().is_coset(),
    {
        let omega = self.omega;
        let half = (self.length / 2) as nat;
        lemma_half_power_of_two(self.length as nat);
        BFieldElement::lemma_from_int(omega@ * omega@);
        BFieldElement::lemma_from_int(self.offset@ * self.offset@);
        BFieldElement::lemma_unit_product(self.offset, self.offset);
        BFieldElement::lemma_pow_double(omega, half / 2);
        if half == 1 {
            BFieldElement::lemma_pow_one(omega);
            BFieldElement::lemma_from_int_is_homomorphic(-1, -1);
        } else {
            lemma_half_power_of_two(half);
        }
    }

    /// The point half the domain further on is the negative of a point;
    /// the points are canonical units; and the squares of the points are
    /// the points of the domain of the squares.
    pub proof fn lemma_points(self, i: nat)
        requires
            self.is_coset(),
            self.length >= 2,
            i < self.length / 2,
        ensures
            self.domain_value_spec((self.length / 2) as nat + i) == self.domain_value_spec(
                i,
            ).neg_spec(),
            self.domain_value_spec(i).is_unit(),
            self.domain_value_spec(i).is_canonical(),
            self.domain_value_spec(i).neg_spec().is_canonical(),
            self.squared_domain_spec().domain_value_spec(i) == self.domain_value_spec(i).mul_spec(
                self.domain_value_spec(i),
            ),
            self.domain_value_spec(i).neg_spec().mul_spec(self.domain_value_spec(i).neg_spec())
                == self.domain_value_spec(i).mul_spec(self.domain_value_spec(i)),
    {
        let omega = self.omega;
        let g = self.offset;
        let half = (self.length / 2) as nat;
        let power = omega.pow_spec(i);
        let x = self.domain_value_spec(i);
        let minus_one = BFieldElement::spec_minus_one();
        self.lemma_generator_is_unit();
        BFieldElement::lemma_pow_is_unit(omega, i);
        BFieldElement::lemma_unit_product(power, g);
        BFieldElement::lemma_from_int(power@ * g@);
        BFieldElement::lemma_from_int(-x@);
        // The opposite point.
        BFieldElement::lemma_pow_add(omega, half, i);
        BFieldElement::lemma_mul_associative(minus_one, power, g);
        BFieldElement::lemma_neg_is_mul_minus_one(x);
        // The square.
        BFieldElement::lemma_pow_of_product(omega, omega, i);
        BFieldElement::lemma_mul_associative(power, power, g.mul_spec(g));
        BFieldElement::lemma_mul_exchange(power, g, g);
        BFieldElement::lemma_mul_associative(power, g, power.mul_spec(g));
        BFieldElement::lemma_mul_commutative(power, g);
        BFieldElement::lemma_mul_associative(g, power, g);
        assert(power.mul_spec(power).mul_spec(g.mul_spec(g)) == x.mul_spec(x)) by {
            // p (p (g g)) == p (g (p g))
            BFieldElement::lemma_mul_exchange(power, g, g);
            BFieldElement::lemma_mul_associative(power, g, g);
            BFieldElement::lemma_mul_associative(g, power, g);
        };
        // The square of the negative.
        BFieldElement::lemma_canonical(x);
        BFieldElement::lemma_from_int_sub(x@, 0);
        BFieldElement::lemma_from_int_is_homomorphic(-x@, -x@);
        BFieldElement::lemma_from_int_is_homomorphic(x@, x@);
        assert((-x@) * (-x@) == x@ * x@) by (nonlinear_arith);
    }

    /// Folding the values of a polynomial on a coset gives the values of
    /// the folded polynomial on the coset of the squares.
    #[verifier::rlimit(50)]
    pub proof fn lemma_fold_of_evaluation(self, s: Seq<XFieldElement>, alpha: XFieldElement)
        requires
            self.is_coset(),
            self.length >= 2,
            x_all_canonical(s),
            alpha.is_canonical(),
        ensures
            fold_spec(self.x_evaluate_spec(s), alpha, self.offset, self.omega)
                == self.squared_domain_spec().x_evaluate_spec(fold_polynomial_spec(s, alpha)),
            x_all_canonical(fold_polynomial_spec(s, alpha)),
    {
        let values = self.x_evaluate_spec(s);
        let folded = fold_spec(values, alpha, self.offset, self.omega);
        let squares = self.squared_domain_spec();
        let wanted = squares.x_evaluate_spec(fold_polynomial_spec(s, alpha));
        let half = (self.length / 2) as nat;
        let evens = evens_spec(s);
        let odds = odds_spec(s);
        lemma_half_power_of_two(self.length as nat);
        BFieldElement::lemma_from_int(0);
        assert(x_all_canonical(evens));
        assert(x_all_canonical(odds));
        assert forall|k: int| 0 <= k < fold_polynomial_spec(s, alpha).len() implies (
        #[trigger] fold_polynomial_spec(s, alpha)[k]).is_canonical() by {
            lemma_results_are_canonical(evens[k], alpha.mul_spec(odds[k]), alpha.c0);
        }
        assert forall|i: int| 0 <= i < half implies #[trigger] folded[i] == wanted[i] by {
            let x = self.domain_value_spec(i as nat);
            let xn = x.neg_spec();
            let y = x.mul_spec(x);
            self.lemma_points(i as nat);
            BFieldElement::lemma_from_int(x@ * x@);
            lemma_x_eval_even_odd(s, x);
            lemma_x_eval_even_odd(s, xn);
            let e = x_eval_spec(evens, y);
            let o = x_eval_spec(odds, y);
            lemma_x_eval_canonical(evens, y);
            lemma_x_eval_canonical(odds, y);
            lemma_fold_of_even_odd(alpha, x, e, o);
            assert(fold_polynomial_spec(s, alpha) =~= Seq::new(
                evens.len(),
                |k: int| evens[k].add_spec(alpha.mul_spec(odds[k])),
            ));
            lemma_x_eval_of_combination(evens, odds, alpha, y);
            assert(values[i] == x_eval_spec(s, x));
            assert(values[half + i] == x_eval_spec(s, xn));
        }
        assert(folded =~= wanted);
    }
}

} // verus!
