//! The algebra of the extension field that ties the verifier's lines to
//! the prover's folds.

use crate::b_field_element::{BFieldElement, P};
use crate::domain_laws::lemma_two_is_unit;
use crate::fri::{fold_value_spec, two_inverse_spec};
use crate::polynomial::colinear_y_spec;
use crate::x_field_element::XFieldElement;
use vstd::arithmetic::div_mod::{lemma_mul_mod_noop_left, lemma_mul_mod_noop_right};
use vstd::arithmetic::mul::lemma_mul_is_associative;
use vstd::prelude::*;

verus! {

/// Whether the coefficients of `a` stand for the integers `a0`, `a1` and
/// `a2`.
pub open spec fn stands_for(a: XFieldElement, a0: int, a1: int, a2: int) -> bool {
    &&& a.c0 == BFieldElement::from_int(a0)
    &&& a.c1 == BFieldElement::from_int(a1)
    &&& a.c2 == BFieldElement::from_int(a2)
}

pub proof fn lemma_stands_canonical(a: XFieldElement)
    requires
        a.is_canonical(),
    ensures
        stands_for(a, a.c0@, a.c1@, a.c2@),
{
    BFieldElement::lemma_canonical(a.c0);
    BFieldElement::lemma_canonical(a.c1);
    BFieldElement::lemma_canonical(a.c2);
}

pub proof fn lemma_stands_add(
    a: XFieldElement,
    b: XFieldElement,
    a0: int,
    a1: int,
    a2: int,
    b0: int,
    b1: int,
    b2: int,
)
    requires
        stands_for(a, a0, a1, a2),
        stands_for(b, b0, b1, b2),
    ensures
        stands_for(a.add_spec(b), a0 + b0, a1 + b1, a2 + b2),
        stands_for(a.sub_spec(b), a0 - b0, a1 - b1, a2 - b2),
{
    BFieldElement::lemma_from_int_is_homomorphic(a0, b0);
    BFieldElement::lemma_from_int_is_homomorphic(a1, b1);
    BFieldElement::lemma_from_int_is_homomorphic(a2, b2);
    BFieldElement::lemma_from_int_sub(a0, b0);
    BFieldElement::lemma_from_int_sub(a1, b1);
    BFieldElement::lemma_from_int_sub(a2, b2);
}

pub proof fn lemma_stands_scale(a: XFieldElement, b: BFieldElement, a0: int, a1: int, a2: int, y: int)
    requires
        stands_for(a, a0, a1, a2),
        b == BFieldElement::from_int(y),
    ensures
        stands_for(a.scale_spec(b), y * a0, y * a1, y * a2),
{
    BFieldElement::lemma_from_int_is_homomorphic(y, a0);
    BFieldElement::lemma_from_int_is_homomorphic(y, a1);
    BFieldElement::lemma_from_int_is_homomorphic(y, a2);
}

#[verifier::rlimit(50)]
pub proof fn lemma_stands_mul(
    a: XFieldElement,
    b: XFieldElement,
    a0: int,
    a1: int,
    a2: int,
    b0: int,
    b1: int,
    b2: int,
)
    requires
        stands_for(a, a0, a1, a2),
        stands_for(b, b0, b1, b2),
    ensures
        stands_for(
            a.mul_spec(b),
            a0 * b0 - (a1 * b2 + a2 * b1),
            a0 * b1 + a1 * b0 + (a1 * b2 + a2 * b1) - a2 * b2,
            a0 * b2 + a1 * b1 + a2 * b0 + a2 * b2,
        ),
{
    BFieldElement::lemma_from_int_is_homomorphic(a0, b0);
    BFieldElement::lemma_from_int_is_homomorphic(a0, b1);
    BFieldElement::lemma_from_int_is_homomorphic(a0, b2);
    BFieldElement::lemma_from_int_is_homomorphic(a1, b0);
    BFieldElement::lemma_from_int_is_homomorphic(a1, b1);
    BFieldElement::lemma_from_int_is_homomorphic(a1, b2);
    BFieldElement::lemma_from_int_is_homomorphic(a2, b0);
    BFieldElement::lemma_from_int_is_homomorphic(a2, b1);
    BFieldElement::lemma_from_int_is_homomorphic(a2, b2);
    let t3 = a1 * b2 + a2 * b1;
    let t4 = a2 * b2;
    BFieldElement::lemma_from_int_is_homomorphic(a1 * b2, a2 * b1);
    BFieldElement::lemma_from_int_sub(a0 * b0, t3);
    BFieldElement::lemma_from_int_is_homomorphic(a0 * b1, a1 * b0);
    BFieldElement::lemma_from_int_is_homomorphic(a0 * b1 + a1 * b0, t3);
    BFieldElement::lemma_from_int_sub(a0 * b1 + a1 * b0 + t3, t4);
    BFieldElement::lemma_from_int_is_homomorphic(a0 * b2, a1 * b1);
    BFieldElement::lemma_from_int_is_homomorphic(a0 * b2 + a1 * b1, a2 * b0);
    BFieldElement::lemma_from_int_is_homomorphic(a0 * b2 + a1 * b1 + a2 * b0, t4);
}

/// Two elements whose coefficients stand for integers that are the same
/// modulo the modulus are the same.
pub proof fn lemma_stands_same(
    a: XFieldElement,
    b: XFieldElement,
    a0: int,
    a1: int,
    a2: int,
    b0: int,
    b1: int,
    b2: int,
)
    requires
        stands_for(a, a0, a1, a2),
        stands_for(b, b0, b1, b2),
        (a0 - b0) % (P as int) == 0,
        (a1 - b1) % (P as int) == 0,
        (a2 - b2) % (P as int) == 0,
    ensures
        a == b,
{
    BFieldElement::lemma_from_int_congruent(a0, b0);
    BFieldElement::lemma_from_int_congruent(a1, b1);
    BFieldElement::lemma_from_int_congruent(a2, b2);
}

/// The inverse of a unit of the prime field, taken in the extension field,
/// is its inverse in the prime field.
#[verifier::rlimit(50)]
pub proof fn lemma_inverse_of_lift(u: BFieldElement)
    requires
        u.is_unit(),
        u.is_canonical(),
    ensures
        XFieldElement::lift_spec(u).inverse_spec() == XFieldElement::lift_spec(u.inverse_spec()),
{
    let a = XFieldElement::lift_spec(u);
    let ui = u.inverse_spec();
    let zero = BFieldElement::spec_zero();
    let one = BFieldElement::spec_one();
    let uv = u@;
    BFieldElement::lemma_canonical(u);
    BFieldElement::lemma_from_int(0);
    BFieldElement::lemma_from_int(1);
    // The cofactors are the square of `u`, zero and zero.
    BFieldElement::lemma_from_int_is_homomorphic(uv, 0);
    let s = a.c0.add_spec(a.c2);
    assert(s == u);
    BFieldElement::lemma_from_int_is_homomorphic(uv, uv);
    BFieldElement::lemma_from_int_sub(0, 0);
    BFieldElement::lemma_from_int_is_homomorphic(0, 0);
    BFieldElement::lemma_from_int_is_homomorphic(0, uv);
    BFieldElement::lemma_from_int_sub(uv * uv, 0);
    BFieldElement::lemma_from_int_sub(0, uv * 0);
    let k = a.cofactors_spec();
    assert(k.c0 == u.mul_spec(u));
    assert(k.c1 == zero);
    assert(k.c2 == zero);
    // The norm is the cube of `u`.
    let square = u.mul_spec(u);
    let cube = u.mul_spec(square);
    BFieldElement::lemma_mul_zero(zero);
    BFieldElement::lemma_from_int(uv * square@);
    BFieldElement::lemma_canonical(cube);
    BFieldElement::lemma_from_int_sub(cube@, 0);
    assert(a.norm_spec() == cube);
    // Its inverse is the cube of the inverse of `u`.
    BFieldElement::lemma_inverse_of_product(u, u);
    BFieldElement::lemma_inverse_of_product(u, square);
    let ni = ui.mul_spec(ui.mul_spec(ui));
    assert(cube.inverse_spec() == ni);
    // (ui (ui ui)) (u u) == ui
    BFieldElement::lemma_pow_canonical(u, (P - 2) as nat);
    BFieldElement::lemma_mul_commutative(u, ui);
    BFieldElement::lemma_mul_associative(ui, ui.mul_spec(ui), square);
    BFieldElement::lemma_mul_associative(ui, ui, square);
    BFieldElement::lemma_mul_associative(ui, u, u);
    BFieldElement::lemma_mul_one(u);
    BFieldElement::lemma_mul_one(ui);
    assert(ni.mul_spec(square) == ui);
    BFieldElement::lemma_mul_zero(ni);
}

/// Half, in the extension field, is half in the prime field.
pub proof fn lemma_two_inverse()
    ensures
        two_inverse_spec() == XFieldElement::lift_spec(
            BFieldElement::from_int(9223372034707292161),
        ),
{
    lemma_two_is_unit();
    BFieldElement::lemma_from_int_is_homomorphic(1, 1);
    BFieldElement::lemma_from_int_is_homomorphic(0, 0);
    BFieldElement::lemma_from_int(2);
    lemma_inverse_of_lift(BFieldElement::from_int(2));
}

/// A multiple of a multiple of the modulus is a multiple of the modulus.
pub proof fn lemma_multiple_vanishes(a: int, b: int)
    requires
        a % (P as int) == 0,
    ensures
        (a * b) % (P as int) == 0,
        (b * a) % (P as int) == 0,
{
    lemma_mul_mod_noop_left(a, b, P as int);
    lemma_mul_mod_noop_right(b, a, P as int);
    assert(0 * b == 0);
    assert(b * 0 == 0);
}

/// The product in the extension field is linear in its first factor.
#[verifier::rlimit(50)]
pub proof fn lemma_mul_is_linear(a: XFieldElement, b: XFieldElement, c: XFieldElement)
    requires
        a.is_canonical(),
        b.is_canonical(),
        c.is_canonical(),
    ensures
        a.add_spec(b).mul_spec(c) == a.mul_spec(c).add_spec(b.mul_spec(c)),
        a.sub_spec(b).mul_spec(c) == a.mul_spec(c).sub_spec(b.mul_spec(c)),
        c.mul_spec(a.sub_spec(b)) == c.mul_spec(a).sub_spec(c.mul_spec(b)),
        c.mul_spec(a.add_spec(b)) == c.mul_spec(a).add_spec(c.mul_spec(b)),
{
    let p = P as int;
    let (a0, a1, a2) = (a.c0@, a.c1@, a.c2@);
    let (b0, b1, b2) = (b.c0@, b.c1@, b.c2@);
    let (c0, c1, c2) = (c.c0@, c.c1@, c.c2@);
    lemma_stands_canonical(a);
    lemma_stands_canonical(b);
    lemma_stands_canonical(c);
    lemma_stands_add(a, b, a0, a1, a2, b0, b1, b2);
    lemma_stands_mul(a, c, a0, a1, a2, c0, c1, c2);
    lemma_stands_mul(b, c, b0, b1, b2, c0, c1, c2);
    lemma_stands_mul(c, a, c0, c1, c2, a0, a1, a2);
    lemma_stands_mul(c, b, c0, c1, c2, b0, b1, b2);
    let (ac0, ac1, ac2) = (
        a0 * c0 - (a1 * c2 + a2 * c1),
        a0 * c1 + a1 * c0 + (a1 * c2 + a2 * c1) - a2 * c2,
        a0 * c2 + a1 * c1 + a2 * c0 + a2 * c2,
    );
    let (bc0, bc1, bc2) = (
        b0 * c0 - (b1 * c2 + b2 * c1),
        b0 * c1 + b1 * c0 + (b1 * c2 + b2 * c1) - b2 * c2,
        b0 * c2 + b1 * c1 + b2 * c0 + b2 * c2,
    );
    let (ca0, ca1, ca2) = (
        c0 * a0 - (c1 * a2 + c2 * a1),
        c0 * a1 + c1 * a0 + (c1 * a2 + c2 * a1) - c2 * a2,
        c0 * a2 + c1 * a1 + c2 * a0 + c2 * a2,
    );
    let (cb0, cb1, cb2) = (
        c0 * b0 - (c1 * b2 + c2 * b1),
        c0 * b1 + c1 * b0 + (c1 * b2 + c2 * b1) - c2 * b2,
        c0 * b2 + c1 * b1 + c2 * b0 + c2 * b2,
    );
    lemma_stands_add(a.mul_spec(c), b.mul_spec(c), ac0, ac1, ac2, bc0, bc1, bc2);
    lemma_stands_add(c.mul_spec(a), c.mul_spec(b), ca0, ca1, ca2, cb0, cb1, cb2);
    // The sum.
    let (s0, s1, s2) = (a0 + b0, a1 + b1, a2 + b2);
    lemma_stands_mul(a.add_spec(b), c, s0, s1, s2, c0, c1, c2);
    assert(s0 * c0 - (s1 * c2 + s2 * c1) == ac0 + bc0) by (nonlinear_arith)
        requires
            s0 == a0 + b0,
            s1 == a1 + b1,
            s2 == a2 + b2,
            ac0 == a0 * c0 - (a1 * c2 + a2 * c1),
            bc0 == b0 * c0 - (b1 * c2 + b2 * c1),
    ;
    assert(s0 * c1 + s1 * c0 + (s1 * c2 + s2 * c1) - s2 * c2 == ac1 + bc1) by (nonlinear_arith)
        requires
            s0 == a0 + b0,
            s1 == a1 + b1,
            s2 == a2 + b2,
            ac1 == a0 * c1 + a1 * c0 + (a1 * c2 + a2 * c1) - a2 * c2,
            bc1 == b0 * c1 + b1 * c0 + (b1 * c2 + b2 * c1) - b2 * c2,
    ;
    assert(s0 * c2 + s1 * c1 + s2 * c0 + s2 * c2 == ac2 + bc2) by (nonlinear_arith)
        requires
            s0 == a0 + b0,
            s1 == a1 + b1,
            s2 == a2 + b2,
            ac2 == a0 * c2 + a1 * c1 + a2 * c0 + a2 * c2,
            bc2 == b0 * c2 + b1 * c1 + b2 * c0 + b2 * c2,
    ;
    // The difference, as the first factor.
    let (d0, d1, d2) = (a0 - b0, a1 - b1, a2 - b2);
    lemma_stands_mul(a.sub_spec(b), c, d0, d1, d2, c0, c1, c2);
    assert(d0 * c0 - (d1 * c2 + d2 * c1) == ac0 - bc0) by (nonlinear_arith)
        requires
            d0 == a0 - b0,
            d1 == a1 - b1,
            d2 == a2 - b2,
            ac0 == a0 * c0 - (a1 * c2 + a2 * c1),
            bc0 == b0 * c0 - (b1 * c2 + b2 * c1),
    ;
    assert(d0 * c1 + d1 * c0 + (d1 * c2 + d2 * c1) - d2 * c2 == ac1 - bc1) by (nonlinear_arith)
        requires
            d0 == a0 - b0,
            d1 == a1 - b1,
            d2 == a2 - b2,
            ac1 == a0 * c1 + a1 * c0 + (a1 * c2 + a2 * c1) - a2 * c2,
            bc1 == b0 * c1 + b1 * c0 + (b1 * c2 + b2 * c1) - b2 * c2,
    ;
    assert(d0 * c2 + d1 * c1 + d2 * c0 + d2 * c2 == ac2 - bc2) by (nonlinear_arith)
        requires
            d0 == a0 - b0,
            d1 == a1 - b1,
            d2 == a2 - b2,
            ac2 == a0 * c2 + a1 * c1 + a2 * c0 + a2 * c2,
            bc2 == b0 * c2 + b1 * c1 + b2 * c0 + b2 * c2,
    ;
    // The difference, as the second factor.
    lemma_stands_mul(c, a.sub_spec(b), c0, c1, c2, d0, d1, d2);
    assert(c0 * d0 - (c1 * d2 + c2 * d1) == ca0 - cb0) by (nonlinear_arith)
        requires
            d0 == a0 - b0,
            d1 == a1 - b1,
            d2 == a2 - b2,
            ca0 == c0 * a0 - (c1 * a2 + c2 * a1),
            cb0 == c0 * b0 - (c1 * b2 + c2 * b1),
    ;
    assert(c0 * d1 + c1 * d0 + (c1 * d2 + c2 * d1) - c2 * d2 == ca1 - cb1) by (nonlinear_arith)
        requires
            d0 == a0 - b0,
            d1 == a1 - b1,
            d2 == a2 - b2,
            ca1 == c0 * a1 + c1 * a0 + (c1 * a2 + c2 * a1) - c2 * a2,
            cb1 == c0 * b1 + c1 * b0 + (c1 * b2 + c2 * b1) - c2 * b2,
    ;
    assert(c0 * d2 + c1 * d1 + c2 * d0 + c2 * d2 == ca2 - cb2) by (nonlinear_arith)
        requires
            d0 == a0 - b0,
            d1 == a1 - b1,
            d2 == a2 - b2,
            ca2 == c0 * a2 + c1 * a1 + c2 * a0 + c2 * a2,
            cb2 == c0 * b2 + c1 * b1 + c2 * b0 + c2 * b2,
    ;
    // The sum, as the second factor.
    lemma_stands_mul(c, a.add_spec(b), c0, c1, c2, s0, s1, s2);
    assert(c0 * s0 - (c1 * s2 + c2 * s1) == ca0 + cb0) by (nonlinear_arith)
        requires
            s0 == a0 + b0,
            s1 == a1 + b1,
            s2 == a2 + b2,
            ca0 == c0 * a0 - (c1 * a2 + c2 * a1),
            cb0 == c0 * b0 - (c1 * b2 + c2 * b1),
    ;
    assert(c0 * s1 + c1 * s0 + (c1 * s2 + c2 * s1) - c2 * s2 == ca1 + cb1) by (nonlinear_arith)
        requires
            s0 == a0 + b0,
            s1 == a1 + b1,
            s2 == a2 + b2,
            ca1 == c0 * a1 + c1 * a0 + (c1 * a2 + c2 * a1) - c2 * a2,
            cb1 == c0 * b1 + c1 * b0 + (c1 * b2 + c2 * b1) - c2 * b2,
    ;
    assert(c0 * s2 + c1 * s1 + c2 * s0 + c2 * s2 == ca2 + cb2) by (nonlinear_arith)
        requires
            s0 == a0 + b0,
            s1 == a1 + b1,
            s2 == a2 + b2,
            ca2 == c0 * a2 + c1 * a1 + c2 * a0 + c2 * a2,
            cb2 == c0 * b2 + c1 * b1 + c2 * b0 + c2 * b2,
    ;
}

/// A factor of the prime field can be taken out of a product in the
/// extension field, and the product by an element of the prime field is
/// the product by that element in the extension field.
#[verifier::rlimit(50)]
pub proof fn lemma_mul_of_scaled(a: XFieldElement, b: BFieldElement, c: XFieldElement)
    requires
        a.is_canonical(),
        b.is_canonical(),
        c.is_canonical(),
    ensures
        a.scale_spec(b).mul_spec(c) == a.mul_spec(c).scale_spec(b),
        c.mul_spec(a.scale_spec(b)) == c.mul_spec(a).scale_spec(b),
        XFieldElement::lift_spec(b).mul_spec(c) == c.scale_spec(b),
        c.mul_spec(XFieldElement::lift_spec(b)) == c.scale_spec(b),
        XFieldElement::spec_one().mul_spec(c) == c,
{
    let (a0, a1, a2) = (a.c0@, a.c1@, a.c2@);
    let (c0, c1, c2) = (c.c0@, c.c1@, c.c2@);
    let y = b@;
    lemma_stands_canonical(a);
    lemma_stands_canonical(c);
    BFieldElement::lemma_canonical(b);
    BFieldElement::lemma_from_int(0);
    BFieldElement::lemma_from_int(1);
    lemma_stands_scale(a, b, a0, a1, a2, y);
    lemma_stands_mul(a, c, a0, a1, a2, c0, c1, c2);
    let (ac0, ac1, ac2) = (
        a0 * c0 - (a1 * c2 + a2 * c1),
        a0 * c1 + a1 * c0 + (a1 * c2 + a2 * c1) - a2 * c2,
        a0 * c2 + a1 * c1 + a2 * c0 + a2 * c2,
    );
    lemma_stands_scale(a.mul_spec(c), b, ac0, ac1, ac2, y);
    let (s0, s1, s2) = (y * a0, y * a1, y * a2);
    lemma_stands_mul(a.scale_spec(b), c, s0, s1, s2, c0, c1, c2);
    lemma_scaled_products(y, a0, a1, a2, c0, c1, c2);
    // The scaled element as the second factor.
    lemma_stands_mul(c, a, c0, c1, c2, a0, a1, a2);
    let (ca0, ca1, ca2) = (
        c0 * a0 - (c1 * a2 + c2 * a1),
        c0 * a1 + c1 * a0 + (c1 * a2 + c2 * a1) - c2 * a2,
        c0 * a2 + c1 * a1 + c2 * a0 + c2 * a2,
    );
    lemma_stands_scale(c.mul_spec(a), b, ca0, ca1, ca2, y);
    lemma_stands_mul(c, a.scale_spec(b), c0, c1, c2, s0, s1, s2);
    lemma_products_of_scaled(y, c0, c1, c2, a0, a1, a2);
    // The products by a lifted element.
    let lifted = XFieldElement::lift_spec(b);
    assert(stands_for(lifted, y, 0, 0));
    lemma_stands_scale(c, b, c0, c1, c2, y);
    lemma_stands_mul(lifted, c, y, 0, 0, c0, c1, c2);
    lemma_stands_mul(c, lifted, c0, c1, c2, y, 0, 0);
    assert(y * c0 - (0 * c2 + 0 * c1) == y * c0);
    assert(y * c1 + 0 * c0 + (0 * c2 + 0 * c1) - 0 * c2 == y * c1);
    assert(y * c2 + 0 * c1 + 0 * c0 + 0 * c2 == y * c2);
    assert(c0 * y - (c1 * 0 + c2 * 0) == y * c0) by (nonlinear_arith);
    assert(c0 * 0 + c1 * y + (c1 * 0 + c2 * 0) - c2 * 0 == y * c1) by (nonlinear_arith);
    assert(c0 * 0 + c1 * 0 + c2 * y + c2 * 0 == y * c2) by (nonlinear_arith);
    // The product by one.
    let one = XFieldElement::spec_one();
    assert(stands_for(one, 1, 0, 0));
    lemma_stands_mul(one, c, 1, 0, 0, c0, c1, c2);
    assert(1 * c0 - (0 * c2 + 0 * c1) == c0);
    assert(1 * c1 + 0 * c0 + (0 * c2 + 0 * c1) - 0 * c2 == c1);
    assert(1 * c2 + 0 * c1 + 0 * c0 + 0 * c2 == c2);
}

/// The results of the operations of the extension field are canonical.
pub proof fn lemma_results_are_canonical(a: XFieldElement, b: XFieldElement, c: BFieldElement)
    ensures
        a.add_spec(b).is_canonical(),
        a.sub_spec(b).is_canonical(),
        a.mul_spec(b).is_canonical(),
        a.scale_spec(c).is_canonical(),
{
    BFieldElement::lemma_from_int(a.c0@ + b.c0@);
    BFieldElement::lemma_from_int(a.c1@ + b.c1@);
    BFieldElement::lemma_from_int(a.c2@ + b.c2@);
    BFieldElement::lemma_from_int(a.c0@ - b.c0@);
    BFieldElement::lemma_from_int(a.c1@ - b.c1@);
    BFieldElement::lemma_from_int(a.c2@ - b.c2@);
    BFieldElement::lemma_from_int(c@ * a.c0@);
    BFieldElement::lemma_from_int(c@ * a.c1@);
    BFieldElement::lemma_from_int(c@ * a.c2@);
    let t3 = a.c1.mul_spec(b.c2).add_spec(a.c2.mul_spec(b.c1));
    let t4 = a.c2.mul_spec(b.c2);
    BFieldElement::lemma_from_int(a.c0.mul_spec(b.c0)@ - t3@);
    BFieldElement::lemma_from_int(
        a.c0.mul_spec(b.c1).add_spec(a.c1.mul_spec(b.c0)).add_spec(t3)@ - t4@,
    );
    BFieldElement::lemma_from_int(
        a.c0.mul_spec(b.c2).add_spec(a.c1.mul_spec(b.c1)).add_spec(a.c2.mul_spec(b.c0))@ + t4@,
    );
}

/// The products of integers that the product of a scaled element of the
/// extension field is made of.
proof fn lemma_scaled_products(y: int, a0: int, a1: int, a2: int, c0: int, c1: int, c2: int)
    ensures
        (y * a0) * c0 - ((y * a1) * c2 + (y * a2) * c1) == y * (a0 * c0 - (a1 * c2 + a2 * c1)),
        (y * a0) * c1 + (y * a1) * c0 + ((y * a1) * c2 + (y * a2) * c1) - (y * a2) * c2 == y * (a0
            * c1 + a1 * c0 + (a1 * c2 + a2 * c1) - a2 * c2),
        (y * a0) * c2 + (y * a1) * c1 + (y * a2) * c0 + (y * a2) * c2 == y * (a0 * c2 + a1 * c1 + a2
            * c0 + a2 * c2),
{
    lemma_mul_is_associative(y, a0, c0);
    lemma_mul_is_associative(y, a0, c1);
    lemma_mul_is_associative(y, a0, c2);
    lemma_mul_is_associative(y, a1, c0);
    lemma_mul_is_associative(y, a1, c1);
    lemma_mul_is_associative(y, a1, c2);
    lemma_mul_is_associative(y, a2, c0);
    lemma_mul_is_associative(y, a2, c1);
    lemma_mul_is_associative(y, a2, c2);
    let (m00, m01, m02) = (a0 * c0, a0 * c1, a0 * c2);
    let (m10, m11, m12) = (a1 * c0, a1 * c1, a1 * c2);
    let (m20, m21, m22) = (a2 * c0, a2 * c1, a2 * c2);
    assert(y * (m00 - (m12 + m21)) == y * m00 - (y * m12 + y * m21)) by (nonlinear_arith);
    assert(y * (m01 + m10 + (m12 + m21) - m22) == y * m01 + y * m10 + (y * m12 + y * m21) - y
        * m22) by (nonlinear_arith);
    assert(y * (m02 + m11 + m20 + m22) == y * m02 + y * m11 + y * m20 + y * m22)
        by (nonlinear_arith);
}

/// The products of integers that the product by a scaled element of the
/// extension field is made of.
proof fn lemma_products_of_scaled(y: int, c0: int, c1: int, c2: int, a0: int, a1: int, a2: int)
    ensures
        c0 * (y * a0) - (c1 * (y * a2) + c2 * (y * a1)) == y * (c0 * a0 - (c1 * a2 + c2 * a1)),
        c0 * (y * a1) + c1 * (y * a0) + (c1 * (y * a2) + c2 * (y * a1)) - c2 * (y * a2) == y * (c0
            * a1 + c1 * a0 + (c1 * a2 + c2 * a1) - c2 * a2),
        c0 * (y * a2) + c1 * (y * a1) + c2 * (y * a0) + c2 * (y * a2) == y * (c0 * a2 + c1 * a1 + c2
            * a0 + c2 * a2),
{
    assert(c0 * (y * a0) == y * (c0 * a0)) by (nonlinear_arith);
    assert(c0 * (y * a1) == y * (c0 * a1)) by (nonlinear_arith);
    assert(c0 * (y * a2) == y * (c0 * a2)) by (nonlinear_arith);
    assert(c1 * (y * a0) == y * (c1 * a0)) by (nonlinear_arith);
    assert(c1 * (y * a1) == y * (c1 * a1)) by (nonlinear_arith);
    assert(c1 * (y * a2) == y * (c1 * a2)) by (nonlinear_arith);
    assert(c2 * (y * a0) == y * (c2 * a0)) by (nonlinear_arith);
    assert(c2 * (y * a1) == y * (c2 * a1)) by (nonlinear_arith);
    assert(c2 * (y * a2) == y * (c2 * a2)) by (nonlinear_arith);
    let (m00, m01, m02) = (c0 * a0, c0 * a1, c0 * a2);
    let (m10, m11, m12) = (c1 * a0, c1 * a1, c1 * a2);
    let (m20, m21, m22) = (c2 * a0, c2 * a1, c2 * a2);
    assert(y * (m00 - (m12 + m21)) == y * m00 - (y * m12 + y * m21)) by (nonlinear_arith);
    assert(y * (m01 + m10 + (m12 + m21) - m22) == y * m01 + y * m10 + (y * m12 + y * m21) - y
        * m22) by (nonlinear_arith);
    assert(y * (m02 + m11 + m20 + m22) == y * m02 + y * m11 + y * m20 + y * m22)
        by (nonlinear_arith);
}

/// What is left of the line from the point at `x` less the fold is a
/// multiple of the modulus: `low`, and the negative of `hv xiv` times
/// `ah - al - xv (high - low)`, less `hv` times `low + xiv al + high -
/// xiv ah`, where `2 hv` and `xv xiv` are one modulo the modulus.
proof fn lemma_first_line_less_fold(
    low: int,
    high: int,
    al: int,
    ah: int,
    xv: int,
    xiv: int,
    hv: int,
)
    requires
        (1 - 2 * hv) % (P as int) == 0,
        (xv * xiv - 1) % (P as int) == 0,
    ensures
        ((low + ((-1 * hv) * xiv) * ((ah - al) - xv * (high - low))) - hv * ((low + xiv * al) + (high
            - xiv * ah))) % (P as int) == 0,
{
    let k = hv * xiv;
    let a = ah - al;
    let d = high - low;
    let dv = (-1 * hv) * xiv;
    assert(dv == -k) by (nonlinear_arith)
        requires
            dv == (-1 * hv) * xiv,
            k == hv * xiv,
    ;
    let kxv = k * xv;
    assert(dv * (a - xv * d) == kxv * d - k * a) by (nonlinear_arith)
        requires
            dv == -k,
            kxv == k * xv,
    ;
    assert(kxv == hv * (xv * xiv)) by (nonlinear_arith)
        requires
            kxv == k * xv,
            k == hv * xiv,
    ;
    let one = xv * xiv;
    assert(hv * ((low + xiv * al) + (high - xiv * ah)) == hv * low + hv * high - k * a)
        by (nonlinear_arith)
        requires
            k == hv * xiv,
            a == ah - al,
    ;
    assert((hv * one) * d == hv * d + (one - 1) * (hv * d)) by (nonlinear_arith);
    assert(hv * low + hv * high == 2 * hv * low + hv * d) by (nonlinear_arith)
        requires
            d == high - low,
    ;
    let left = low + dv * (a - xv * d);
    let right = hv * ((low + xiv * al) + (high - xiv * ah));
    assert(left - right == (1 - 2 * hv) * low + (one - 1) * (hv * d)) by (nonlinear_arith)
        requires
            left == low + (kxv * d - k * a),
            right == 2 * hv * low + hv * d - k * a,
            kxv * d == hv * d + (one - 1) * (hv * d),
    ;
    lemma_multiple_vanishes(1 - 2 * hv, low);
    lemma_multiple_vanishes(xv * xiv - 1, hv * d);
}

/// What is left of the line from the point at `-x` less the fold is a
/// multiple of the modulus.
proof fn lemma_second_line_less_fold(
    low: int,
    high: int,
    al: int,
    ah: int,
    xv: int,
    xiv: int,
    hv: int,
)
    requires
        (1 - 2 * hv) % (P as int) == 0,
        (xv * xiv - 1) % (P as int) == 0,
    ensures
        ((high + (hv * xiv) * ((al - ah) - (-xv) * (low - high))) - hv * ((low + xiv * al) + (high
            - xiv * ah))) % (P as int) == 0,
{
    let k = hv * xiv;
    let a = ah - al;
    let d = high - low;
    let kxv = k * xv;
    assert(k * ((al - ah) - (-xv) * (low - high)) == -(kxv * d) - k * a) by (nonlinear_arith)
        requires
            kxv == k * xv,
            a == ah - al,
            d == high - low,
    ;
    assert(kxv == hv * (xv * xiv)) by (nonlinear_arith)
        requires
            kxv == k * xv,
            k == hv * xiv,
    ;
    let one = xv * xiv;
    assert(hv * ((low + xiv * al) + (high - xiv * ah)) == hv * low + hv * high - k * a)
        by (nonlinear_arith)
        requires
            k == hv * xiv,
            a == ah - al,
    ;
    assert((hv * one) * d == hv * d + (one - 1) * (hv * d)) by (nonlinear_arith);
    assert(hv * low + hv * high == 2 * hv * high - hv * d) by (nonlinear_arith)
        requires
            d == high - low,
    ;
    let left = high + k * ((al - ah) - (-xv) * (low - high));
    let right = hv * ((low + xiv * al) + (high - xiv * ah));
    assert(left - right == (1 - 2 * hv) * high + (one - 1) * (-(hv * d))) by (nonlinear_arith)
        requires
            left == high + (-(kxv * d) - k * a),
            right == 2 * hv * high - hv * d - k * a,
            kxv * d == hv * d + (one - 1) * (hv * d),
    ;
    lemma_multiple_vanishes(1 - 2 * hv, high);
    lemma_multiple_vanishes(xv * xiv - 1, -(hv * d));
}

/// The value at the challenge of the line through the points of a
/// codeword at `x` and at `-x` is the value of the fold at the square of
/// `x`, whichever of the two points comes first.
#[verifier::rlimit(50)]
pub proof fn lemma_line_is_fold(
    alpha: XFieldElement,
    x: BFieldElement,
    low: XFieldElement,
    high: XFieldElement,
)
    requires
        x.is_unit(),
        x.is_canonical(),
        alpha.is_canonical(),
        low.is_canonical(),
        high.is_canonical(),
    ensures
        colinear_y_spec(
            (XFieldElement::lift_spec(x), low),
            (XFieldElement::lift_spec(x.neg_spec()), high),
            alpha,
        ) == fold_value_spec(alpha, x.inverse_spec(), low, high),
        colinear_y_spec(
            (XFieldElement::lift_spec(x.neg_spec()), high),
            (XFieldElement::lift_spec(x), low),
            alpha,
        ) == fold_value_spec(alpha, x.inverse_spec(), low, high),
{
    let p = P as int;
    let xi = x.inverse_spec();
    let xn = x.neg_spec();
    let xv = x@;
    let xiv = xi@;
    let hv: int = 9223372034707292161;
    let h = BFieldElement::from_int(hv);
    let two = BFieldElement::from_int(2);
    let minus_one = BFieldElement::spec_minus_one();
    let zero = BFieldElement::spec_zero();
    let al = alpha.mul_spec(low);
    let ah = alpha.mul_spec(high);
    let (l0, l1, l2) = (low.c0@, low.c1@, low.c2@);
    let (h0, h1, h2) = (high.c0@, high.c1@, high.c2@);
    let (al0, al1, al2) = (al.c0@, al.c1@, al.c2@);
    let (ah0, ah1, ah2) = (ah.c0@, ah.c1@, ah.c2@);
    lemma_results_are_canonical(alpha, low, zero);
    lemma_results_are_canonical(alpha, high, zero);
    lemma_stands_canonical(low);
    lemma_stands_canonical(high);
    lemma_stands_canonical(al);
    lemma_stands_canonical(ah);
    BFieldElement::lemma_canonical(x);
    BFieldElement::lemma_pow_canonical(x, (P - 2) as nat);
    BFieldElement::lemma_canonical(xi);
    BFieldElement::lemma_from_int(0);
    BFieldElement::lemma_from_int(1);
    BFieldElement::lemma_from_int(hv);
    BFieldElement::lemma_from_int(-xv);
    lemma_two_is_unit();
    lemma_two_inverse();
    BFieldElement::lemma_minus_one_is_unit();
    BFieldElement::lemma_from_int(xv * xiv);
    assert((xv * xiv - 1) % p == 0);
    assert((1 - 2 * hv) % p == 0);

    // The fold: half of (low + (alpha low) / x) + (high - (alpha high) / x).
    let one_x = XFieldElement::spec_one();
    let q = alpha.scale_spec(xi);
    lemma_results_are_canonical(alpha, alpha, xi);
    lemma_mul_is_linear(one_x, q, low);
    lemma_mul_is_linear(one_x, q, high);
    lemma_mul_of_scaled(alpha, xi, low);
    lemma_mul_of_scaled(alpha, xi, high);
    let first = low.add_spec(al.scale_spec(xi));
    let second = high.sub_spec(ah.scale_spec(xi));
    assert(one_x.add_spec(q).mul_spec(low) == first);
    assert(one_x.sub_spec(q).mul_spec(high) == second);
    lemma_results_are_canonical(first, second, zero);
    lemma_mul_of_scaled(low, h, first.add_spec(second));
    let folded = fold_value_spec(alpha, xi, low, high);
    assert(folded == first.add_spec(second).scale_spec(h));
    lemma_stands_scale(al, xi, al0, al1, al2, xiv);
    lemma_stands_scale(ah, xi, ah0, ah1, ah2, xiv);
    lemma_stands_add(low, al.scale_spec(xi), l0, l1, l2, xiv * al0, xiv * al1, xiv * al2);
    lemma_stands_add(high, ah.scale_spec(xi), h0, h1, h2, xiv * ah0, xiv * ah1, xiv * ah2);
    lemma_stands_add(
        first,
        second,
        l0 + xiv * al0,
        l1 + xiv * al1,
        l2 + xiv * al2,
        h0 - xiv * ah0,
        h1 - xiv * ah1,
        h2 - xiv * ah2,
    );
    lemma_stands_scale(
        first.add_spec(second),
        h,
        (l0 + xiv * al0) + (h0 - xiv * ah0),
        (l1 + xiv * al1) + (h1 - xiv * ah1),
        (l2 + xiv * al2) + (h2 - xiv * ah2),
        hv,
    );
    let r0 = hv * ((l0 + xiv * al0) + (h0 - xiv * ah0));
    let r1 = hv * ((l1 + xiv * al1) + (h1 - xiv * ah1));
    let r2 = hv * ((l2 + xiv * al2) + (h2 - xiv * ah2));
    assert(stands_for(folded, r0, r1, r2));

    // The first line: from the point at x to the point at -x.
    {
        let from = XFieldElement::lift_spec(x);
        let to = XFieldElement::lift_spec(xn);
        let m = minus_one.mul_spec(two).mul_spec(x);
        BFieldElement::lemma_from_int_is_homomorphic(-1, 2);
        BFieldElement::lemma_from_int_is_homomorphic(-1 * 2, xv);
        BFieldElement::lemma_from_int_sub(-xv, xv);
        BFieldElement::lemma_from_int_sub(0, 0);
        BFieldElement::lemma_from_int_congruent(-xv - xv, (-1 * 2) * xv);
        let dx = to.sub_spec(from);
        assert(dx == XFieldElement::lift_spec(m));
        BFieldElement::lemma_unit_product(minus_one, two);
        BFieldElement::lemma_unit_product(minus_one.mul_spec(two), x);
        BFieldElement::lemma_inverse_of_product(minus_one, two);
        BFieldElement::lemma_inverse_of_product(minus_one.mul_spec(two), x);
        BFieldElement::lemma_from_int((-1 * 2) * xv);
        lemma_inverse_of_lift(m);
        let d = minus_one.mul_spec(h).mul_spec(xi);
        BFieldElement::lemma_from_int_is_homomorphic(-1, hv);
        BFieldElement::lemma_from_int_is_homomorphic(-1 * hv, xiv);
        let dv = (-1 * hv) * xiv;
        BFieldElement::lemma_from_int(dv);
        assert(dx.inverse_spec() == XFieldElement::lift_spec(d));
        let delta = high.sub_spec(low);
        lemma_results_are_canonical(high, low, zero);
        lemma_mul_is_linear(alpha, from, delta);
        lemma_mul_of_scaled(alpha, x, delta);
        lemma_mul_is_linear(high, low, alpha);
        let t = ah.sub_spec(al).sub_spec(delta.scale_spec(x));
        assert(alpha.sub_spec(from).mul_spec(delta) == t);
        lemma_results_are_canonical(ah.sub_spec(al), delta.scale_spec(x), zero);
        lemma_mul_of_scaled(t, d, t);
        let line = colinear_y_spec((from, low), (to, high), alpha);
        assert(line == low.add_spec(t.scale_spec(d)));
        lemma_stands_add(ah, al, ah0, ah1, ah2, al0, al1, al2);
        lemma_stands_add(high, low, h0, h1, h2, l0, l1, l2);
        lemma_stands_scale(delta, x, h0 - l0, h1 - l1, h2 - l2, xv);
        lemma_stands_add(
            ah.sub_spec(al),
            delta.scale_spec(x),
            ah0 - al0,
            ah1 - al1,
            ah2 - al2,
            xv * (h0 - l0),
            xv * (h1 - l1),
            xv * (h2 - l2),
        );
        lemma_stands_scale(
            t,
            d,
            (ah0 - al0) - xv * (h0 - l0),
            (ah1 - al1) - xv * (h1 - l1),
            (ah2 - al2) - xv * (h2 - l2),
            dv,
        );
        let w0 = dv * ((ah0 - al0) - xv * (h0 - l0));
        let w1 = dv * ((ah1 - al1) - xv * (h1 - l1));
        let w2 = dv * ((ah2 - al2) - xv * (h2 - l2));
        lemma_stands_add(low, t.scale_spec(d), l0, l1, l2, w0, w1, w2);
        lemma_first_line_less_fold(l0, h0, al0, ah0, xv, xiv, hv);
        lemma_first_line_less_fold(l1, h1, al1, ah1, xv, xiv, hv);
        lemma_first_line_less_fold(l2, h2, al2, ah2, xv, xiv, hv);
        lemma_stands_same(line, folded, l0 + w0, l1 + w1, l2 + w2, r0, r1, r2);
    }

    // The second line: from the point at -x to the point at x.
    {
        let from = XFieldElement::lift_spec(xn);
        let to = XFieldElement::lift_spec(x);
        let m = two.mul_spec(x);
        BFieldElement::lemma_from_int_is_homomorphic(2, xv);
        BFieldElement::lemma_from_int_sub(xv, -xv);
        BFieldElement::lemma_from_int_sub(0, 0);
        BFieldElement::lemma_from_int_congruent(xv - (-xv), 2 * xv);
        let dx = to.sub_spec(from);
        assert(dx == XFieldElement::lift_spec(m));
        BFieldElement::lemma_unit_product(two, x);
        BFieldElement::lemma_inverse_of_product(two, x);
        BFieldElement::lemma_from_int(2 * xv);
        lemma_inverse_of_lift(m);
        let d = h.mul_spec(xi);
        BFieldElement::lemma_from_int_is_homomorphic(hv, xiv);
        let dv = hv * xiv;
        BFieldElement::lemma_from_int(dv);
        assert(dx.inverse_spec() == XFieldElement::lift_spec(d));
        let delta = low.sub_spec(high);
        lemma_results_are_canonical(low, high, zero);
        lemma_mul_is_linear(alpha, from, delta);
        lemma_mul_of_scaled(alpha, xn, delta);
        lemma_mul_is_linear(low, high, alpha);
        let t = al.sub_spec(ah).sub_spec(delta.scale_spec(xn));
        assert(alpha.sub_spec(from).mul_spec(delta) == t);
        lemma_results_are_canonical(al.sub_spec(ah), delta.scale_spec(xn), zero);
        lemma_mul_of_scaled(t, d, t);
        let line = colinear_y_spec((from, high), (to, low), alpha);
        assert(line == high.add_spec(t.scale_spec(d)));
        lemma_stands_add(al, ah, al0, al1, al2, ah0, ah1, ah2);
        lemma_stands_add(low, high, l0, l1, l2, h0, h1, h2);
        lemma_stands_scale(delta, xn, l0 - h0, l1 - h1, l2 - h2, -xv);
        lemma_stands_add(
            al.sub_spec(ah),
            delta.scale_spec(xn),
            al0 - ah0,
            al1 - ah1,
            al2 - ah2,
            (-xv) * (l0 - h0),
            (-xv) * (l1 - h1),
            (-xv) * (l2 - h2),
        );
        lemma_stands_scale(
            t,
            d,
            (al0 - ah0) - (-xv) * (l0 - h0),
            (al1 - ah1) - (-xv) * (l1 - h1),
            (al2 - ah2) - (-xv) * (l2 - h2),
            dv,
        );
        let w0 = dv * ((al0 - ah0) - (-xv) * (l0 - h0));
        let w1 = dv * ((al1 - ah1) - (-xv) * (l1 - h1));
        let w2 = dv * ((al2 - ah2) - (-xv) * (l2 - h2));
        lemma_stands_add(high, t.scale_spec(d), h0, h1, h2, w0, w1, w2);
        lemma_second_line_less_fold(l0, h0, al0, ah0, xv, xiv, hv);
        lemma_second_line_less_fold(l1, h1, al1, ah1, xv, xiv, hv);
        lemma_second_line_less_fold(l2, h2, al2, ah2, xv, xiv, hv);
        lemma_stands_same(line, folded, h0 + w0, h1 + w1, h2 + w2, r0, r1, r2);
    }
}

/// Adding, and multiplying by an element of the prime field, in the
/// extension field: sums can be taken in any order, the product
/// distributes over sums, and two products are the product by the
/// product.
pub proof fn lemma_module_laws(
    a: XFieldElement,
    b: XFieldElement,
    c: XFieldElement,
    d: XFieldElement,
    x: BFieldElement,
    y: BFieldElement,
)
    ensures
        a.add_spec(b).add_spec(c.add_spec(d)) == a.add_spec(c).add_spec(b.add_spec(d)),
        a.add_spec(b).scale_spec(x) == a.scale_spec(x).add_spec(b.scale_spec(x)),
        a.scale_spec(x).scale_spec(y) == a.scale_spec(y.mul_spec(x)),
        a.add_spec(b) == b.add_spec(a),
{
    BFieldElement::lemma_add_interchange(a.c0, b.c0, c.c0, d.c0);
    BFieldElement::lemma_add_interchange(a.c1, b.c1, c.c1, d.c1);
    BFieldElement::lemma_add_interchange(a.c2, b.c2, c.c2, d.c2);
    BFieldElement::lemma_mul_distributes_over_add(x, a.c0, b.c0);
    BFieldElement::lemma_mul_distributes_over_add(x, a.c1, b.c1);
    BFieldElement::lemma_mul_distributes_over_add(x, a.c2, b.c2);
    BFieldElement::lemma_mul_associative(y, x, a.c0);
    BFieldElement::lemma_mul_associative(y, x, a.c1);
    BFieldElement::lemma_mul_associative(y, x, a.c2);
    BFieldElement::lemma_add_commutative(a.c0, b.c0);
    BFieldElement::lemma_add_commutative(a.c1, b.c1);
    BFieldElement::lemma_add_commutative(a.c2, b.c2);
}

} // verus!
