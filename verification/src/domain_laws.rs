//! Evaluating and interpolating on the coset of a subgroup undo each other.

use crate::b_field_element::{BFieldElement, P};
use crate::fri_domain::FriDomain;
use crate::polynomial::{b_eval_spec, x_eval_spec};
use crate::power_of_two::log_2_ceil_spec;
use crate::x_field_element::XFieldElement;
use vstd::arithmetic::div_mod::{lemma_mod_multiples_vanish, lemma_small_mod};
use vstd::arithmetic::power2::{lemma2_to64, lemma_pow2_pos, lemma_pow2_unfold, pow2};
use vstd::prelude::*;

verus! {

/// Whether all elements of `s` are canonical.
pub open spec fn all_canonical(s: Seq<BFieldElement>) -> bool {
    forall|i: int| 0 <= i < s.len() ==> (#[trigger] s[i]).is_canonical()
}

/// `n` ones.
pub open spec fn ones_spec(n: nat) -> Seq<BFieldElement> {
    Seq::new(n, |i: int| BFieldElement::spec_one())
}

/// The sum of the powers of `r` below the power `n`.
pub open spec fn geometric_sum_spec(r: BFieldElement, n: nat) -> BFieldElement {
    b_eval_spec(ones_spec(n), r)
}

/// The value of a polynomial is canonical.
pub proof fn lemma_eval_canonical(c: Seq<BFieldElement>, x: BFieldElement)
    ensures
        b_eval_spec(c, x).is_canonical(),
{
    BFieldElement::lemma_from_int(0);
    if c.len() > 0 {
        BFieldElement::lemma_from_int(
            c[0]@ + x.mul_spec(b_eval_spec(c.drop_first(), x))@,
        );
    }
}

/// The value of the polynomial whose coefficients are those of `a` and
/// then those of `b`: the value of `a`'s, and the value of `b`'s times the
/// power of the argument that `a`'s length gives.
pub proof fn lemma_eval_concat(a: Seq<BFieldElement>, b: Seq<BFieldElement>, x: BFieldElement)
    ensures
        b_eval_spec(a + b, x) == b_eval_spec(a, x).add_spec(
            x.pow_spec(a.len()).mul_spec(b_eval_spec(b, x)),
        ),
    decreases a.len(),
{
    let eb = b_eval_spec(b, x);
    lemma_eval_canonical(b, x);
    if a.len() == 0 {
        assert(a + b =~= b);
        BFieldElement::lemma_mul_one(eb);
        BFieldElement::lemma_add_zero(eb);
    } else {
        let rest = a.drop_first();
        assert((a + b).drop_first() =~= rest + b);
        lemma_eval_concat(rest, b, x);
        let er = b_eval_spec(rest, x);
        let xp = x.pow_spec(rest.len());
        // a0 + x (er + xp eb) == (a0 + x er) + (x xp) eb
        BFieldElement::lemma_mul_distributes_over_add(x, er, xp.mul_spec(eb));
        BFieldElement::lemma_mul_associative(x, xp, eb);
        BFieldElement::lemma_add_associative(a[0], x.mul_spec(er), x.mul_spec(xp).mul_spec(eb));
        assert(a.len() == rest.len() + 1);
    }
}

/// The value of a polynomial is linear in its coefficients.
pub proof fn lemma_eval_linear(
    a: Seq<BFieldElement>,
    b: Seq<BFieldElement>,
    c: BFieldElement,
    w: BFieldElement,
)
    requires
        a.len() == b.len(),
    ensures
        b_eval_spec(Seq::new(a.len(), |i: int| a[i].add_spec(c.mul_spec(b[i]))), w)
            == b_eval_spec(a, w).add_spec(c.mul_spec(b_eval_spec(b, w))),
    decreases a.len(),
{
    let s = Seq::new(a.len(), |i: int| a[i].add_spec(c.mul_spec(b[i])));
    if a.len() == 0 {
        BFieldElement::lemma_mul_zero(c);
        BFieldElement::lemma_from_int(0);
        BFieldElement::lemma_add_zero(BFieldElement::spec_zero());
    } else {
        let ar = a.drop_first();
        let br = b.drop_first();
        assert(s.drop_first() =~= Seq::new(ar.len(), |i: int| ar[i].add_spec(c.mul_spec(br[i]))));
        lemma_eval_linear(ar, br, c, w);
        let ea = b_eval_spec(ar, w);
        let eb = b_eval_spec(br, w);
        // (a0 + c b0) + w (ea + c eb) == (a0 + w ea) + c (b0 + w eb)
        BFieldElement::lemma_mul_distributes_over_add(w, ea, c.mul_spec(eb));
        BFieldElement::lemma_mul_exchange(w, c, eb);
        BFieldElement::lemma_add_interchange(
            a[0],
            c.mul_spec(b[0]),
            w.mul_spec(ea),
            c.mul_spec(w.mul_spec(eb)),
        );
        BFieldElement::lemma_mul_distributes_over_add(c, b[0], w.mul_spec(eb));
    }
}

/// The value at `w` of the polynomial whose coefficients are `s` times
/// the powers of `a`: `s` times the sum of the powers of `a w`.
pub proof fn lemma_eval_geometric(a: BFieldElement, s: BFieldElement, w: BFieldElement, n: nat)
    requires
        s.is_canonical(),
    ensures
        b_eval_spec(Seq::new(n, |i: int| a.pow_spec(i as nat).mul_spec(s)), w) == s.mul_spec(
            geometric_sum_spec(a.mul_spec(w), n),
        ),
    decreases n,
{
    let seq = Seq::new(n, |i: int| a.pow_spec(i as nat).mul_spec(s));
    let r = a.mul_spec(w);
    if n == 0 {
        BFieldElement::lemma_mul_zero(s);
    } else {
        let s1 = a.mul_spec(s);
        let rest = Seq::new((n - 1) as nat, |i: int| a.pow_spec(i as nat).mul_spec(s1));
        assert forall|i: int| 0 <= i < n - 1 implies #[trigger] seq.drop_first()[i] == rest[i] by {
            // a^(i+1) s == a^i (a s)
            BFieldElement::lemma_mul_commutative(a, a.pow_spec(i as nat));
            BFieldElement::lemma_mul_associative(a.pow_spec(i as nat), a, s);
        }
        assert(seq.drop_first() =~= rest);
        BFieldElement::lemma_from_int(a@ * s@);
        lemma_eval_geometric(a, s1, w, (n - 1) as nat);
        assert(ones_spec(n).drop_first() =~= ones_spec((n - 1) as nat));
        let g = geometric_sum_spec(r, (n - 1) as nat);
        // 1 s + w ((a s) g) == s (1 + (a w) g)
        BFieldElement::lemma_mul_one(s);
        BFieldElement::lemma_mul_associative(a, s, g);
        BFieldElement::lemma_mul_exchange(w, a, s.mul_spec(g));
        BFieldElement::lemma_mul_exchange(w, s, g);
        BFieldElement::lemma_mul_exchange(a, s, w.mul_spec(g));
        BFieldElement::lemma_mul_associative(a, w, g);
        BFieldElement::lemma_mul_distributes_over_add(s, BFieldElement::spec_one(), r.mul_spec(g));
    }
}

/// The sum of the first `2 n` powers is the sum of the first `n`, times
/// one more than the power `n`.
pub proof fn lemma_geometric_sum_doubles(r: BFieldElement, n: nat)
    ensures
        geometric_sum_spec(r, 2 * n) == BFieldElement::spec_one().add_spec(
            r.pow_spec(n),
        ).mul_spec(geometric_sum_spec(r, n)),
{
    let g = geometric_sum_spec(r, n);
    assert(ones_spec(2 * n) =~= ones_spec(n) + ones_spec(n));
    lemma_eval_concat(ones_spec(n), ones_spec(n), r);
    lemma_eval_canonical(ones_spec(n), r);
    BFieldElement::lemma_mul_one(g);
    BFieldElement::lemma_mul_distributes_over_add(g, BFieldElement::spec_one(), r.pow_spec(n));
}

/// The sum of `n` ones stands for `n`.
pub proof fn lemma_geometric_sum_of_one(n: nat)
    ensures
        geometric_sum_spec(BFieldElement::spec_one(), n) == BFieldElement::from_int(n as int),
    decreases n,
{
    if n > 0 {
        assert(ones_spec(n).drop_first() =~= ones_spec((n - 1) as nat));
        lemma_geometric_sum_of_one((n - 1) as nat);
        BFieldElement::lemma_from_int(n - 1);
        BFieldElement::lemma_mul_one(BFieldElement::from_int(n - 1));
        BFieldElement::lemma_from_int_is_homomorphic(1, n - 1);
    }
}

/// The powers of a power of a generator of order `2^m`, other than the
/// power one, sum to zero over the order.
pub proof fn lemma_geometric_sum_vanishes(omega: BFieldElement, m: nat, d: nat)
    requires
        m >= 1,
        omega.pow_spec(pow2((m - 1) as nat)) == BFieldElement::spec_minus_one(),
        0 < d < pow2(m),
    ensures
        geometric_sum_spec(omega.pow_spec(d), pow2(m)) == BFieldElement::spec_zero(),
    decreases m,
{
    let h = pow2((m - 1) as nat);
    let r = omega.pow_spec(d);
    lemma_pow2_unfold(m);
    lemma_pow2_pos((m - 1) as nat);
    lemma2_to64();
    lemma_geometric_sum_doubles(r, h);
    let g = geometric_sum_spec(r, h);
    if d % 2 == 1 {
        // r^h == (omega^h)^d == -1
        BFieldElement::lemma_pow_pow(omega, d, h);
        BFieldElement::lemma_pow_pow(omega, h, d);
        assert(d * h == h * d) by (nonlinear_arith);
        BFieldElement::lemma_minus_one_pow(d);
        BFieldElement::lemma_from_int_is_homomorphic(1, -1);
        BFieldElement::lemma_mul_zero(g);
    } else {
        let e = (d / 2) as nat;
        assert(m >= 2);
        let square = omega.pow_spec(2);
        lemma_pow2_unfold((m - 1) as nat);
        BFieldElement::lemma_pow_pow(omega, 2, pow2((m - 2) as nat));
        BFieldElement::lemma_pow_pow(omega, 2, e);
        lemma_geometric_sum_vanishes(square, (m - 1) as nat, e);
        BFieldElement::lemma_mul_zero(BFieldElement::spec_one().add_spec(r.pow_spec(h)));
    }
}

/// Two is a unit, whose inverse is half of the modulus and one.
pub proof fn lemma_two_is_unit()
    ensures
        BFieldElement::from_int(2).is_unit(),
        BFieldElement::from_int(2).inverse_spec() == BFieldElement::from_int(9223372034707292161),
{
    let two = BFieldElement::from_int(2);
    let half = BFieldElement::from_int(9223372034707292161);
    // The power 192 of two is one.
    BFieldElement::lemma_from_int(2);
    BFieldElement::lemma_from_int(9223372034707292161);
    BFieldElement::lemma_pow_one(two);
    BFieldElement::lemma_pow_double(two, 1);
    BFieldElement::lemma_pow_double(two, 2);
    BFieldElement::lemma_pow_double(two, 4);
    BFieldElement::lemma_pow_double(two, 8);
    BFieldElement::lemma_pow_double(two, 16);
    BFieldElement::lemma_pow_double(two, 32);
    BFieldElement::lemma_pow_add(two, 64, 32);
    BFieldElement::lemma_pow_double(two, 96);
    BFieldElement::lemma_from_int_is_homomorphic(2, 2);
    BFieldElement::lemma_from_int_is_homomorphic(4, 4);
    BFieldElement::lemma_from_int_is_homomorphic(16, 16);
    BFieldElement::lemma_from_int_is_homomorphic(256, 256);
    BFieldElement::lemma_from_int_is_homomorphic(65536, 65536);
    BFieldElement::lemma_from_int_is_homomorphic(4294967296, 4294967296);
    assert(two.pow_spec(64) == BFieldElement::from_int(4294967295)) by {
        BFieldElement::lemma_from_int_congruent(4294967296int * 4294967296int, 4294967295);
    };
    BFieldElement::lemma_from_int_is_homomorphic(4294967295, 4294967296);
    assert(two.pow_spec(96) == BFieldElement::spec_minus_one()) by {
        BFieldElement::lemma_from_int_congruent(4294967295int * 4294967296int, -1);
    };
    BFieldElement::lemma_from_int_is_homomorphic(-1, -1);
    assert(two.pow_spec(192) == BFieldElement::spec_one());
    BFieldElement::lemma_pow_pow(two, 192, 96076792028200960);
    BFieldElement::lemma_one_pow(96076792028200960);
    BFieldElement::lemma_from_int_is_homomorphic(2, 9223372034707292161);
    assert(two.mul_spec(half) == BFieldElement::spec_one()) by {
        BFieldElement::lemma_from_int_congruent(2int * 9223372034707292161int, 1);
    };
    BFieldElement::lemma_unit_from_witness(two, half);
}

/// The powers of two are units.
pub proof fn lemma_power_of_two_is_unit(m: nat)
    ensures
        BFieldElement::from_int(pow2(m) as int).is_unit(),
        BFieldElement::from_int(pow2(m) as int) == BFieldElement::from_int(2).pow_spec(m),
    decreases m,
{
    let two = BFieldElement::from_int(2);
    if m == 0 {
        lemma2_to64();
        BFieldElement::lemma_one_is_unit();
    } else {
        lemma_power_of_two_is_unit((m - 1) as nat);
        lemma_pow2_unfold(m);
        BFieldElement::lemma_from_int_is_homomorphic(2, pow2((m - 1) as nat) as int);
        lemma_two_is_unit();
        BFieldElement::lemma_unit_product(two, BFieldElement::from_int(pow2((m - 1) as nat) as int));
    }
}

impl FriDomain {
    /// The sum over the subgroup's order of the powers of the power `i`
    /// of the generator over its power `t`: the order where the two are
    /// the same, and zero where they are not.
    pub proof fn lemma_character_sum(self, i: nat, t: nat)
        requires
            self.is_coset(),
            i < self.length,
            t < self.length,
        ensures
            geometric_sum_spec(
                self.omega.pow_spec(i).mul_spec(self.omega.inverse_spec().pow_spec(t)),
                self.length as nat,
            ) == if i == t {
                BFieldElement::from_int(self.length as int)
            } else {
                BFieldElement::spec_zero()
            },
    {
        let n = self.length as nat;
        let omega = self.omega;
        self.lemma_generator_is_unit();
        // omega^i (omega^(n-1))^t == omega^(i + (n-1) t)
        BFieldElement::lemma_pow_pow(omega, (n - 1) as nat, t);
        BFieldElement::lemma_pow_add(omega, i, ((n - 1) as nat) * t);
        let e = i + ((n - 1) as nat) * t;
        BFieldElement::lemma_pow_mod_order(omega, n, e);
        let d = e % n;
        assert(e == n * t + (i - t)) by (nonlinear_arith)
            requires
                e == i + (n - 1) * t,
        ;
        lemma_mod_multiples_vanish(t as int, i - t, n as int);
        if i == t {
            lemma_small_mod(0, n);
            lemma_geometric_sum_of_one(n);
        } else {
            if i > t {
                lemma_small_mod((i - t) as nat, n);
            } else {
                vstd::arithmetic::div_mod::lemma_mod_add_multiples_vanish(i - t, n as int);
                lemma_small_mod((i - t + n) as nat, n);
            }
            assert(0 < d < n);
            let m = log_2_ceil_spec(n);
            lemma2_to64();
            crate::power_of_two::lemma_half_power_of_two(n);
            lemma_pow2_unfold(m);
            lemma_geometric_sum_vanishes(omega, m, d);
        }
    }

    /// No power of the generator below the subgroup's order, but the power
    /// zero, is one.
    pub proof fn lemma_generator_has_its_order(self, k: nat)
        requires
            self.is_coset(),
            0 < k < self.length,
        ensures
            self.omega.pow_spec(k) != BFieldElement::spec_one(),
    {
        let n = self.length as nat;
        let m = log_2_ceil_spec(n);
        lemma2_to64();
        if self.omega.pow_spec(k) == BFieldElement::spec_one() {
            crate::power_of_two::lemma_half_power_of_two(n);
            lemma_pow2_unfold(m);
            lemma_geometric_sum_vanishes(self.omega, m, k);
            lemma_geometric_sum_of_one(n);
            BFieldElement::lemma_from_int(n as int);
            BFieldElement::lemma_from_int(0);
            lemma_small_mod(n, P as nat);
            lemma_small_mod(0, P as nat);
            assert(false);
        }
    }

    /// The length of the subgroup, as a field element, is a unit.
    pub proof fn lemma_length_is_unit(self)
        requires
            self.is_coset(),
        ensures
            BFieldElement::from_int(self.length as int).is_unit(),
    {
        lemma_power_of_two_is_unit(log_2_ceil_spec(self.length as nat));
    }
}

/// The polynomial with no coefficient but zeros has the value zero.
pub proof fn lemma_eval_zeros(n: nat, w: BFieldElement)
    ensures
        b_eval_spec(Seq::new(n, |i: int| BFieldElement::spec_zero()), w)
            == BFieldElement::spec_zero(),
    decreases n,
{
    let zeros = Seq::new(n, |i: int| BFieldElement::spec_zero());
    if n > 0 {
        assert(zeros.drop_first() =~= Seq::new((n - 1) as nat, |i: int| BFieldElement::spec_zero()));
        lemma_eval_zeros((n - 1) as nat, w);
        BFieldElement::lemma_mul_zero(w);
        BFieldElement::lemma_from_int(0);
        BFieldElement::lemma_add_zero(BFieldElement::spec_zero());
    }
}

/// The value of the polynomial with the one coefficient `c`.
pub proof fn lemma_eval_constant(c: BFieldElement, x: BFieldElement)
    requires
        c.is_canonical(),
    ensures
        b_eval_spec(seq![c], x) == c,
{
    assert(seq![c].drop_first() =~= Seq::<BFieldElement>::empty());
    assert(b_eval_spec(Seq::<BFieldElement>::empty(), x) == BFieldElement::spec_zero());
    assert(seq![c][0] == c);
    BFieldElement::lemma_mul_zero(x);
    BFieldElement::lemma_add_zero(c);
}

/// A product of five factors, put in another order.
pub proof fn lemma_mul_regroup(
    a: BFieldElement,
    b: BFieldElement,
    c: BFieldElement,
    d: BFieldElement,
    e: BFieldElement,
)
    ensures
        a.mul_spec(b.mul_spec(c.mul_spec(d.mul_spec(e)))) == c.mul_spec(
            a.mul_spec(d).mul_spec(b.mul_spec(e)),
        ),
{
    BFieldElement::lemma_mul_exchange(b, c, d.mul_spec(e));
    BFieldElement::lemma_mul_exchange(a, c, b.mul_spec(d.mul_spec(e)));
    BFieldElement::lemma_mul_exchange(b, d, e);
    BFieldElement::lemma_mul_associative(a, d, b.mul_spec(e));
}

impl FriDomain {
    /// The power `t` of the domain's point of index `i`: the power `i` of
    /// the power `t` of the generator, times the power `t` of the offset.
    pub proof fn lemma_domain_value_pow(self, i: nat, t: nat)
        ensures
            self.domain_value_spec(i).pow_spec(t) == self.omega.pow_spec(t).pow_spec(i).mul_spec(
                self.offset.pow_spec(t),
            ),
    {
        BFieldElement::lemma_pow_of_product(self.omega.pow_spec(i), self.offset, t);
        BFieldElement::lemma_pow_pow(self.omega, i, t);
        BFieldElement::lemma_pow_pow(self.omega, t, i);
        assert(i * t == t * i) by (nonlinear_arith);
    }

    /// The transform that interpolation applies, on the values of the
    /// polynomial with the first `t` coefficients of `p`: at the place
    /// `k` it finds the coefficient of `x^k`, times the power `k` of the
    /// offset and the length.
    #[verifier::rlimit(50)]
    proof fn lemma_transform_of_values(self, p: Seq<BFieldElement>, k: nat, t: nat)
        requires
            self.is_coset(),
            t <= p.len(),
            all_canonical(p),
            k < self.length,
            t <= self.length,
        ensures
            b_eval_spec(self.b_evaluate_spec(p.take(t as int)), self.omega.inverse_spec().pow_spec(k))
                == if k < t {
                p[k as int].mul_spec(
                    self.offset.pow_spec(k).mul_spec(BFieldElement::from_int(self.length as int)),
                )
            } else {
                BFieldElement::spec_zero()
            },
        decreases t,
    {
        let n = self.length as nat;
        let w = self.omega.inverse_spec().pow_spec(k);
        let length = BFieldElement::from_int(n as int);
        let zero = BFieldElement::spec_zero();
        BFieldElement::lemma_from_int(0);
        if t == 0 {
            assert(self.b_evaluate_spec(p.take(0)) =~= Seq::new(n, |i: int| zero));
            lemma_eval_zeros(n, w);
        } else {
            let u = (t - 1) as nat;
            let c = p[u as int];
            let before = p.take(u as int);
            assert(p.take(t as int) =~= before + seq![c]);
            let v = self.b_evaluate_spec(before);
            let v1 = self.b_evaluate_spec(p.take(t as int));
            let a = self.omega.pow_spec(u);
            let s = self.offset.pow_spec(u);
            let m = Seq::new(n, |i: int| a.pow_spec(i as nat).mul_spec(s));
            assert forall|i: int| 0 <= i < n implies #[trigger] v1[i] == v[i].add_spec(
                c.mul_spec(m[i]),
            ) by {
                let x = self.domain_value_spec(i as nat);
                lemma_eval_concat(before, seq![c], x);
                lemma_eval_constant(c, x);
                self.lemma_domain_value_pow(i as nat, u);
                BFieldElement::lemma_mul_commutative(x.pow_spec(u), c);
            }
            assert(v1 =~= Seq::new(n, |i: int| v[i].add_spec(c.mul_spec(m[i]))));
            lemma_eval_linear(v, m, c, w);
            BFieldElement::lemma_pow_canonical(self.offset, u);
            lemma_eval_geometric(a, s, w, n);
            self.lemma_character_sum(u, k);
            self.lemma_transform_of_values(p, k, u);
            let old = b_eval_spec(v, w);
            lemma_eval_canonical(v, w);
            if u == k {
                BFieldElement::lemma_from_int(c@ * s.mul_spec(length)@);
                BFieldElement::lemma_add_zero(c.mul_spec(s.mul_spec(length)));
            } else {
                BFieldElement::lemma_mul_zero(s);
                BFieldElement::lemma_mul_zero(c);
                BFieldElement::lemma_add_zero(old);
            }
        }
    }

    /// Interpolating the values of a polynomial gives the polynomial: its
    /// coefficients, and zeros up to the length of the domain.
    pub proof fn lemma_interpolate_evaluate(self, p: Seq<BFieldElement>)
        requires
            self.is_coset(),
            p.len() <= self.length,
            all_canonical(p),
        ensures
            self.b_interpolate_spec(self.b_evaluate_spec(p)) == p + Seq::new(
                (self.length - p.len()) as nat,
                |i: int| BFieldElement::spec_zero(),
            ),
    {
        let n = self.length as nat;
        let length = BFieldElement::from_int(n as int);
        let one = BFieldElement::spec_one();
        let found = self.b_interpolate_spec(self.b_evaluate_spec(p));
        let wanted = p + Seq::new((n - p.len()) as nat, |i: int| BFieldElement::spec_zero());
        assert(p.take(p.len() as int) =~= p);
        self.lemma_length_is_unit();
        assert forall|k: int| 0 <= k < n implies #[trigger] found[k] == wanted[k] by {
            self.lemma_transform_of_values(p, k as nat, p.len());
            let gi = self.offset.inverse_spec().pow_spec(k as nat);
            let g = self.offset.pow_spec(k as nat);
            let li = length.inverse_spec();
            if k < p.len() {
                let c = p[k];
                lemma_mul_regroup(gi, li, c, g, length);
                // (g^-1)^k g^k == 1, and the same for the length
                BFieldElement::lemma_pow_of_product(self.offset.inverse_spec(), self.offset, k as nat);
                BFieldElement::lemma_mul_commutative(self.offset.inverse_spec(), self.offset);
                BFieldElement::lemma_one_pow(k as nat);
                BFieldElement::lemma_mul_commutative(li, length);
                BFieldElement::lemma_from_int(1);
                BFieldElement::lemma_mul_one(one);
                BFieldElement::lemma_mul_one(c);
            } else {
                BFieldElement::lemma_mul_zero(li);
                BFieldElement::lemma_mul_zero(gi);
            }
        }
        assert(found =~= wanted);
    }

    /// The values of the polynomial that interpolation finds for the
    /// first `t` of the values `v` and zeros for the others: at the place
    /// `i` the value `v[i]` if it is among the first `t`, else zero.
    #[verifier::rlimit(50)]
    proof fn lemma_values_of_interpolant(self, v: Seq<BFieldElement>, i: nat, t: nat)
        requires
            self.is_coset(),
            t <= v.len(),
            all_canonical(v),
            i < self.length,
            t <= self.length,
        ensures
            b_eval_spec(self.b_interpolate_spec(v.take(t as int)), self.domain_value_spec(i))
                == if i < t {
                v[i as int]
            } else {
                BFieldElement::spec_zero()
            },
        decreases t,
    {
        let n = self.length as nat;
        let x = self.domain_value_spec(i);
        let length = BFieldElement::from_int(n as int);
        let li = length.inverse_spec();
        let gi = self.offset.inverse_spec();
        let oi = self.omega.inverse_spec();
        let zero = BFieldElement::spec_zero();
        let one = BFieldElement::spec_one();
        BFieldElement::lemma_from_int(0);
        if t == 0 {
            assert forall|k: int| 0 <= k < n implies #[trigger] self.b_interpolate_spec(
                v.take(0),
            )[k] == zero by {
                BFieldElement::lemma_mul_zero(li);
                BFieldElement::lemma_mul_zero(gi.pow_spec(k as nat));
            }
            assert(self.b_interpolate_spec(v.take(0)) =~= Seq::new(n, |k: int| zero));
            lemma_eval_zeros(n, x);
        } else {
            let u = (t - 1) as nat;
            let c = v[u as int];
            let before = v.take(u as int);
            assert(v.take(t as int) =~= before + seq![c]);
            let f = self.b_interpolate_spec(before);
            let f1 = self.b_interpolate_spec(v.take(t as int));
            let a = gi.mul_spec(oi.pow_spec(u));
            BFieldElement::lemma_pow_canonical(length, (P - 2) as nat);
            let m = Seq::new(n, |k: int| a.pow_spec(k as nat).mul_spec(li));
            assert forall|k: int| 0 <= k < n implies #[trigger] f1[k] == f[k].add_spec(
                c.mul_spec(m[k]),
            ) by {
                let w = oi.pow_spec(k as nat);
                let gk = gi.pow_spec(k as nat);
                lemma_eval_concat(before, seq![c], w);
                lemma_eval_constant(c, w);
                let e = b_eval_spec(before, w);
                let wu = w.pow_spec(u);
                // gk (li (e + wu c)) == gk (li e) + c ((gk wu) li)
                BFieldElement::lemma_mul_distributes_over_add(li, e, wu.mul_spec(c));
                BFieldElement::lemma_mul_distributes_over_add(
                    gk,
                    li.mul_spec(e),
                    li.mul_spec(wu.mul_spec(c)),
                );
                BFieldElement::lemma_mul_commutative(wu, c);
                BFieldElement::lemma_mul_exchange(li, c, wu);
                BFieldElement::lemma_mul_exchange(gk, c, li.mul_spec(wu));
                BFieldElement::lemma_mul_commutative(li, wu);
                BFieldElement::lemma_mul_associative(gk, wu, li);
                // (oi^k)^u == (oi^u)^k, and a^k == gk (oi^u)^k
                BFieldElement::lemma_pow_pow(oi, k as nat, u);
                BFieldElement::lemma_pow_pow(oi, u, k as nat);
                assert((k as nat) * u == u * (k as nat)) by (nonlinear_arith);
                BFieldElement::lemma_pow_of_product(gi, oi.pow_spec(u), k as nat);
            }
            assert(f1 =~= Seq::new(n, |k: int| f[k].add_spec(c.mul_spec(m[k]))));
            lemma_eval_linear(f, m, c, x);
            lemma_eval_geometric(a, li, x, n);
            // a x == omega^i (omega^-1)^u
            let oip = self.omega.pow_spec(i);
            let oiu = oi.pow_spec(u);
            BFieldElement::lemma_mul_commutative(oip, self.offset);
            BFieldElement::lemma_mul_associative(gi, oiu, self.offset.mul_spec(oip));
            BFieldElement::lemma_mul_exchange(oiu, self.offset, oip);
            BFieldElement::lemma_mul_associative(gi, self.offset, oiu.mul_spec(oip));
            BFieldElement::lemma_mul_commutative(gi, self.offset);
            BFieldElement::lemma_mul_commutative(oiu, oip);
            BFieldElement::lemma_from_int(oip@ * oiu@);
            BFieldElement::lemma_mul_one(oip.mul_spec(oiu));
            assert(a.mul_spec(x) == oip.mul_spec(oiu));
            self.lemma_character_sum(i, u);
            self.lemma_length_is_unit();
            self.lemma_values_of_interpolant(v, i, u);
            let old = b_eval_spec(f, x);
            lemma_eval_canonical(f, x);
            if u == i {
                BFieldElement::lemma_mul_commutative(li, length);
                BFieldElement::lemma_mul_one(c);
                BFieldElement::lemma_add_zero(c);
            } else {
                BFieldElement::lemma_mul_zero(li);
                BFieldElement::lemma_mul_zero(c);
                BFieldElement::lemma_add_zero(old);
            }
        }
    }

    /// The polynomial that interpolation finds for the values `v` takes
    /// the values `v` on the domain.
    pub proof fn lemma_evaluate_interpolate(self, v: Seq<BFieldElement>)
        requires
            self.is_coset(),
            v.len() == self.length,
            all_canonical(v),
        ensures
            self.b_evaluate_spec(self.b_interpolate_spec(v)) == v,
    {
        let found = self.b_evaluate_spec(self.b_interpolate_spec(v));
        assert(v.take(v.len() as int) =~= v);
        assert forall|i: int| 0 <= i < self.length implies #[trigger] found[i] == v[i] by {
            self.lemma_values_of_interpolant(v, i as nat, v.len());
        }
        assert(found =~= v);
    }
}

/// The coefficient of `x^j` of an element of the extension field, for `j`
/// from 0 to 2.
pub open spec fn x_part_spec(x: XFieldElement, j: int) -> BFieldElement {
    if j == 0 {
        x.c0
    } else if j == 1 {
        x.c1
    } else {
        x.c2
    }
}

/// The coefficients of `x^j` of the elements of `s`.
pub open spec fn x_parts_spec(s: Seq<XFieldElement>, j: int) -> Seq<BFieldElement> {
    Seq::new(s.len(), |i: int| x_part_spec(s[i], j))
}

/// Whether all elements of `s` are canonical.
pub open spec fn x_all_canonical(s: Seq<XFieldElement>) -> bool {
    forall|i: int| 0 <= i < s.len() ==> (#[trigger] s[i]).is_canonical()
}

/// A polynomial over the extension field is evaluated part by part.
pub proof fn lemma_x_eval_by_parts(c: Seq<XFieldElement>, x: BFieldElement, j: int)
    requires
        0 <= j <= 2,
    ensures
        x_part_spec(x_eval_spec(c, x), j) == b_eval_spec(x_parts_spec(c, j), x),
    decreases c.len(),
{
    if c.len() > 0 {
        assert(x_parts_spec(c, j).drop_first() =~= x_parts_spec(c.drop_first(), j));
        lemma_x_eval_by_parts(c.drop_first(), x, j);
    }
}

impl FriDomain {
    /// Values over the extension field are the values of the parts.
    pub proof fn lemma_x_evaluate_by_parts(self, p: Seq<XFieldElement>, j: int)
        requires
            0 <= j <= 2,
        ensures
            x_parts_spec(self.x_evaluate_spec(p), j) == self.b_evaluate_spec(x_parts_spec(p, j)),
    {
        assert forall|i: int| 0 <= i < self.length implies #[trigger] x_parts_spec(
            self.x_evaluate_spec(p),
            j,
        )[i] == self.b_evaluate_spec(x_parts_spec(p, j))[i] by {
            lemma_x_eval_by_parts(p, self.domain_value_spec(i as nat), j);
        }
        assert(x_parts_spec(self.x_evaluate_spec(p), j) =~= self.b_evaluate_spec(
            x_parts_spec(p, j),
        ));
    }

    /// Interpolants over the extension field are the interpolants of the
    /// parts.
    pub proof fn lemma_x_interpolate_by_parts(self, v: Seq<XFieldElement>, j: int)
        requires
            0 <= j <= 2,
        ensures
            x_parts_spec(self.x_interpolate_spec(v), j) == self.b_interpolate_spec(
                x_parts_spec(v, j),
            ),
    {
        assert forall|k: int| 0 <= k < self.length implies #[trigger] x_parts_spec(
            self.x_interpolate_spec(v),
            j,
        )[k] == self.b_interpolate_spec(x_parts_spec(v, j))[k] by {
            lemma_x_eval_by_parts(v, self.omega.inverse_spec().pow_spec(k as nat), j);
        }
        assert(x_parts_spec(self.x_interpolate_spec(v), j) =~= self.b_interpolate_spec(
            x_parts_spec(v, j),
        ));
    }

    /// Interpolating the values of a polynomial over the extension field
    /// gives the polynomial: its coefficients, and zeros up to the length
    /// of the domain.
    pub proof fn lemma_x_interpolate_evaluate(self, p: Seq<XFieldElement>)
        requires
            self.is_coset(),
            p.len() <= self.length,
            x_all_canonical(p),
        ensures
            self.x_interpolate_spec(self.x_evaluate_spec(p)) == p + Seq::new(
                (self.length - p.len()) as nat,
                |i: int| XFieldElement::spec_zero(),
            ),
    {
        let found = self.x_interpolate_spec(self.x_evaluate_spec(p));
        let wanted = p + Seq::new(
            (self.length - p.len()) as nat,
            |i: int| XFieldElement::spec_zero(),
        );
        assert forall|k: int| 0 <= k < self.length implies #[trigger] found[k] == wanted[k] by {
            assert forall|j: int| 0 <= j <= 2 implies x_part_spec(found[k], j) == x_part_spec(
                wanted[k],
                j,
            ) by {
                let part = x_parts_spec(p, j);
                assert(all_canonical(part)) by {
                    assert forall|i: int| 0 <= i < part.len() implies (#[trigger] part[i]).is_canonical() by {
                        assert(p[i].is_canonical());
                    }
                }
                self.lemma_x_evaluate_by_parts(p, j);
                self.lemma_x_interpolate_by_parts(self.x_evaluate_spec(p), j);
                self.lemma_interpolate_evaluate(part);
                assert(x_parts_spec(found, j)[k] == x_part_spec(found[k], j));
            }
            assert(x_part_spec(found[k], 0) == x_part_spec(wanted[k], 0));
            assert(x_part_spec(found[k], 1) == x_part_spec(wanted[k], 1));
            assert(x_part_spec(found[k], 2) == x_part_spec(wanted[k], 2));
        }
        assert(found =~= wanted);
    }

    /// The polynomial that interpolation finds for values over the
    /// extension field takes these values on the domain.
    pub proof fn lemma_x_evaluate_interpolate(self, v: Seq<XFieldElement>)
        requires
            self.is_coset(),
            v.len() == self.length,
            x_all_canonical(v),
        ensures
            self.x_evaluate_spec(self.x_interpolate_spec(v)) == v,
    {
        let found = self.x_evaluate_spec(self.x_interpolate_spec(v));
        assert forall|i: int| 0 <= i < self.length implies #[trigger] found[i] == v[i] by {
            assert forall|j: int| 0 <= j <= 2 implies x_part_spec(found[i], j) == x_part_spec(
                v[i],
                j,
            ) by {
                let part = x_parts_spec(v, j);
                assert(all_canonical(part)) by {
                    assert forall|i: int| 0 <= i < part.len() implies (#[trigger] part[i]).is_canonical() by {
                        assert(v[i].is_canonical());
                    }
                }
                self.lemma_x_interpolate_by_parts(v, j);
                self.lemma_x_evaluate_by_parts(self.x_interpolate_spec(v), j);
                self.lemma_evaluate_interpolate(part);
                assert(x_parts_spec(found, j)[i] == x_part_spec(found[i], j));
            }
            assert(x_part_spec(found[i], 0) == x_part_spec(v[i], 0));
            assert(x_part_spec(found[i], 1) == x_part_spec(v[i], 1));
            assert(x_part_spec(found[i], 2) == x_part_spec(v[i], 2));
        }
        assert(found =~= v);
    }
}

} // verus!
