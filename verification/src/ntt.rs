//! The values of a polynomial on the coset of a subgroup whose order is a
//! power of two, by halving: the values of the polynomial of the
//! coefficients of even index and of that of the coefficients of odd index,
//! on the coset of the squares, give the values at a point and at its
//! negative.

use crate::b_field_element::BFieldElement;
use crate::domain_laws::{all_canonical, lemma_eval_canonical, x_all_canonical};
use crate::fold_laws::{
    evens_spec, lemma_horner_by_squares, lemma_x_eval_even_odd, lemma_x_zero, odds_spec,
};
use crate::fri_domain::FriDomain;
use crate::polynomial::{b_eval_spec, x_eval_spec};
use crate::power_of_two::lemma_half_power_of_two;
use crate::x_field_element::XFieldElement;
use vstd::prelude::*;

verus! {

/// The coefficients of even index of `s`.
pub open spec fn b_evens_spec(s: Seq<BFieldElement>) -> Seq<BFieldElement> {
    Seq::new((s.len() + 1) / 2, |k: int| s[2 * k])
}

/// The coefficients of odd index of `s`, with a zero at the end where `s`
/// has one coefficient more of even index.
pub open spec fn b_odds_spec(s: Seq<BFieldElement>) -> Seq<BFieldElement> {
    Seq::new(
        (s.len() + 1) / 2,
        |k: int|
            if 2 * k + 1 < s.len() {
                s[2 * k + 1]
            } else {
                BFieldElement::spec_zero()
            },
    )
}

/// The value of a polynomial at `x`: the value at the square of `x` of
/// the polynomial of its coefficients of even index, and `x` times that
/// of the polynomial of its coefficients of odd index.
pub proof fn lemma_b_eval_even_odd(s: Seq<BFieldElement>, x: BFieldElement)
    requires
        all_canonical(s),
        x.is_canonical(),
    ensures
        b_eval_spec(s, x) == b_eval_spec(b_evens_spec(s), x.mul_spec(x)).add_spec(
            x.mul_spec(b_eval_spec(b_odds_spec(s), x.mul_spec(x))),
        ),
    decreases s.len(),
{
    let y = x.mul_spec(x);
    let zero = BFieldElement::spec_zero();
    BFieldElement::lemma_from_int(0);
    BFieldElement::lemma_mul_zero(x);
    BFieldElement::lemma_mul_zero(y);
    BFieldElement::lemma_add_zero(zero);
    let empty = Seq::<BFieldElement>::empty();
    if s.len() == 0 {
        assert(b_evens_spec(s) =~= empty);
        assert(b_odds_spec(s) =~= empty);
        assert(b_eval_spec(s, x) == zero);
    } else if s.len() == 1 {
        assert(s.drop_first() =~= empty);
        assert(b_evens_spec(s).drop_first() =~= empty);
        assert(b_odds_spec(s).drop_first() =~= empty);
        assert(b_eval_spec(empty, x) == zero);
        assert(b_eval_spec(empty, y) == zero);
        assert(b_evens_spec(s)[0] == s[0]);
        assert(b_odds_spec(s)[0] == zero);
        BFieldElement::lemma_add_zero(s[0]);
        assert(b_eval_spec(s, x) == s[0]);
        assert(b_eval_spec(b_evens_spec(s), y) == s[0]);
        assert(b_eval_spec(b_odds_spec(s), y) == zero);
    } else {
        let rest = s.drop_first().drop_first();
        assert(b_evens_spec(s).drop_first() =~= b_evens_spec(rest));
        assert(b_odds_spec(s).drop_first() =~= b_odds_spec(rest));
        assert(b_evens_spec(s)[0] == s[0]);
        assert(b_odds_spec(s)[0] == s[1]);
        assert(s.drop_first()[0] == s[1]);
        lemma_b_eval_even_odd(rest, x);
        let e = b_eval_spec(b_evens_spec(rest), y);
        let o = b_eval_spec(b_odds_spec(rest), y);
        lemma_eval_canonical(b_evens_spec(rest), y);
        lemma_eval_canonical(b_odds_spec(rest), y);
        lemma_horner_by_squares(s[0], s[1], e, o, x);
        let inner = b_eval_spec(rest, x);
        assert(inner == e.add_spec(x.mul_spec(o)));
        assert(b_eval_spec(s.drop_first(), x) == s[1].add_spec(x.mul_spec(inner)));
        assert(b_eval_spec(s, x) == s[0].add_spec(x.mul_spec(s[1].add_spec(x.mul_spec(inner)))));
        assert(b_eval_spec(b_evens_spec(s), y) == s[0].add_spec(y.mul_spec(e)));
        assert(b_eval_spec(b_odds_spec(s), y) == s[1].add_spec(y.mul_spec(o)));
    }
}

/// Learns that the elements that executable code holds are canonical.
pub fn b_learn_canonical(values: &[BFieldElement])
    ensures
        all_canonical(values@),
{
    let mut i: usize = 0;
    while i < values.len()
        invariant
            i <= values@.len(),
            forall|k: int| 0 <= k < i ==> (#[trigger] values@[k]).is_canonical(),
        decreases values@.len() - i,
    {
        let _ = values[i].is_canonical_exec();
        i = i + 1;
    }
}

/// Learns that the elements that executable code holds are canonical.
pub fn x_learn_canonical(values: &[XFieldElement])
    ensures
        x_all_canonical(values@),
{
    let mut i: usize = 0;
    while i < values.len()
        invariant
            i <= values@.len(),
            forall|k: int| 0 <= k < i ==> (#[trigger] values@[k]).is_canonical(),
        decreases values@.len() - i,
    {
        let _ = values[i].c0.is_canonical_exec();
        let _ = values[i].c1.is_canonical_exec();
        let _ = values[i].c2.is_canonical_exec();
        i = i + 1;
    }
}

/// The coefficients of even index, and those of odd index.
fn b_split(coefficients: &[BFieldElement]) -> (res: (Vec<BFieldElement>, Vec<BFieldElement>))
    requires
        coefficients@.len() < usize::MAX,
    ensures
        res.0@ == b_evens_spec(coefficients@),
        res.1@ == b_odds_spec(coefficients@),
{
    let mut evens: Vec<BFieldElement> = Vec::new();
    let mut odds: Vec<BFieldElement> = Vec::new();
    let n = coefficients.len();
    let mut i: usize = 0;
    while i < n
        invariant
            n == coefficients@.len(),
            n < usize::MAX,
            i <= n + 1,
            i % 2 == 0,
            evens@.len() == i / 2,
            odds@.len() == i / 2,
            forall|k: int| 0 <= k < i / 2 ==> #[trigger] evens@[k] == coefficients@[2 * k],
            forall|k: int|
                0 <= k < i / 2 ==> #[trigger] odds@[k] == if 2 * k + 1 < n {
                    coefficients@[2 * k + 1]
                } else {
                    BFieldElement::spec_zero()
                },
        decreases n + 1 - i,
    {
        evens.push(coefficients[i]);
        if i + 1 < n {
            odds.push(coefficients[i + 1]);
        } else {
            odds.push(BFieldElement::zero());
        }
        i = i + 2;
    }
    proof {
        assert(evens@ =~= b_evens_spec(coefficients@));
        assert(odds@ =~= b_odds_spec(coefficients@));
    }
    (evens, odds)
}

/// The coefficients of even index, and those of odd index.
fn x_split(coefficients: &[XFieldElement]) -> (res: (Vec<XFieldElement>, Vec<XFieldElement>))
    requires
        coefficients@.len() < usize::MAX,
    ensures
        res.0@ == evens_spec(coefficients@),
        res.1@ == odds_spec(coefficients@),
{
    let mut evens: Vec<XFieldElement> = Vec::new();
    let mut odds: Vec<XFieldElement> = Vec::new();
    let n = coefficients.len();
    let mut i: usize = 0;
    while i < n
        invariant
            n == coefficients@.len(),
            n < usize::MAX,
            i <= n + 1,
            i % 2 == 0,
            evens@.len() == i / 2,
            odds@.len() == i / 2,
            forall|k: int| 0 <= k < i / 2 ==> #[trigger] evens@[k] == coefficients@[2 * k],
            forall|k: int|
                0 <= k < i / 2 ==> #[trigger] odds@[k] == if 2 * k + 1 < n {
                    coefficients@[2 * k + 1]
                } else {
                    XFieldElement::spec_zero()
                },
        decreases n + 1 - i,
    {
        evens.push(coefficients[i]);
        if i + 1 < n {
            odds.push(coefficients[i + 1]);
        } else {
            odds.push(XFieldElement::zero());
        }
        i = i + 2;
    }
    proof {
        assert(evens@ =~= evens_spec(coefficients@));
        assert(odds@ =~= odds_spec(coefficients@));
    }
    (evens, odds)
}

/// The values on the coset `domain` of the polynomial over the prime field
/// with the coefficients `coefficients`, of which there are no more than
/// the coset has points.
pub fn b_ntt(coefficients: &[BFieldElement], domain: &FriDomain) -> (res: Vec<BFieldElement>)
    requires
        domain.is_coset(),
        coefficients@.len() <= domain.length,
        all_canonical(coefficients@),
    ensures
        res@ == domain.b_evaluate_spec(coefficients@),
    decreases domain.length,
{
    let ghost s = coefficients@;
    let n = domain.length;
    if n == 1 {
        let mut res: Vec<BFieldElement> = Vec::new();
        proof {
            BFieldElement::lemma_from_int(0);
            BFieldElement::lemma_mul_zero(domain.domain_value_spec(0));
        }
        if coefficients.len() == 0 {
            res.push(BFieldElement::zero());
        } else {
            proof {
                assert(s.drop_first() =~= Seq::<BFieldElement>::empty());
                assert(b_eval_spec(Seq::<BFieldElement>::empty(), domain.domain_value_spec(0))
                    == BFieldElement::spec_zero());
                BFieldElement::lemma_add_zero(s[0]);
            }
            res.push(coefficients[0]);
        }
        proof {
            assert(res@ =~= domain.b_evaluate_spec(s));
        }
        return res;
    }
    proof {
        vstd::arithmetic::power2::lemma_pow2_pos(
            crate::power_of_two::log_2_ceil_spec(n as nat),
        );
        lemma_half_power_of_two(n as nat);
        domain.lemma_squared_domain_is_coset();
        BFieldElement::lemma_from_int(0);
    }
    let half = n / 2;
    let (evens, odds) = b_split(coefficients);
    let squares = FriDomain {
        offset: domain.offset.mul(domain.offset),
        omega: domain.omega.mul(domain.omega),
        length: half,
    };
    let e = b_ntt(evens.as_slice(), &squares);
    let o = b_ntt(odds.as_slice(), &squares);
    let mut lows: Vec<BFieldElement> = Vec::new();
    let mut highs: Vec<BFieldElement> = Vec::new();
    let mut power = BFieldElement::one();
    let mut i: usize = 0;
    while i < half
        invariant
            i <= half,
            half == n / 2,
            n == domain.length,
            n >= 2,
            n % 2 == 0,
            domain.is_coset(),
            s == coefficients@,
            all_canonical(s),
            squares == domain.squared_domain_spec(),
            e@ == squares.b_evaluate_spec(b_evens_spec(s)),
            o@ == squares.b_evaluate_spec(b_odds_spec(s)),
            power == domain.omega.pow_spec(i as nat),
            lows@.len() == i,
            highs@.len() == i,
            forall|k: int|
                0 <= k < i ==> #[trigger] lows@[k] == b_eval_spec(
                    s,
                    domain.domain_value_spec(k as nat),
                ),
            forall|k: int|
                0 <= k < i ==> #[trigger] highs@[k] == b_eval_spec(
                    s,
                    domain.domain_value_spec((half + k) as nat),
                ),
        decreases half - i,
    {
        let x = power.mul(domain.offset);
        let ox = x.mul(o[i]);
        proof {
            let xn = x.neg_spec();
            domain.lemma_points(i as nat);
            lemma_b_eval_even_odd(s, x);
            lemma_b_eval_even_odd(s, xn);
            BFieldElement::lemma_mul_commutative(power, domain.omega);
            // (-x) o == -(x o)
            BFieldElement::lemma_neg_is_mul_minus_one(x);
            BFieldElement::lemma_neg_is_mul_minus_one(ox);
            BFieldElement::lemma_mul_associative(BFieldElement::spec_minus_one(), x, o@[i as int]);
        }
        lows.push(e[i].add(ox));
        highs.push(e[i].add(ox.neg()));
        power = power.mul(domain.omega);
        i = i + 1;
    }
    lows.append(&mut highs);
    proof {
        assert(lows@ =~= domain.b_evaluate_spec(s));
    }
    lows
}

/// The values on the coset `domain` of the polynomial over the extension
/// field with the coefficients `coefficients`, of which there are no more
/// than the coset has points.
pub fn x_ntt(coefficients: &[XFieldElement], domain: &FriDomain) -> (res: Vec<XFieldElement>)
    requires
        domain.is_coset(),
        coefficients@.len() <= domain.length,
        x_all_canonical(coefficients@),
    ensures
        res@ == domain.x_evaluate_spec(coefficients@),
    decreases domain.length,
{
    let ghost s = coefficients@;
    let n = domain.length;
    if n == 1 {
        let mut res: Vec<XFieldElement> = Vec::new();
        proof {
            BFieldElement::lemma_from_int(0);
            lemma_x_zero(XFieldElement::spec_zero(), domain.domain_value_spec(0));
        }
        if coefficients.len() == 0 {
            res.push(XFieldElement::zero());
        } else {
            proof {
                assert(s.drop_first() =~= Seq::<XFieldElement>::empty());
                assert(x_eval_spec(Seq::<XFieldElement>::empty(), domain.domain_value_spec(0))
                    == XFieldElement::spec_zero());
                lemma_x_zero(s[0], domain.domain_value_spec(0));
            }
            res.push(coefficients[0]);
        }
        proof {
            assert(res@ =~= domain.x_evaluate_spec(s));
        }
        return res;
    }
    proof {
        vstd::arithmetic::power2::lemma_pow2_pos(
            crate::power_of_two::log_2_ceil_spec(n as nat),
        );
        lemma_half_power_of_two(n as nat);
        domain.lemma_squared_domain_is_coset();
        BFieldElement::lemma_from_int(0);
    }
    let half = n / 2;
    let (evens, odds) = x_split(coefficients);
    let squares = FriDomain {
        offset: domain.offset.mul(domain.offset),
        omega: domain.omega.mul(domain.omega),
        length: half,
    };
    let e = x_ntt(evens.as_slice(), &squares);
    let o = x_ntt(odds.as_slice(), &squares);
    let mut lows: Vec<XFieldElement> = Vec::new();
    let mut highs: Vec<XFieldElement> = Vec::new();
    let mut power = BFieldElement::one();
    let mut i: usize = 0;
    while i < half
        invariant
            i <= half,
            half == n / 2,
            n == domain.length,
            n >= 2,
            n % 2 == 0,
            domain.is_coset(),
            s == coefficients@,
            x_all_canonical(s),
            squares == domain.squared_domain_spec(),
            e@ == squares.x_evaluate_spec(evens_spec(s)),
            o@ == squares.x_evaluate_spec(odds_spec(s)),
            power == domain.omega.pow_spec(i as nat),
            lows@.len() == i,
            highs@.len() == i,
            forall|k: int|
                0 <= k < i ==> #[trigger] lows@[k] == x_eval_spec(
                    s,
                    domain.domain_value_spec(k as nat),
                ),
            forall|k: int|
                0 <= k < i ==> #[trigger] highs@[k] == x_eval_spec(
                    s,
                    domain.domain_value_spec((half + k) as nat),
                ),
        decreases half - i,
    {
        let x = power.mul(domain.offset);
        proof {
            let xn = x.neg_spec();
            domain.lemma_points(i as nat);
            lemma_x_eval_even_odd(s, x);
            lemma_x_eval_even_odd(s, xn);
            BFieldElement::lemma_mul_commutative(power, domain.omega);
        }
        lows.push(e[i].add(o[i].scale(x)));
        highs.push(e[i].add(o[i].scale(x.neg())));
        power = power.mul(domain.omega);
        i = i + 1;
    }
    lows.append(&mut highs);
    proof {
        assert(lows@ =~= domain.x_evaluate_spec(s));
    }
    lows
}

} // verus!
