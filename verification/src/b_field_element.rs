//! The prime field with `2^64 - 2^32 + 1` elements.

use crate::power_of_two::{ceil_power_of_two, is_power_of_two_spec, log_2_ceil_spec};
use vstd::arithmetic::div_mod::*;
use vstd::arithmetic::mul::*;
use vstd::arithmetic::power2::*;
use vstd::prelude::*;

verus! {

/// The field's modulus, `2^64 - 2^32 + 1`.
pub const P: u64 = 0xffff_ffff_0000_0001;

/// A generator of the subgroup of order `2^32`.
pub const ROOT_OF_ORDER_2_32: u64 = 1753635133440165772;

/// An element of the prime field, held as its least non-negative residue.
#[derive(Clone, Copy, Debug, PartialEq, Eq, Structural, Hash)]
pub struct BFieldElement {
    value: u64,
}

impl View for BFieldElement {
    type V = int;

    /// The residue that stands for this element.
    closed spec fn view(&self) -> int {
        self.value as int
    }
}

impl BFieldElement {
    #[verifier::type_invariant]
    spec fn reduced(self) -> bool {
        self.value < P
    }

    /// Whether the element is held as a residue below the modulus. Every
    /// element that executable code can hold is.
    pub closed spec fn is_canonical(self) -> bool {
        self.value < P
    }

    /// The element that stands for the integer `x`.
    pub closed spec fn from_int(x: int) -> Self {
        BFieldElement { value: (x % (P as int)) as u64 }
    }

    pub open spec fn spec_zero() -> Self {
        Self::from_int(0)
    }

    pub open spec fn spec_one() -> Self {
        Self::from_int(1)
    }

    pub open spec fn spec_minus_one() -> Self {
        Self::from_int(-1)
    }

    pub open spec fn add_spec(self, rhs: Self) -> Self {
        Self::from_int(self@ + rhs@)
    }

    pub open spec fn neg_spec(self) -> Self {
        Self::from_int(-self@)
    }

    pub open spec fn sub_spec(self, rhs: Self) -> Self {
        Self::from_int(self@ - rhs@)
    }

    pub open spec fn mul_spec(self, rhs: Self) -> Self {
        Self::from_int(self@ * rhs@)
    }

    /// `self` raised to the power `n`.
    pub open spec fn pow_spec(self, n: nat) -> Self
        decreases n,
    {
        if n == 0 {
            Self::spec_one()
        } else {
            self.mul_spec(self.pow_spec((n - 1) as nat))
        }
    }

    /// `self` raised to the power `P - 2`: the inverse of every unit, and
    /// zero for zero.
    pub open spec fn inverse_spec(self) -> Self {
        self.pow_spec((P - 2) as nat)
    }

    /// Whether `self` has a multiplicative inverse, which is then
    /// `inverse_spec`. In a field this is to say that `self` is not zero.
    pub open spec fn is_unit(self) -> bool {
        self.mul_spec(self.inverse_spec()) == Self::spec_one()
    }

    /// The generator of the subgroup of order `2^32`, squared `j` times.
    pub open spec fn root_chain(j: nat) -> Self
        decreases j,
    {
        if j == 0 {
            Self::from_int(ROOT_OF_ORDER_2_32 as int)
        } else {
            Self::root_chain((j - 1) as nat).mul_spec(Self::root_chain((j - 1) as nat))
        }
    }

    /// The chosen generator of the subgroup of order `2^log_n`, for
    /// `log_n <= 32`.
    pub open spec fn primitive_root_spec(log_n: nat) -> Self {
        Self::root_chain((32 - log_n) as nat)
    }

    /// What `from_int` yields: the residue of `x`, which is canonical.
    pub proof fn lemma_from_int(x: int)
        ensures
            Self::from_int(x)@ == x % (P as int),
            Self::from_int(x).is_canonical(),
            0 <= #[trigger] Self::from_int(x)@ < P,
    {
    }

    /// Integers with the same residue stand for the same element.
    pub proof fn lemma_from_int_congruent(x: int, y: int)
        requires
            x % (P as int) == y % (P as int),
        ensures
            Self::from_int(x) == Self::from_int(y),
    {
    }

    /// A canonical element is the one that its own residue stands for.
    pub proof fn lemma_canonical(a: Self)
        requires
            a.is_canonical(),
        ensures
            Self::from_int(a@) == a,
            0 <= a@ < P,
    {
        assert(a@ % (P as int) == a@) by {
            lemma_small_mod(a@ as nat, P as nat);
        };
    }

    pub proof fn lemma_add_commutative(a: Self, b: Self)
        ensures
            a.add_spec(b) == b.add_spec(a),
    {
    }

    pub proof fn lemma_add_associative(a: Self, b: Self, c: Self)
        ensures
            a.add_spec(b).add_spec(c) == a.add_spec(b.add_spec(c)),
    {
        lemma_add_mod_noop(a@ + b@, c@, P as int);
        lemma_add_mod_noop(a@, b@ + c@, P as int);
        lemma_mod_twice(a@ + b@, P as int);
        lemma_mod_twice(b@ + c@, P as int);
        lemma_add_mod_noop((a@ + b@) % (P as int), c@, P as int);
        lemma_add_mod_noop(a@, (b@ + c@) % (P as int), P as int);
    }

    pub proof fn lemma_add_zero(a: Self)
        requires
            a.is_canonical(),
        ensures
            a.add_spec(Self::spec_zero()) == a,
            Self::spec_zero().add_spec(a) == a,
    {
        Self::lemma_canonical(a);
    }

    pub proof fn lemma_mul_commutative(a: Self, b: Self)
        ensures
            a.mul_spec(b) == b.mul_spec(a),
    {
        lemma_mul_is_commutative(a@, b@);
    }

    pub proof fn lemma_mul_associative(a: Self, b: Self, c: Self)
        ensures
            a.mul_spec(b).mul_spec(c) == a.mul_spec(b.mul_spec(c)),
    {
        let p = P as int;
        lemma_mul_mod_noop_left(a@ * b@, c@, p);
        lemma_mul_mod_noop_right(a@, b@ * c@, p);
        lemma_mul_is_associative(a@, b@, c@);
    }

    pub proof fn lemma_mul_one(a: Self)
        requires
            a.is_canonical(),
        ensures
            a.mul_spec(Self::spec_one()) == a,
            Self::spec_one().mul_spec(a) == a,
    {
        Self::lemma_canonical(a);
        assert(a@ * 1 == a@);
        assert(1 * a@ == a@);
    }

    pub proof fn lemma_mul_zero(a: Self)
        ensures
            a.mul_spec(Self::spec_zero()) == Self::spec_zero(),
            Self::spec_zero().mul_spec(a) == Self::spec_zero(),
    {
        assert(a@ * 0 == 0);
        assert(0 * a@ == 0);
    }

    pub proof fn lemma_mul_distributes_over_add(a: Self, b: Self, c: Self)
        ensures
            a.mul_spec(b.add_spec(c)) == a.mul_spec(b).add_spec(a.mul_spec(c)),
            b.add_spec(c).mul_spec(a) == b.mul_spec(a).add_spec(c.mul_spec(a)),
    {
        let p = P as int;
        lemma_mul_mod_noop_right(a@, b@ + c@, p);
        lemma_mul_is_distributive_add(a@, b@, c@);
        lemma_add_mod_noop(a@ * b@, a@ * c@, p);
        Self::lemma_mul_commutative(a, b);
        Self::lemma_mul_commutative(a, c);
        Self::lemma_mul_commutative(a, b.add_spec(c));
    }

    /// Two sums added are the sums of their first and of their second
    /// terms added.
    pub proof fn lemma_add_interchange(p: Self, q: Self, r: Self, s: Self)
        ensures
            p.add_spec(q).add_spec(r.add_spec(s)) == p.add_spec(r).add_spec(q.add_spec(s)),
    {
        Self::lemma_add_associative(p, q, r.add_spec(s));
        Self::lemma_add_associative(q, r, s);
        Self::lemma_add_commutative(q, r);
        Self::lemma_add_associative(r, q, s);
        Self::lemma_add_associative(p, r, q.add_spec(s));
    }

    /// A product of three factors, with the first two exchanged.
    pub proof fn lemma_mul_exchange(p: Self, q: Self, r: Self)
        ensures
            p.mul_spec(q.mul_spec(r)) == q.mul_spec(p.mul_spec(r)),
    {
        Self::lemma_mul_associative(p, q, r);
        Self::lemma_mul_commutative(p, q);
        Self::lemma_mul_associative(q, p, r);
    }

    /// The element that stands for a product is the product of the
    /// elements that stand for the factors; likewise for a sum.
    pub proof fn lemma_from_int_is_homomorphic(x: int, y: int)
        ensures
            Self::from_int(x).mul_spec(Self::from_int(y)) == Self::from_int(x * y),
            Self::from_int(x).add_spec(Self::from_int(y)) == Self::from_int(x + y),
    {
        lemma_mul_mod_noop_general(x, y, P as int);
        lemma_add_mod_noop(x, y, P as int);
    }

    /// The element that stands for a difference is the difference of the
    /// elements that stand for its terms.
    pub proof fn lemma_from_int_sub(x: int, y: int)
        ensures
            Self::from_int(x).sub_spec(Self::from_int(y)) == Self::from_int(x - y),
            Self::from_int(x).neg_spec() == Self::from_int(-x),
    {
        lemma_sub_mod_noop(x, y, P as int);
        lemma_sub_mod_noop(0, x, P as int);
    }

    /// Minus one is a unit, and its own inverse.
    pub proof fn lemma_minus_one_is_unit()
        ensures
            Self::spec_minus_one().is_unit(),
            Self::spec_minus_one().inverse_spec() == Self::spec_minus_one(),
    {
        Self::lemma_minus_one_pow((P - 1) as nat);
        Self::lemma_from_int_is_homomorphic(-1, -1);
        Self::lemma_from_int(-1);
        Self::lemma_unit_from_witness(Self::spec_minus_one(), Self::spec_minus_one());
    }

    /// A power of minus one is one for an even exponent, and minus one for
    /// an odd one.
    pub proof fn lemma_minus_one_pow(n: nat)
        ensures
            Self::spec_minus_one().pow_spec(n) == if n % 2 == 0 {
                Self::spec_one()
            } else {
                Self::spec_minus_one()
            },
        decreases n,
    {
        if n > 0 {
            Self::lemma_minus_one_pow((n - 1) as nat);
            Self::lemma_from_int_is_homomorphic(-1, -1);
            Self::lemma_from_int_is_homomorphic(-1, 1);
        }
    }

    /// Where the power `n` of `a` is one, the exponents count modulo `n`.
    pub proof fn lemma_pow_mod_order(a: Self, n: nat, e: nat)
        requires
            n > 0,
            a.pow_spec(n) == Self::spec_one(),
        ensures
            a.pow_spec(e) == a.pow_spec(e % n),
    {
        let q = e / n;
        let r = e % n;
        lemma_fundamental_div_mod(e as int, n as int);
        Self::lemma_pow_pow(a, n, q);
        Self::lemma_one_pow(q);
        Self::lemma_pow_add(a, n * q, r);
        Self::lemma_pow_canonical(a, r);
        Self::lemma_mul_one(a.pow_spec(r));
    }

    /// Negating is multiplying by minus one.
    pub proof fn lemma_neg_is_mul_minus_one(a: Self)
        ensures
            a.neg_spec() == Self::spec_minus_one().mul_spec(a),
    {
        let p = P as int;
        lemma_mul_mod_noop_left(-1, a@, p);
        assert(-1 * a@ == -a@);
    }

    pub proof fn lemma_pow_canonical(a: Self, n: nat)
        ensures
            a.pow_spec(n).is_canonical(),
    {
    }

    /// The power of a sum of exponents is the product of the powers.
    pub proof fn lemma_pow_add(a: Self, m: nat, n: nat)
        ensures
            a.pow_spec(m + n) == a.pow_spec(m).mul_spec(a.pow_spec(n)),
        decreases m,
    {
        if m == 0 {
            Self::lemma_pow_canonical(a, n);
            Self::lemma_mul_one(a.pow_spec(n));
        } else {
            Self::lemma_pow_add(a, (m - 1) as nat, n);
            assert(((m + n) - 1) as nat == ((m - 1) as nat) + n);
            Self::lemma_mul_associative(a, a.pow_spec((m - 1) as nat), a.pow_spec(n));
        }
    }

    pub proof fn lemma_pow_one(a: Self)
        requires
            a.is_canonical(),
        ensures
            a.pow_spec(1) == a,
    {
        assert(a.pow_spec(0) == Self::spec_one());
        Self::lemma_mul_one(a);
    }

    /// A power of one is one.
    pub proof fn lemma_one_pow(n: nat)
        ensures
            Self::spec_one().pow_spec(n) == Self::spec_one(),
        decreases n,
    {
        if n > 0 {
            Self::lemma_one_pow((n - 1) as nat);
            Self::lemma_mul_one(Self::spec_one());
        }
    }

    /// The power of a product is the product of the powers.
    pub proof fn lemma_pow_of_product(a: Self, b: Self, n: nat)
        ensures
            a.mul_spec(b).pow_spec(n) == a.pow_spec(n).mul_spec(b.pow_spec(n)),
        decreases n,
    {
        if n == 0 {
            Self::lemma_mul_one(Self::spec_one());
        } else {
            let k = (n - 1) as nat;
            Self::lemma_pow_of_product(a, b, k);
            let ak = a.pow_spec(k);
            let bk = b.pow_spec(k);
            // (a b)(ak bk) == (a ak)(b bk)
            Self::lemma_mul_associative(a, b, ak.mul_spec(bk));
            Self::lemma_mul_associative(b, ak, bk);
            Self::lemma_mul_commutative(b, ak);
            Self::lemma_mul_associative(ak, b, bk);
            Self::lemma_mul_associative(a, ak, b.mul_spec(bk));
        }
    }

    /// A power of a power is the power by the product of the exponents.
    pub proof fn lemma_pow_pow(a: Self, m: nat, n: nat)
        ensures
            a.pow_spec(m).pow_spec(n) == a.pow_spec(m * n),
        decreases n,
    {
        if n == 0 {
            assert(m * 0 == 0);
        } else {
            Self::lemma_pow_pow(a, m, (n - 1) as nat);
            Self::lemma_pow_add(a, m, m * ((n - 1) as nat));
            assert(m + m * ((n - 1) as nat) == m * n) by (nonlinear_arith)
                requires
                    n >= 1,
            ;
        }
    }

    /// The square of a power doubles the exponent.
    pub proof fn lemma_pow_double(a: Self, n: nat)
        ensures
            a.pow_spec(n).mul_spec(a.pow_spec(n)) == a.pow_spec(2 * n),
            a.mul_spec(a).pow_spec(n) == a.pow_spec(2 * n),
    {
        Self::lemma_pow_add(a, n, n);
        Self::lemma_pow_of_product(a, a, n);
    }

    pub proof fn lemma_inverse_of_product(a: Self, b: Self)
        ensures
            a.mul_spec(b).inverse_spec() == a.inverse_spec().mul_spec(b.inverse_spec()),
    {
        Self::lemma_pow_of_product(a, b, (P - 2) as nat);
    }

    /// The product of two units is a unit.
    pub proof fn lemma_unit_product(a: Self, b: Self)
        requires
            a.is_unit(),
            b.is_unit(),
        ensures
            a.mul_spec(b).is_unit(),
    {
        let ai = a.inverse_spec();
        let bi = b.inverse_spec();
        Self::lemma_inverse_of_product(a, b);
        // (a b)(ai bi) == (a ai)(b bi)
        Self::lemma_mul_associative(a, b, ai.mul_spec(bi));
        Self::lemma_mul_associative(b, ai, bi);
        Self::lemma_mul_commutative(b, ai);
        Self::lemma_mul_associative(ai, b, bi);
        Self::lemma_mul_associative(a, ai, b.mul_spec(bi));
        Self::lemma_mul_one(Self::spec_one());
    }

    /// An element with any inverse at all is a unit, and that inverse is
    /// `inverse_spec`.
    pub proof fn lemma_unit_from_witness(a: Self, b: Self)
        requires
            a.mul_spec(b) == Self::spec_one(),
            a.pow_spec((P - 1) as nat) == Self::spec_one(),
            b.is_canonical(),
        ensures
            a.is_unit(),
            a.inverse_spec() == b,
    {
        let e = (P - 2) as nat;
        Self::lemma_pow_canonical(a, e);
        assert(a.pow_spec((P - 1) as nat) == a.mul_spec(a.pow_spec(e)));
        // b == b (a a^e) == (b a) a^e == a^e
        Self::lemma_mul_one(b);
        Self::lemma_mul_associative(b, a, a.pow_spec(e));
        Self::lemma_mul_commutative(b, a);
        Self::lemma_mul_one(a.pow_spec(e));
    }

    /// `self`, squared `r` times: the power `2^r` of `self`.
    pub open spec fn squared_spec(self, r: nat) -> Self
        decreases r,
    {
        if r == 0 {
            self
        } else {
            self.squared_spec((r - 1) as nat).mul_spec(self.squared_spec((r - 1) as nat))
        }
    }

    /// Squaring `r` times is raising to the power `2^r`.
    pub proof fn lemma_squared_is_power(a: Self, r: nat)
        requires
            a.is_canonical(),
        ensures
            a.squared_spec(r) == a.pow_spec(pow2(r)),
        decreases r,
    {
        if r == 0 {
            lemma2_to64();
            Self::lemma_pow_one(a);
        } else {
            Self::lemma_squared_is_power(a, (r - 1) as nat);
            Self::lemma_pow_double(a, pow2((r - 1) as nat));
            lemma_pow2_unfold(r);
        }
    }

    /// One is a unit.
    pub proof fn lemma_one_is_unit()
        ensures
            Self::spec_one().is_unit(),
            Self::spec_one().is_canonical(),
    {
        Self::lemma_one_pow((P - 2) as nat);
        Self::lemma_mul_one(Self::spec_one());
    }

    /// The powers of a unit are units.
    pub proof fn lemma_pow_is_unit(a: Self, n: nat)
        requires
            a.is_unit(),
        ensures
            a.pow_spec(n).is_unit(),
        decreases n,
    {
        if n == 0 {
            Self::lemma_one_is_unit();
        } else {
            Self::lemma_pow_is_unit(a, (n - 1) as nat);
            Self::lemma_unit_product(a, a.pow_spec((n - 1) as nat));
        }
    }

    /// The squares of the generator of order `2^32`: `root_chain(31)` is
    /// minus one, so `root_chain(32)` is one.
    pub proof fn lemma_root_chain_ends()
        ensures
            Self::root_chain(31) == Self::spec_minus_one(),
            Self::root_chain(32) == Self::spec_one(),
    {
        assert(Self::root_chain(0) == Self::from_int(1753635133440165772));
        assert(Self::root_chain(1) == Self::from_int(4614640910117430873)) by {
            assert((1753635133440165772int * 1753635133440165772int) % (P as int) == 4614640910117430873int);
        };
        assert(Self::root_chain(2) == Self::from_int(9123114210336311365)) by {
            assert((4614640910117430873int * 4614640910117430873int) % (P as int) == 9123114210336311365int);
        };
        assert(Self::root_chain(3) == Self::from_int(16116352524544190054)) by {
            assert((9123114210336311365int * 9123114210336311365int) % (P as int) == 16116352524544190054int);
        };
        assert(Self::root_chain(4) == Self::from_int(6414415596519834757)) by {
            assert((16116352524544190054int * 16116352524544190054int) % (P as int) == 6414415596519834757int);
        };
        assert(Self::root_chain(5) == Self::from_int(1213594585890690845)) by {
            assert((6414415596519834757int * 6414415596519834757int) % (P as int) == 1213594585890690845int);
        };
        assert(Self::root_chain(6) == Self::from_int(17096174751763063430)) by {
            assert((1213594585890690845int * 1213594585890690845int) % (P as int) == 17096174751763063430int);
        };
        assert(Self::root_chain(7) == Self::from_int(5456943929260765144)) by {
            assert((17096174751763063430int * 17096174751763063430int) % (P as int) == 5456943929260765144int);
        };
        assert(Self::root_chain(8) == Self::from_int(9713644485405565297)) by {
            assert((5456943929260765144int * 5456943929260765144int) % (P as int) == 9713644485405565297int);
        };
        assert(Self::root_chain(9) == Self::from_int(16905767614792059275)) by {
            assert((9713644485405565297int * 9713644485405565297int) % (P as int) == 16905767614792059275int);
        };
        assert(Self::root_chain(10) == Self::from_int(5416168637041100469)) by {
            assert((16905767614792059275int * 16905767614792059275int) % (P as int) == 5416168637041100469int);
        };
        assert(Self::root_chain(11) == Self::from_int(17654865857378133588)) by {
            assert((5416168637041100469int * 5416168637041100469int) % (P as int) == 17654865857378133588int);
        };
        assert(Self::root_chain(12) == Self::from_int(3511170319078647661)) by {
            assert((17654865857378133588int * 17654865857378133588int) % (P as int) == 3511170319078647661int);
        };
        assert(Self::root_chain(13) == Self::from_int(18146160046829613826)) by {
            assert((3511170319078647661int * 3511170319078647661int) % (P as int) == 18146160046829613826int);
        };
        assert(Self::root_chain(14) == Self::from_int(9306717745644682924)) by {
            assert((18146160046829613826int * 18146160046829613826int) % (P as int) == 9306717745644682924int);
        };
        assert(Self::root_chain(15) == Self::from_int(12380578893860276750)) by {
            assert((9306717745644682924int * 9306717745644682924int) % (P as int) == 12380578893860276750int);
        };
        assert(Self::root_chain(16) == Self::from_int(6115771955107415310)) by {
            assert((12380578893860276750int * 12380578893860276750int) % (P as int) == 6115771955107415310int);
        };
        assert(Self::root_chain(17) == Self::from_int(17776499369601055404)) by {
            assert((6115771955107415310int * 6115771955107415310int) % (P as int) == 17776499369601055404int);
        };
        assert(Self::root_chain(18) == Self::from_int(16207902636198568418)) by {
            assert((17776499369601055404int * 17776499369601055404int) % (P as int) == 16207902636198568418int);
        };
        assert(Self::root_chain(19) == Self::from_int(1532612707718625687)) by {
            assert((16207902636198568418int * 16207902636198568418int) % (P as int) == 1532612707718625687int);
        };
        assert(Self::root_chain(20) == Self::from_int(17492915097719143606)) by {
            assert((1532612707718625687int * 1532612707718625687int) % (P as int) == 17492915097719143606int);
        };
        assert(Self::root_chain(21) == Self::from_int(455906449640507599)) by {
            assert((17492915097719143606int * 17492915097719143606int) % (P as int) == 455906449640507599int);
        };
        assert(Self::root_chain(22) == Self::from_int(11353340290879379826)) by {
            assert((455906449640507599int * 455906449640507599int) % (P as int) == 11353340290879379826int);
        };
        assert(Self::root_chain(23) == Self::from_int(1803076106186727246)) by {
            assert((11353340290879379826int * 11353340290879379826int) % (P as int) == 1803076106186727246int);
        };
        assert(Self::root_chain(24) == Self::from_int(13797081185216407910)) by {
            assert((1803076106186727246int * 1803076106186727246int) % (P as int) == 13797081185216407910int);
        };
        assert(Self::root_chain(25) == Self::from_int(17870292113338400769)) by {
            assert((13797081185216407910int * 13797081185216407910int) % (P as int) == 17870292113338400769int);
        };
        assert(Self::root_chain(26) == Self::from_int(549755813888)) by {
            assert((17870292113338400769int * 17870292113338400769int) % (P as int) == 549755813888int);
        };
        assert(Self::root_chain(27) == Self::from_int(70368744161280)) by {
            assert((549755813888int * 549755813888int) % (P as int) == 70368744161280int);
        };
        assert(Self::root_chain(28) == Self::from_int(17293822564807737345)) by {
            assert((70368744161280int * 70368744161280int) % (P as int) == 17293822564807737345int);
        };
        assert(Self::root_chain(29) == Self::from_int(18446744069397807105)) by {
            assert((17293822564807737345int * 17293822564807737345int) % (P as int) == 18446744069397807105int);
        };
        assert(Self::root_chain(30) == Self::from_int(281474976710656)) by {
            assert((18446744069397807105int * 18446744069397807105int) % (P as int) == 281474976710656int);
        };
        assert(Self::root_chain(31) == Self::from_int(18446744069414584320)) by {
            assert((281474976710656int * 281474976710656int) % (P as int) == 18446744069414584320int);
        };
        assert(Self::root_chain(31) == Self::spec_minus_one());
        assert(Self::root_chain(32) == Self::spec_one()) by {
            assert((18446744069414584320int * 18446744069414584320int) % (P as int) == 1int);
        };
    }

    /// `root_chain(j)` squared `k` times is `root_chain(j + k)`.
    pub proof fn lemma_root_chain_pow(j: nat, k: nat)
        ensures
            Self::root_chain(j).pow_spec(pow2(k)) == Self::root_chain(j + k),
        decreases k,
    {
        if k == 0 {
            lemma2_to64();
            Self::lemma_pow_one(Self::root_chain(j));
        } else {
            Self::lemma_root_chain_pow(j, (k - 1) as nat);
            Self::lemma_pow_double(Self::root_chain(j), pow2((k - 1) as nat));
            lemma_pow2_unfold(k);
            assert(j + k == ((j + (k - 1)) as nat) + 1);
        }
    }

    /// The chosen generator of order `2^log_n` has that order: its power
    /// `2^log_n` is one, and its power `2^(log_n - 1)` is minus one.
    pub proof fn lemma_primitive_root(log_n: nat)
        requires
            log_n <= 32,
        ensures
            Self::primitive_root_spec(log_n).pow_spec(pow2(log_n)) == Self::spec_one(),
            log_n >= 1 ==> Self::primitive_root_spec(log_n).pow_spec(pow2((log_n - 1) as nat))
                == Self::spec_minus_one(),
            Self::primitive_root_spec(log_n).is_canonical(),
    {
        Self::lemma_root_chain_ends();
        Self::lemma_root_chain_pow((32 - log_n) as nat, log_n);
        if log_n >= 1 {
            Self::lemma_root_chain_pow((32 - log_n) as nat, (log_n - 1) as nat);
        }
    }

    pub fn new(value: u64) -> (res: Self)
        ensures
            res == Self::from_int(value as int),
    {
        BFieldElement { value: value % P }
    }

    /// Learns that an element which executable code holds is canonical.
    pub fn is_canonical_exec(&self) -> (res: bool)
        ensures
            res,
            self.is_canonical(),
    {
        proof {
            use_type_invariant(self);
        }
        true
    }

    pub fn value(&self) -> (v: u64)
        ensures
            v == self@,
            v < P,
    {
        proof {
            use_type_invariant(self);
        }
        self.value
    }

    pub fn zero() -> (res: Self)
        ensures
            res == Self::spec_zero(),
    {
        BFieldElement { value: 0 }
    }

    pub fn one() -> (res: Self)
        ensures
            res == Self::spec_one(),
    {
        BFieldElement { value: 1 }
    }

    /// A generator of the field's multiplicative group.
    pub fn generator() -> (res: Self)
        ensures
            res == Self::from_int(7),
    {
        BFieldElement { value: 7 }
    }

    pub fn is_zero(&self) -> (res: bool)
        ensures
            res == (*self == Self::spec_zero()),
    {
        self.value == 0
    }

    pub fn is_one(&self) -> (res: bool)
        ensures
            res == (*self == Self::spec_one()),
    {
        self.value == 1
    }

    pub fn add(self, rhs: Self) -> (res: Self)
        ensures
            res == self.add_spec(rhs),
    {
        let s: u128 = self.value as u128 + rhs.value as u128;
        BFieldElement { value: (s % (P as u128)) as u64 }
    }

    pub fn neg(self) -> (res: Self)
        ensures
            res == self.neg_spec(),
    {
        proof {
            use_type_invariant(self);
        }
        if self.value == 0 {
            self
        } else {
            BFieldElement { value: P - self.value }
        }
    }

    pub fn sub(self, rhs: Self) -> (res: Self)
        ensures
            res == self.sub_spec(rhs),
    {
        proof {
            use_type_invariant(self);
            use_type_invariant(rhs);
        }
        if self.value >= rhs.value {
            BFieldElement { value: self.value - rhs.value }
        } else {
            BFieldElement { value: P - (rhs.value - self.value) }
        }
    }

    pub fn mul(self, rhs: Self) -> (res: Self)
        ensures
            res == self.mul_spec(rhs),
    {
        assert(self.value as u128 * rhs.value as u128 <= 0xffff_ffff_ffff_ffff
            * 0xffff_ffff_ffff_ffff) by (nonlinear_arith);
        let s: u128 = self.value as u128 * rhs.value as u128;
        BFieldElement { value: (s % (P as u128)) as u64 }
    }

    pub fn square(self) -> (res: Self)
        ensures
            res == self.mul_spec(self),
    {
        self.mul(self)
    }

    /// `self` to the power `exp`, by squaring and multiplying.
    pub fn mod_pow(self, exp: u64) -> (res: Self)
        ensures
            res == self.pow_spec(exp as nat),
    {
        let mut acc = Self::one();
        let mut base = self;
        let mut e: u64 = exp;
        proof {
            Self::lemma_pow_canonical(self, exp as nat);
            Self::lemma_mul_one(self.pow_spec(exp as nat));
        }
        while e > 0
            invariant
                acc.mul_spec(base.pow_spec(e as nat)) == self.pow_spec(exp as nat),
            decreases e,
        {
            proof {
                let h = (e / 2) as nat;
                Self::lemma_pow_double(base, h);
                if e % 2 == 1 {
                    assert(e as nat == 1 + 2 * h);
                    assert(base.pow_spec(e as nat) == base.mul_spec(base.pow_spec(2 * h)));
                    Self::lemma_mul_associative(acc, base, base.pow_spec(2 * h));
                } else {
                    assert(e as nat == 2 * h);
                }
            }
            if e % 2 == 1 {
                acc = acc.mul(base);
            }
            base = base.mul(base);
            e = e / 2;
        }
        proof {
            use_type_invariant(acc);
            Self::lemma_mul_one(acc);
        }
        acc
    }

    pub fn mod_pow_u32(self, exp: u32) -> (res: Self)
        ensures
            res == self.pow_spec(exp as nat),
    {
        self.mod_pow(exp as u64)
    }

    /// Whether the element has a multiplicative inverse.
    pub fn check_unit(&self) -> (res: bool)
        ensures
            res == self.is_unit(),
    {
        self.mul(self.inverse()).is_one()
    }

    /// The multiplicative inverse of a unit, and zero for zero.
    pub fn inverse(self) -> (res: Self)
        ensures
            res == self.inverse_spec(),
    {
        self.mod_pow(P - 2)
    }
}

impl BFieldElement {
    /// The product of the elements of `s`, in order.
    pub open spec fn product_spec(s: Seq<Self>) -> Self
        decreases s.len(),
    {
        if s.len() == 0 {
            Self::spec_one()
        } else {
            Self::product_spec(s.drop_last()).mul_spec(s.last())
        }
    }

    /// A product of units is a unit.
    pub proof fn lemma_product_is_unit(s: Seq<Self>)
        requires
            forall|i: int| 0 <= i < s.len() ==> (#[trigger] s[i]).is_unit(),
        ensures
            Self::product_spec(s).is_unit(),
            Self::product_spec(s).is_canonical(),
        decreases s.len(),
    {
        if s.len() == 0 {
            Self::lemma_one_pow((P - 2) as nat);
            Self::lemma_mul_one(Self::spec_one());
        } else {
            Self::lemma_product_is_unit(s.drop_last());
            Self::lemma_unit_product(Self::product_spec(s.drop_last()), s.last());
        }
    }

    /// Multiplying by a unit and then by its inverse changes nothing.
    pub proof fn lemma_unit_cancels(u: Self, v: Self)
        requires
            u.is_unit(),
            v.is_canonical(),
        ensures
            v.mul_spec(u.inverse_spec()).mul_spec(u) == v,
            v.mul_spec(u).mul_spec(u.inverse_spec()) == v,
    {
        Self::lemma_mul_associative(v, u.inverse_spec(), u);
        Self::lemma_mul_associative(v, u, u.inverse_spec());
        Self::lemma_mul_commutative(u, u.inverse_spec());
        Self::lemma_mul_one(v);
    }

    /// The chosen generator of the subgroup of order `n`, where `n` is a
    /// power of two up to `2^32`, and `None` for any other `n`.
    pub fn primitive_root_of_unity(n: u64) -> (res: Option<Self>)
        ensures
            res == if is_power_of_two_spec(n as nat) && log_2_ceil_spec(n as nat) <= 32 {
                Some(Self::primitive_root_spec(log_2_ceil_spec(n as nat)))
            } else {
                None
            },
            res matches Some(root) ==> root.pow_spec(n as nat) == Self::spec_one() && (n >= 2
                ==> root.pow_spec((n / 2) as nat) == Self::spec_minus_one()),
    {
        let (k, p) = ceil_power_of_two(n);
        if p != n as u128 || k > 32 {
            return None;
        }
        proof {
            Self::lemma_primitive_root(k as nat);
            if k >= 1 {
                lemma_pow2_unfold(k as nat);
            } else {
                lemma2_to64();
            }
        }
        let mut w = BFieldElement { value: ROOT_OF_ORDER_2_32 };
        let mut j: u64 = 0;
        proof {
            assert(w == Self::root_chain(0)) by {
                assert((ROOT_OF_ORDER_2_32 as int) % (P as int) == ROOT_OF_ORDER_2_32 as int);
            };
        }
        while j < 32 - k
            invariant
                j <= 32 - k,
                k <= 32,
                w == Self::root_chain(j as nat),
            decreases 32 - k - j,
        {
            w = w.mul(w);
            j = j + 1;
        }
        Some(w)
    }

    /// The inverses of all elements of `input`, for the price of one
    /// inversion.
    pub fn batch_inversion(input: &Vec<Self>) -> (res: Vec<Self>)
        requires
            forall|i: int| 0 <= i < input@.len() ==> (#[trigger] input@[i]).is_unit(),
        ensures
            res@.len() == input@.len(),
            forall|i: int| 0 <= i < input@.len() ==> #[trigger] res@[i] == input@[i].inverse_spec(),
    {
        let n = input.len();
        let mut res: Vec<Self> = Vec::new();
        if n == 0 {
            return res;
        }
        let mut prefix: Vec<Self> = Vec::new();
        let mut acc = Self::one();
        let mut i: usize = 0;
        while i < n
            invariant
                i <= n,
                n == input@.len(),
                prefix@.len() == i,
                res@.len() == i,
                acc == Self::product_spec(input@.take(i as int)),
                forall|j: int|
                    0 <= j < i ==> #[trigger] prefix@[j] == Self::product_spec(
                        input@.take(j + 1),
                    ),
            decreases n - i,
        {
            proof {
                assert(input@.take(i + 1).drop_last() =~= input@.take(i as int));
            }
            acc = acc.mul(input[i]);
            prefix.push(acc);
            res.push(Self::zero());
            i = i + 1;
        }
        let mut inv = acc.inverse();
        let mut i: usize = n - 1;
        while i > 0
            invariant
                i < n,
                n == input@.len(),
                prefix@.len() == n,
                res@.len() == n,
                forall|j: int| 0 <= j < input@.len() ==> (#[trigger] input@[j]).is_unit(),
                inv == Self::product_spec(input@.take(i + 1)).inverse_spec(),
                forall|j: int|
                    0 <= j < n ==> #[trigger] prefix@[j] == Self::product_spec(
                        input@.take(j + 1),
                    ),
                forall|j: int| i < j < n ==> #[trigger] res@[j] == input@[j].inverse_spec(),
            decreases i,
        {
            let x = input[i];
            let below = prefix[i - 1];
            proof {
                use_type_invariant(x);
                let head = input@.take(i as int);
                assert(input@.take(i + 1).drop_last() =~= head);
                assert(input@.take(i + 1).last() == x);
                Self::lemma_product_is_unit(head);
                Self::lemma_inverse_of_product(below, x);
                Self::lemma_pow_canonical(x, (P - 2) as nat);
                Self::lemma_pow_canonical(below, (P - 2) as nat);
                // (inv(below) inv(x)) below == inv(x)
                Self::lemma_mul_commutative(below.inverse_spec(), x.inverse_spec());
                Self::lemma_mul_commutative(below, below.inverse_spec());
                Self::lemma_unit_cancels(below, x.inverse_spec());
                // (inv(below) inv(x)) x == inv(below)
                Self::lemma_mul_commutative(x, x.inverse_spec());
                Self::lemma_mul_associative(below.inverse_spec(), x.inverse_spec(), x);
                Self::lemma_mul_one(below.inverse_spec());
            }
            res.set(i, inv.mul(below));
            inv = inv.mul(x);
            i = i - 1;
        }
        proof {
            let x = input@[0];
            assert(input@.take(1).drop_last() =~= Seq::<Self>::empty());
            assert(input@.take(1).last() == x);
            assert(Self::product_spec(Seq::<Self>::empty()) == Self::spec_one());
            assert(Self::product_spec(input@.take(1)) == Self::spec_one().mul_spec(x));
            Self::lemma_inverse_of_product(Self::spec_one(), x);
            Self::lemma_one_pow((P - 2) as nat);
            Self::lemma_pow_canonical(x, (P - 2) as nat);
            Self::lemma_mul_one(x.inverse_spec());
        }
        res.set(0, inv);
        res
    }

    /// The powers of `self` from the power zero on, up to the first that is
    /// one again, and no more than `max` of them if `max` is given. There
    /// is always the power zero.
    pub fn get_cyclic_group_elements(&self, max: Option<usize>) -> (res: Vec<Self>)
        ensures
            res@.len() >= 1,
            forall|i: int| 0 <= i < res@.len() ==> #[trigger] res@[i] == self.pow_spec(i as nat),
            forall|i: int|
                1 <= i < res@.len() ==> #[trigger] self.pow_spec(i as nat) != Self::spec_one(),
            self.pow_spec(res@.len()) == Self::spec_one() || res@.len() == usize::MAX || (max
                matches Some(m) && res@.len() >= m),
    {
        let mut res: Vec<Self> = Vec::new();
        res.push(Self::one());
        let mut val = *self;
        proof {
            use_type_invariant(self);
            Self::lemma_pow_one(*self);
        }
        loop
            invariant
                1 <= res@.len() <= usize::MAX,
                val == self.pow_spec(res@.len()),
                forall|i: int|
                    0 <= i < res@.len() ==> #[trigger] res@[i] == self.pow_spec(i as nat),
                forall|i: int|
                    1 <= i < res@.len() ==> #[trigger] self.pow_spec(i as nat)
                        != Self::spec_one(),
            ensures
                res@.len() >= 1,
                forall|i: int|
                    0 <= i < res@.len() ==> #[trigger] res@[i] == self.pow_spec(i as nat),
                forall|i: int|
                    1 <= i < res@.len() ==> #[trigger] self.pow_spec(i as nat)
                        != Self::spec_one(),
                self.pow_spec(res@.len()) == Self::spec_one() || res@.len() == usize::MAX || (max
                    matches Some(m) && res@.len() >= m),
            decreases usize::MAX - res@.len(),
        {
            let reached = match max {
                Some(m) => res.len() >= m,
                None => false,
            };
            if val.is_one() || reached || res.len() == usize::MAX {
                break ;
            }
            proof {
                Self::lemma_mul_commutative(val, *self);
            }
            res.push(val);
            val = val.mul(*self);
        }
        res
    }
}

} // verus!
