//! Powers of two and binary logarithms of machine integers.

use vstd::arithmetic::power2::*;
use vstd::prelude::*;

verus! {

/// The least `k` with `x <= 2^k`; zero for zero.
pub open spec fn log_2_ceil_spec(x: nat) -> nat
    decreases x,
{
    if x <= 1 {
        0
    } else {
        1 + log_2_ceil_spec((x + 1) / 2)
    }
}

/// The greatest `k` with `2^k <= x`; zero for zero.
pub open spec fn log_2_floor_spec(x: nat) -> nat
    decreases x,
{
    if x <= 1 {
        0
    } else {
        1 + log_2_floor_spec(x / 2)
    }
}

/// Whether `x` is `2^k` for some `k`.
pub open spec fn is_power_of_two_spec(x: nat) -> bool {
    x == pow2(log_2_ceil_spec(x))
}

/// `log_2_ceil_spec(x)` is the one `k` with `2^(k-1) < x <= 2^k`.
pub proof fn lemma_log_2_ceil_unique(x: nat, k: nat)
    requires
        1 <= x <= pow2(k),
        k >= 1 ==> pow2((k - 1) as nat) < x,
    ensures
        log_2_ceil_spec(x) == k,
    decreases x,
{
    lemma_pow2_pos(k);
    if x <= 1 {
        if k >= 1 {
            lemma_pow2_pos((k - 1) as nat);
        }
    } else {
        if k == 0 {
            lemma2_to64();
        }
        lemma_pow2_unfold(k);
        if k >= 2 {
            lemma_pow2_unfold((k - 1) as nat);
        } else {
            lemma2_to64();
        }
        lemma_log_2_ceil_unique((x + 1) / 2, (k - 1) as nat);
    }
}

/// `log_2_ceil_spec(x)` is the least `k` with `x <= 2^k`.
pub proof fn lemma_log_2_ceil_bounds(x: nat)
    requires
        x >= 1,
    ensures
        x <= pow2(log_2_ceil_spec(x)),
        log_2_ceil_spec(x) >= 1 ==> pow2((log_2_ceil_spec(x) - 1) as nat) < x,
    decreases x,
{
    lemma2_to64();
    if x > 1 {
        let y = (x + 1) / 2;
        lemma_log_2_ceil_bounds(y);
        lemma_pow2_unfold(log_2_ceil_spec(x));
        if log_2_ceil_spec(y) >= 1 {
            lemma_pow2_unfold(log_2_ceil_spec(y));
        }
    }
}

/// `log_2_floor_spec(x)` is the one `k` with `2^k <= x < 2^(k+1)`.
pub proof fn lemma_log_2_floor_unique(x: nat, k: nat)
    requires
        pow2(k) <= x < pow2(k + 1),
    ensures
        log_2_floor_spec(x) == k,
    decreases x,
{
    lemma_pow2_pos(k);
    lemma_pow2_unfold(k + 1);
    if x <= 1 {
        if k >= 1 {
            lemma_pow2_unfold(k);
            lemma_pow2_pos((k - 1) as nat);
        }
    } else {
        if k == 0 {
            lemma2_to64();
        } else {
            lemma_pow2_unfold(k);
            lemma_log_2_floor_unique(x / 2, (k - 1) as nat);
        }
    }
}

/// `2^log_2_floor_spec(x) <= x`.
pub proof fn lemma_log_2_floor_bounds(x: nat)
    requires
        x >= 1,
    ensures
        pow2(log_2_floor_spec(x)) <= x,
    decreases x,
{
    lemma2_to64();
    if x > 1 {
        lemma_log_2_floor_bounds(x / 2);
        lemma_pow2_unfold(log_2_floor_spec(x));
    }
}

/// A power of two is one in the sense of `is_power_of_two_spec`, and both
/// logarithms give its exponent.
pub proof fn lemma_pow2_is_power_of_two(k: nat)
    ensures
        is_power_of_two_spec(pow2(k)),
        log_2_ceil_spec(pow2(k)) == k,
        log_2_floor_spec(pow2(k)) == k,
{
    lemma_pow2_pos(k);
    if k >= 1 {
        lemma_pow2_strictly_increases((k - 1) as nat, k);
    }
    lemma_pow2_strictly_increases(k, k + 1);
    lemma_log_2_ceil_unique(pow2(k), k);
    lemma_log_2_floor_unique(pow2(k), k);
}

/// Half a power of two above one is a power of two, with one less for its
/// logarithm.
pub proof fn lemma_half_power_of_two(x: nat)
    requires
        is_power_of_two_spec(x),
        x >= 2,
    ensures
        is_power_of_two_spec(x / 2),
        log_2_ceil_spec(x) >= 1,
        log_2_ceil_spec(x / 2) == log_2_ceil_spec(x) - 1,
        x % 2 == 0,
        x / 2 >= 1,
{
    let k = log_2_ceil_spec(x);
    lemma2_to64();
    lemma_pow2_unfold(k);
    lemma_pow2_is_power_of_two((k - 1) as nat);
}

/// The least power of two that is at least `x`, with its exponent.
pub fn ceil_power_of_two(x: u64) -> (res: (u64, u128))
    ensures
        res.0 == log_2_ceil_spec(x as nat),
        res.1 == pow2(res.0 as nat),
        res.0 <= 64,
{
    let mut k: u64 = 0;
    let mut p: u128 = 1;
    proof {
        lemma2_to64();
    }
    while p < x as u128
        invariant
            p == pow2(k as nat),
            k <= 64,
            k >= 1 ==> pow2((k - 1) as nat) < x,
        decreases 64 - k,
    {
        proof {
            lemma2_to64();
            lemma2_to64_rest();
            lemma_pow2_pos(k as nat);
            if k >= 64 {
                if k > 64 {
                    lemma_pow2_strictly_increases(64, k as nat);
                }
                assert(false);
            }
            lemma_pow2_unfold((k + 1) as nat);
        }
        p = p * 2;
        k = k + 1;
    }
    proof {
        if x >= 1 {
            lemma_log_2_ceil_unique(x as nat, k as nat);
        } else {
            lemma2_to64();
        }
    }
    (k, p)
}

pub fn log_2_ceil(x: u64) -> (res: u64)
    ensures
        res == log_2_ceil_spec(x as nat),
        res <= 64,
{
    ceil_power_of_two(x).0
}

pub fn log_2_floor(x: u64) -> (res: u64)
    ensures
        res == log_2_floor_spec(x as nat),
        res <= 63,
{
    let mut k: u64 = 0;
    let mut y: u64 = x;
    proof {
        lemma2_to64();
        lemma2_to64_rest();
        if x >= 1 {
            lemma_log_2_floor_bounds(x as nat);
            if log_2_floor_spec(x as nat) > 63 {
                if log_2_floor_spec(x as nat) > 64 {
                    lemma_pow2_strictly_increases(64, log_2_floor_spec(x as nat));
                }
            }
        }
    }
    while y > 1
        invariant
            log_2_floor_spec(x as nat) == k + log_2_floor_spec(y as nat),
            k + log_2_floor_spec(y as nat) <= 63,
        decreases y,
    {
        y = y / 2;
        k = k + 1;
    }
    k
}

pub fn is_power_of_two(x: u64) -> (res: bool)
    ensures
        res == is_power_of_two_spec(x as nat),
{
    let (_, p) = ceil_power_of_two(x);
    p == x as u128
}

/// A number up to `2^k` has a logarithm up to `k`.
pub proof fn lemma_log_2_ceil_at_most(x: nat, k: nat)
    requires
        x <= pow2(k),
    ensures
        log_2_ceil_spec(x) <= k,
{
    if x >= 1 {
        let l = log_2_ceil_spec(x);
        lemma_log_2_ceil_bounds(x);
        if l > k {
            if l - 1 > k {
                lemma_pow2_strictly_increases(k, (l - 1) as nat);
            }
        }
    }
}

} // verus!
