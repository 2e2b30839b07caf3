use vstd::arithmetic::div_mod::lemma_fundamental_div_mod;
use vstd::arithmetic::power::{lemma0_pow, lemma1_pow, lemma_pow0, lemma_pow_increases, pow};
use vstd::arithmetic::power2::{
    lemma2_to64, lemma2_to64_rest, lemma_pow2, lemma_pow2_adds, lemma_pow2_strictly_increases, pow2,
};
use vstd::prelude::*;

verus! {

/// The entropy estimate `floor(len * log2(pool))` exceeds `bits`.
///
/// Stated without logarithms: `floor(len * log2(pool)) > bits` holds exactly when
/// `len * log2(pool) >= bits + 1`, that is when `pool^len >= 2^(bits + 1)`. A pool of
/// zero gives no entropy.
pub open spec fn entropy_exceeds(pool: nat, len: nat, bits: nat) -> bool {
    pow(pool as int, len) >= pow2(bits + 1)
}

proof fn lemma_pow_step(b: int, e: nat)
    ensures
        pow(b, e + 1) == b * pow(b, e),
{
    reveal(pow);
}

/// Whether `base^exp >= target`.
fn pow_at_least(base: u64, exp: usize, target: u128) -> (r: bool)
    ensures
        r == (pow(base as int, exp as nat) >= target),
{
    if base == 0 {
        proof {
            if exp == 0 {
                lemma_pow0(0);
            } else {
                lemma0_pow(exp as nat);
            }
        }
        return if exp == 0 {
            1 >= target
        } else {
            0 >= target
        };
    }
    let b = base as u128;
    let mut acc: u128 = 1;
    let mut i: usize = 0;
    proof {
        lemma_pow0(base as int);
    }
    while i < exp
        invariant
            b == base,
            1 <= base,
            i <= exp,
            acc as int == pow(base as int, i as nat),
        decreases exp - i,
    {
        if acc >= target {
            proof {
                lemma_pow_increases(base as nat, i as nat, exp as nat);
            }
            return true;
        }
        match acc.checked_mul(b) {
            None => {
                proof {
                    lemma_pow_step(base as int, i as nat);
                    lemma_pow_increases(base as nat, (i + 1) as nat, exp as nat);
                }
                return true;
            },
            Some(next) => {
                proof {
                    lemma_pow_step(base as int, i as nat);
                    assert(next == acc * b);
                    assert(pow(base as int, (i + 1) as nat) == next);
                }
                acc = next;
            },
        }
        i = i + 1;
    }
    acc >= target
}

proof fn lemma_pow2_values()
    ensures
        pow2(0) == 1,
        pow2(1) == 2,
        pow2(2) == 4,
        pow2(127) == 0x8000_0000_0000_0000_0000_0000_0000_0000,
{
    lemma2_to64();
    lemma2_to64_rest();
    lemma_pow2_adds(63, 64);
}

/// `2^k`.
fn two_to(k: u32) -> (r: u128)
    requires
        k <= 127,
    ensures
        r == pow2(k as nat),
{
    let mut r: u128 = 1;
    let mut i: u32 = 0;
    proof {
        lemma_pow2_values();
    }
    while i < k
        invariant
            i <= k <= 127,
            r == pow2(i as nat),
        decreases k - i,
    {
        proof {
            lemma_pow2_adds(i as nat, 1);
            lemma_pow2_strictly_increases(i as nat, 127);
            lemma_pow2_values();
        }
        r = r * 2;
        i = i + 1;
    }
    r
}

/// For `b >= 1`: `b * x >= t` exactly when `x >= c`, where `c` is the ceiling of `t / b`.
proof fn lemma_ceil_threshold(b: int, x: int, t: int, c: int)
    requires
        b >= 1,
        c * b >= t,
        (c - 1) * b < t,
    ensures
        (b * x >= t) <==> (x >= c),
{
    if x >= c {
        assert(b * x >= c * b) by (nonlinear_arith)
            requires
                x >= c,
                b >= 1,
        ;
    } else {
        assert(b * x <= (c - 1) * b) by (nonlinear_arith)
            requires
                x <= c - 1,
                b >= 1,
        ;
    }
}

/// Whether `base^exp >= 2^k`.
fn pow_reaches_pow2(base: u64, exp: usize, k: u32) -> (r: bool)
    requires
        k <= 129,
    ensures
        r == (pow(base as int, exp as nat) >= pow2(k as nat)),
{
    if k <= 127 {
        return pow_at_least(base, exp, two_to(k));
    }
    proof {
        lemma_pow2_strictly_increases(0, k as nat);
        lemma_pow2_values();
        lemma_pow2_adds(2, (k - 2) as nat);
    }
    if exp == 0 {
        proof {
            lemma_pow0(base as int);
        }
        return false;
    }
    if base <= 1 {
        proof {
            if base == 0 {
                lemma0_pow(exp as nat);
                assert(pow(base as int, exp as nat) == 0);
            } else {
                lemma1_pow(exp as nat);
                assert(pow(base as int, exp as nat) == 1);
            }
        }
        return false;
    }
    if base == 2 {
        proof {
            lemma_pow2(exp as nat);
            if exp >= k {
                if exp > k {
                    lemma_pow2_strictly_increases(k as nat, exp as nat);
                }
            } else {
                lemma_pow2_strictly_increases(exp as nat, k as nat);
            }
        }
        return exp >= k as usize;
    }
    // base >= 3: base^exp >= 2^k exactly when base^(exp - 1) >= ceil(2^k / base).

    let h = two_to(k - 2);
    let b = base as u128;
    let q = h / b;
    let rem = h % b;
    proof {
        lemma_fundamental_div_mod(h as int, b as int);
        assert(q <= h / 3) by (nonlinear_arith)
            requires
                h == b * q + rem,
                0 <= rem,
                b >= 3,
                q >= 0,
        ;
        assert(h <= 0x8000_0000_0000_0000_0000_0000_0000_0000) by {
            if k - 2 < 127 {
                lemma_pow2_strictly_increases((k - 2) as nat, 127);
            }
            lemma_pow2_values();
        }
    }
    let d = (4 * rem + b - 1) / b;
    let c = 4 * q + d;
    proof {
        lemma_fundamental_div_mod((4 * rem + b - 1) as int, b as int);
        let e = (4 * rem + b - 1) % (b as int);
        assert(c * b >= 4 * h && (c - 1) * b < 4 * h) by (nonlinear_arith)
            requires
                h == b * q + rem,
                4 * rem + b - 1 == b * d + e,
                0 <= e < b,
                c == 4 * q + d,
        ;
        lemma_ceil_threshold(b as int, pow(base as int, (exp - 1) as nat), 4 * h, c as int);
        lemma_pow_step(base as int, (exp - 1) as nat);
    }
    pow_at_least(base, exp - 1, c)
}

/// Whether the entropy estimate `floor(len * log2(pool))` exceeds `bits`.
pub fn entropy_above(pool: u64, len: usize, bits: u32) -> (r: bool)
    requires
        bits <= 128,
    ensures
        r == entropy_exceeds(pool as nat, len as nat, bits as nat),
{
    pow_reaches_pow2(pool, len, bits + 1)
}

} // verus!
