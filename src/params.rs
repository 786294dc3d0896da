use vstd::arithmetic::power2::pow2;
use vstd::prelude::*;

verus! {

/// Sizes that steer the block-frontier search, derived from the vertex
/// count alone.
#[derive(Debug, Clone, Copy)]
pub struct BmsspParams {
    /// Tree-size threshold for pivot selection.
    pub t: usize,
    /// Block size: how many frontier entries are settled together.
    pub k: usize,
    /// Level count for recursive variants.
    pub l: usize,
}

/// The binary logarithm of `n`, rounded down (zero for `n <= 1`).
pub open spec fn floor_log2(n: nat) -> nat
    decreases n,
{
    if n <= 1 {
        0
    } else {
        1 + floor_log2(n / 2)
    }
}

/// The binary logarithm of `n` in thousandths, its fraction taken by
/// straight-line interpolation between the neighbouring powers of two.
pub open spec fn log2_milli(n: nat) -> nat {
    let lg = floor_log2(n);
    let p = pow2(lg);
    lg * 1000 + ((n - p) as nat * 1000) / p
}

/// The natural logarithm of `n` in thousandths: the interpolated binary
/// logarithm times 693 (the thousandths of ln 2), and never below 1000 (that
/// is, never below one).
pub open spec fn log_milli(n: nat) -> nat {
    let l = log2_milli(n) * 693 / 1000;
    if l < 1000 {
        1000
    } else {
        l
    }
}

/// `a / b` rounded up.
pub open spec fn ceil_div(a: nat, b: nat) -> nat
    recommends
        b > 0,
{
    ((a + b - 1) as nat) / b
}

/// `x` raised to at least `lo` and then cut to at most `hi`.
pub open spec fn clamp(x: nat, lo: nat, hi: nat) -> nat {
    let y = if x < lo {
        lo
    } else {
        x
    };
    if y > hi {
        hi
    } else {
        y
    }
}

/// Block size: one and a half times the logarithm, rounded up, within `[2, n]`.
pub open spec fn spec_block_size(n: nat) -> nat {
    if n == 0 {
        0
    } else if n <= 4 {
        2
    } else {
        clamp(ceil_div(3 * log_milli(n), 2000), 2, n)
    }
}

/// Pivot threshold: a quarter of the squared logarithm, rounded up, within
/// `[2, n / 2]`.
pub open spec fn spec_threshold(n: nat) -> nat {
    if n == 0 {
        0
    } else if n <= 4 {
        2
    } else {
        clamp(ceil_div(log_milli(n) * log_milli(n), 4_000_000), 2, n / 2)
    }
}

/// Level count: four fifths of the logarithm, rounded up, at least one.
pub open spec fn spec_levels(n: nat) -> nat {
    if n == 0 {
        0
    } else if n <= 4 {
        1
    } else {
        let l = ceil_div(4 * log_milli(n), 5000);
        if l < 1 {
            1
        } else {
            l
        }
    }
}

/// The power of two below `n`: `2^floor_log2(n) <= n < 2^(floor_log2(n) + 1)`.
proof fn lemma_floor_log2_bounds(n: nat)
    requires
        n >= 1,
    ensures
        pow2(floor_log2(n)) <= n < 2 * pow2(floor_log2(n)),
    decreases n,
{
    vstd::arithmetic::power2::lemma2_to64();
    if n > 1 {
        lemma_floor_log2_bounds(n / 2);
        vstd::arithmetic::power2::lemma_pow2_unfold(floor_log2(n));
    }
}

proof fn lemma_floor_log2_below(n: nat, k: nat)
    requires
        k >= 1,
        n < vstd::arithmetic::power2::pow2(k),
    ensures
        floor_log2(n) < k,
    decreases k,
{
    if n > 1 {
        vstd::arithmetic::power2::lemma_pow2_unfold(k);
        if k >= 2 {
            lemma_floor_log2_below(n / 2, (k - 1) as nat);
        } else {
            vstd::arithmetic::power2::lemma2_to64();
        }
    }
}

impl BmsspParams {
    /// Derives the parameters from the vertex count `n`.
    pub fn from_n(n: usize) -> (r: BmsspParams)
        ensures
            r.t == spec_threshold(n as nat),
            r.k == spec_block_size(n as nat),
            r.l == spec_levels(n as nat),
    {
        if n == 0 {
            return BmsspParams { t: 0, k: 0, l: 0 };
        }
        if n <= 4 {
            return BmsspParams { t: 2, k: 2, l: 1 };
        }
        let mut m: usize = n;
        let mut lg: u64 = 0;
        proof {
            vstd::arithmetic::power2::lemma2_to64();
            lemma_floor_log2_below(n as nat, 64);
        }
        while m > 1
            invariant
                m >= 1,
                lg + floor_log2(m as nat) == floor_log2(n as nat),
                floor_log2(n as nat) < 64,
            decreases m,
        {
            m = m / 2;
            lg = lg + 1;
        }
        let mut p: u64 = 1;
        let mut i: u64 = 0;
        proof {
            lemma_floor_log2_bounds(n as nat);
        }
        while i < lg
            invariant
                i <= lg,
                lg == floor_log2(n as nat),
                p == pow2(i as nat),
                pow2(lg as nat) <= n,
            decreases lg - i,
        {
            proof {
                vstd::arithmetic::power2::lemma_pow2_unfold((i + 1) as nat);
                if i + 1 < lg {
                    vstd::arithmetic::power2::lemma_pow2_strictly_increases((i + 1) as nat, lg as nat);
                }
            }
            p = p * 2;
            i = i + 1;
        }
        let rest: u128 = (n as u128 - p as u128) * 1000 / p as u128;
        proof {
            assert(n < 2 * p);
            assert((n as u128 - p as u128) * 1000 < p * 1000) by (nonlinear_arith)
                requires
                    n < 2 * p,
                    p <= n,
            ;
            vstd::arithmetic::power2::lemma_pow2_pos(lg as nat);
            vstd::arithmetic::div_mod::lemma_div_by_multiple_is_strongly_ordered(
                ((n - p) * 1000) as int,
                (p * 1000) as int,
                1000,
                p as int,
            );
            assert((1000 * p as int) / (p as int) == 1000) by (nonlinear_arith)
                requires
                    p > 0,
            ;
        }
        let l2: u64 = lg * 1000 + rest as u64;
        let raw: u64 = l2 * 693 / 1000;
        let log_n: u64 = if raw < 1000 {
            1000
        } else {
            raw
        };
        assert(log_n == log_milli(n as nat));
        assert(log_n <= 44352);
        assert(log_n * log_n <= 44352 * 44352) by (nonlinear_arith)
            requires
                log_n <= 44352,
        ;
        let k_raw: u64 = (3 * log_n + 1999) / 2000;
        let k: usize = if k_raw < 2 {
            2
        } else if k_raw > n as u64 {
            n
        } else {
            k_raw as usize
        };
        let t_raw: u64 = (log_n * log_n + 3_999_999) / 4_000_000;
        let t: usize = if t_raw < 2 {
            if 2 > n / 2 {
                n / 2
            } else {
                2
            }
        } else if t_raw > (n / 2) as u64 {
            n / 2
        } else {
            t_raw as usize
        };
        let l_raw: u64 = (4 * log_n + 4999) / 5000;
        let l: usize = if l_raw < 1 {
            1
        } else {
            l_raw as usize
        };
        BmsspParams { t, k, l }
    }
}

/// The derived block size is at least two and at most `n` once the graph
/// has five vertices or more.
pub proof fn lemma_block_size_bounds(n: nat)
    requires
        n >= 5,
    ensures
        2 <= spec_block_size(n) <= n,
{
}

} // verus!
