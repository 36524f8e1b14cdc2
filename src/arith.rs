//! Exact integer arithmetic for the moving averages.
use vstd::arithmetic::div_mod::{
    lemma_div_is_ordered, lemma_div_multiples_vanish, lemma_fundamental_div_mod,
    lemma_fundamental_div_mod_converse,
};
use vstd::prelude::*;

verus! {

/// Largest magnitude of any price or moving-average value.
pub const PRICE_MAX: u64 = 0xffff_ffff_ffff_ffff;

/// One step of an exponential moving average with smoothing `2 / (period + 1)`,
/// rounded toward negative infinity.
pub open spec fn ema_next(ema: int, x: int, period: int) -> int {
    ema + (x - ema) * 2 / (period + 1)
}

/// Sum of `s[lo..hi]`.
pub open spec fn sum_range(s: Seq<int>, lo: int, hi: int) -> int
    decreases hi - lo,
{
    if hi <= lo {
        0
    } else {
        sum_range(s, lo, hi - 1) + s[hi - 1]
    }
}

/// Simple average of `s[lo..hi]`, rounded toward negative infinity.
pub open spec fn mean_range(s: Seq<int>, lo: int, hi: int) -> int {
    sum_range(s, lo, hi) / (hi - lo)
}

/// An average step stays between the previous average and the new value.
pub proof fn lemma_ema_between(ema: int, x: int, period: int)
    requires
        period >= 1,
    ensures
        ema <= x ==> ema <= ema_next(ema, x, period) <= x,
        x <= ema ==> x <= ema_next(ema, x, period) <= ema,
{
    let d = x - ema;
    let k = period + 1;
    if d >= 0 {
        assert(d * 2 <= d * k) by (nonlinear_arith)
            requires d >= 0, k >= 2;
        lemma_div_is_ordered(0, d * 2, k);
        lemma_div_is_ordered(d * 2, d * k, k);
        lemma_div_multiples_vanish(d, k);
        assert(k * d == d * k) by (nonlinear_arith);
    } else {
        assert(d * k <= d * 2) by (nonlinear_arith)
            requires d < 0, k >= 2;
        lemma_div_is_ordered(d * 2, 0, k);
        lemma_div_is_ordered(d * k, d * 2, k);
        lemma_div_multiples_vanish(d, k);
        assert(k * d == d * k) by (nonlinear_arith);
    }
}

/// A sum of `n` values in `[lo, hi]`, divided by `n`, lies in `[lo, hi]`.
pub proof fn lemma_mean_bounds(total: int, n: int, lo: int, hi: int)
    requires
        n >= 1,
        n * lo <= total <= n * hi,
    ensures
        lo <= total / n <= hi,
{
    lemma_div_is_ordered(n * lo, total, n);
    lemma_div_is_ordered(total, n * hi, n);
    lemma_div_multiples_vanish(lo, n);
    lemma_div_multiples_vanish(hi, n);
}

/// `(pos - neg) / d`, rounded toward negative infinity.
pub fn floor_div(pos: u128, neg: u128, d: u128) -> (r: i128)
    requires
        d > 0,
        -0x8000_0000_0000_0000_0000_0000_0000_0000 < (pos - neg) / (d as int)
            < 0x8000_0000_0000_0000_0000_0000_0000_0000,
    ensures
        r == (pos - neg) / (d as int),
{
    if pos >= neg {
        let a: u128 = pos - neg;
        proof {
            lemma_fundamental_div_mod(a as int, d as int);
        }
        (a / d) as i128
    } else {
        let a: u128 = neg - pos;
        let q: u128 = a / d;
        let m: u128 = a % d;
        proof {
            lemma_fundamental_div_mod(a as int, d as int);
            assert(a == d * q + m);
        }
        if m == 0 {
            proof {
                assert(-(a as int) == (-(q as int)) * d + 0) by (nonlinear_arith)
                    requires a == d * q + m, m == 0;
                lemma_fundamental_div_mod_converse(-(a as int), d as int, -(q as int), 0);
            }
            -(q as i128)
        } else {
            proof {
                assert(-(a as int) == (-(q as int) - 1) * d + (d - m)) by (nonlinear_arith)
                    requires a == d * q + m;
                lemma_fundamental_div_mod_converse(
                    -(a as int),
                    d as int,
                    -(q as int) - 1,
                    d - m,
                );
            }
            -(q as i128) - 1
        }
    }
}

/// One exact average step on values bounded by `PRICE_MAX`.
pub fn ema_step(ema: i128, x: i128, period: usize) -> (r: i128)
    requires
        period >= 1,
        -(PRICE_MAX as int) <= ema <= PRICE_MAX,
        -(PRICE_MAX as int) <= x <= PRICE_MAX,
    ensures
        r == ema_next(ema as int, x as int, period as int),
        ema <= x ==> ema <= r <= x,
        x <= ema ==> x <= r <= ema,
{
    proof {
        lemma_ema_between(ema as int, x as int, period as int);
    }
    let k: u128 = period as u128 + 1;
    let q: i128 = if x >= ema {
        floor_div(((x - ema) * 2) as u128, 0, k)
    } else {
        floor_div(0, ((ema - x) * 2) as u128, k)
    };
    ema + q
}

} // verus!
