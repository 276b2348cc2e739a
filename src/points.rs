use vstd::prelude::*;

verus! {

/// Largest score an item in a clamped category may be awarded.
pub const CLAMP_CEILING: i64 = 3000;

/// Rates are held in thousandths of a percent: 100% is this value.
pub const RATE_FULL: u32 = 100000;

/// Rate at or below which the steep tier applies (5%).
pub const STEEP_LIMIT: u32 = 5000;

/// Rate at or below which the interpolated tier applies (20%).
pub const LINEAR_LIMIT: u32 = 20000;

/// Four times the square of the steep-tier score, times the cube of the rate.
///
/// The steep tier awards `3000 * (1000 / m)^1.5` points for a rate of `m`
/// thousandths of a percent; squared, that is `9 * 10^15 / m^3`.
pub const STEEP_SCALE: u128 = 36_000_000_000_000_000;

/// `(2n - 1)^2 * m^3`: compared against `STEEP_SCALE` to round the steep-tier score.
pub open spec fn steep_bound(n: int, m: int) -> int {
    (2 * n - 1) * (2 * n - 1) * (m * m * m)
}

/// `n` is the steep-tier score `3000 * (1000 / m)^1.5` rounded to the nearest
/// integer, halves rounded up: `n - 1/2 <= raw < n + 1/2`.
pub open spec fn is_steep_root(n: int, m: int) -> bool {
    &&& n >= 1
    &&& steep_bound(n, m) <= STEEP_SCALE
    &&& STEEP_SCALE < steep_bound(n + 1, m)
}

/// The rounded steep-tier score of a rate of `m` thousandths of a percent.
pub open spec fn steep_points(m: int) -> int {
    choose|n: int| is_steep_root(n, m)
}

/// The rounded score of the two linear tiers (halves rounded up).
///
/// Between 5% and 20% the score runs from 500 down to 200, `600 - 20 * rate`;
/// above 20% it is `100 - rate / 2`.
pub open spec fn linear_points(m: int) -> int {
    if m <= LINEAR_LIMIT {
        (30000 - m + 25) / 50
    } else {
        (200000 - m + 1000) / 2000
    }
}

/// A rate in thousandths of a percent that lies in (0%, 100%].
pub open spec fn valid_rate(m: int) -> bool {
    0 < m <= RATE_FULL
}

/// The points awarded for an item of completion rate `m` (thousandths of a
/// percent); `clamp_eligible` caps the steep tier at `CLAMP_CEILING`.
pub open spec fn points_for(m: int, clamp_eligible: bool) -> int {
    if m <= STEEP_LIMIT {
        if clamp_eligible && steep_points(m) > CLAMP_CEILING {
            CLAMP_CEILING as int
        } else {
            steep_points(m)
        }
    } else {
        linear_points(m)
    }
}

proof fn lemma_steep_bound_grows(a: int, b: int, ma: int, mb: int)
    requires
        1 <= a <= b,
        1 <= ma <= mb,
    ensures
        steep_bound(a, ma) <= steep_bound(b, mb),
{
    assert((2 * a - 1) * (2 * a - 1) <= (2 * b - 1) * (2 * b - 1)) by (nonlinear_arith)
        requires 1 <= a <= b;
    assert(ma * ma * ma <= mb * mb * mb) by (nonlinear_arith)
        requires 1 <= ma <= mb;
    assert(steep_bound(a, ma) <= steep_bound(b, mb)) by (nonlinear_arith)
        requires
            0 <= (2 * a - 1) * (2 * a - 1) <= (2 * b - 1) * (2 * b - 1),
            0 <= ma * ma * ma <= mb * mb * mb,
            steep_bound(a, ma) == (2 * a - 1) * (2 * a - 1) * (ma * ma * ma),
            steep_bound(b, mb) == (2 * b - 1) * (2 * b - 1) * (mb * mb * mb),
    ;
}

/// The rounded steep-tier score is unique.
pub proof fn lemma_steep_root_unique(a: int, b: int, m: int)
    requires
        m >= 1,
        is_steep_root(a, m),
        is_steep_root(b, m),
    ensures
        a == b,
{
    if a < b {
        lemma_steep_bound_grows(a + 1, b, m, m);
    } else if b < a {
        lemma_steep_bound_grows(b + 1, a, m, m);
    }
}

/// A lower rate never gives a lower steep-tier score.
pub proof fn lemma_steep_root_antitone(na: int, nb: int, ma: int, mb: int)
    requires
        1 <= ma <= mb,
        is_steep_root(na, ma),
        is_steep_root(nb, mb),
    ensures
        nb <= na,
{
    if nb > na {
        lemma_steep_bound_grows(na + 1, nb, ma, mb);
    }
}

proof fn lemma_steep_root_search(hi: int, m: int)
    requires
        2 <= hi,
        steep_bound(1, m) <= STEEP_SCALE,
        STEEP_SCALE < steep_bound(hi, m),
    ensures
        exists|n: int| is_steep_root(n, m),
    decreases hi,
{
    if steep_bound(hi - 1, m) <= STEEP_SCALE {
        assert(is_steep_root(hi - 1, m));
    } else {
        lemma_steep_root_search(hi - 1, m);
    }
}

/// Every rate of the steep tier has a rounded steep-tier score.
pub proof fn lemma_steep_points(m: int)
    requires
        1 <= m <= STEEP_LIMIT,
    ensures
        is_steep_root(steep_points(m), m),
{
    assert(steep_bound(1, m) <= STEEP_SCALE) by (nonlinear_arith)
        requires
            1 <= m <= 5000,
            steep_bound(1, m) == 1 * 1 * (m * m * m),
    ;
    assert(steep_bound(100_000_000, 1) > STEEP_SCALE) by (nonlinear_arith)
        requires steep_bound(100_000_000, 1) == 199_999_999 * 199_999_999 * (1 * 1 * 1int);
    lemma_steep_bound_grows(100_000_000, 100_000_000, 1, m);
    lemma_steep_root_search(100_000_000, m);
}

/// A lower completion rate never scores fewer points, under the same clamp
/// setting, except across the 5% boundary: there the steep tier starts again
/// below the 500 points that the interpolated tier reaches.
pub proof fn lemma_score_antitone(a: int, b: int, clamp_eligible: bool)
    requires
        valid_rate(a),
        valid_rate(b),
        a <= b,
        !(a <= STEEP_LIMIT && STEEP_LIMIT < b),
    ensures
        points_for(b, clamp_eligible) <= points_for(a, clamp_eligible),
{
    if b <= STEEP_LIMIT {
        lemma_steep_points(a);
        lemma_steep_points(b);
        lemma_steep_root_antitone(steep_points(a), steep_points(b), a, b);
    }
}

fn steep_bound_exec(n: u128, m: u128) -> (r: u128)
    requires
        1 <= n <= 100_000_000,
        1 <= m <= 5000,
    ensures
        r as int == steep_bound(n as int, m as int),
{
    let d: u128 = 2 * n - 1;
    assert(d * d <= 40_000_000_000_000_000) by (nonlinear_arith)
        requires 1 <= d < 200_000_000;
    assert(m * m <= 25_000_000) by (nonlinear_arith)
        requires 1 <= m <= 5000;
    assert(m * m * m <= 125_000_000_000) by (nonlinear_arith)
        requires 1 <= m <= 5000, m * m <= 25_000_000;
    assert((d * d) * (m * m * m) <= 40_000_000_000_000_000 * 125_000_000_000) by (nonlinear_arith)
        requires
            0 <= d * d <= 40_000_000_000_000_000,
            0 <= m * m * m <= 125_000_000_000,
    ;
    let sq: u128 = d * d;
    let cube: u128 = m * m * m;
    sq * cube
}

/// The steep-tier score, found by bisection on the rounding bounds.
fn steep_score(m: u32) -> (r: i64)
    requires
        1 <= m <= STEEP_LIMIT,
    ensures
        is_steep_root(r as int, m as int),
        r as int == steep_points(m as int),
        268 <= r <= 94_869_000,
{
    let mm: u128 = m as u128;
    let mut lo: u128 = 1;
    let mut hi: u128 = 100_000_000;
    proof {
        assert(steep_bound(1, m as int) == m * m * m) by (nonlinear_arith);
        assert(m * m * m <= 125_000_000_000) by (nonlinear_arith)
            requires 1 <= m <= 5000;
        assert(steep_bound(100_000_000, 1) > STEEP_SCALE) by (nonlinear_arith)
            requires steep_bound(100_000_000, 1) == 199_999_999 * 199_999_999 * (1 * 1 * 1int);
        lemma_steep_bound_grows(100_000_000, 100_000_000, 1, m as int);
    }
    while hi - lo > 1
        invariant
            1 <= lo < hi <= 100_000_000,
            mm == m as u128,
            1 <= m <= STEEP_LIMIT,
            steep_bound(lo as int, m as int) <= STEEP_SCALE,
            STEEP_SCALE < steep_bound(hi as int, m as int),
        decreases hi - lo,
    {
        let mid: u128 = lo + (hi - lo) / 2;
        if steep_bound_exec(mid, mm) <= STEEP_SCALE {
            lo = mid;
        } else {
            hi = mid;
        }
    }
    proof {
        assert(is_steep_root(lo as int, m as int));
        let n = steep_points(m as int);
        lemma_steep_root_unique(n, lo as int, m as int);
        assert(steep_bound(268, 5000) <= STEEP_SCALE) by (nonlinear_arith)
            requires steep_bound(268, 5000) == 535 * 535 * (5000 * 5000 * 5000int);
        assert(steep_bound(94_869_000, 1) > STEEP_SCALE) by (nonlinear_arith)
            requires steep_bound(94_869_000, 1) == 189_737_999 * 189_737_999 * (1 * 1 * 1int);
        if lo < 268 {
            lemma_steep_bound_grows(lo as int + 1, 268, m as int, 5000);
        }
        if lo > 94_869_000 {
            lemma_steep_bound_grows(94_869_000, lo as int, 1, m as int);
        }
    }
    lo as i64
}

/// Points for an item of completion rate `rate` (thousandths of a percent).
///
/// Rates up to 5% score `3000 * (1000 / rate)^1.5`, capped at `CLAMP_CEILING`
/// when `clamp_eligible`; rates up to 20% interpolate from 500 down to 200;
/// higher rates score `100 - rate / 2`. The result is rounded to the nearest
/// integer, halves away from zero.
pub fn score(rate: u32, clamp_eligible: bool) -> (r: i64)
    requires
        valid_rate(rate as int),
    ensures
        r as int == points_for(rate as int, clamp_eligible),
{
    if rate <= STEEP_LIMIT {
        let raw = steep_score(rate);
        if clamp_eligible && raw > CLAMP_CEILING {
            CLAMP_CEILING
        } else {
            raw
        }
    } else if rate <= LINEAR_LIMIT {
        ((30000 - rate + 25) / 50) as i64
    } else {
        ((200000 - rate + 1000) / 2000) as i64
    }
}

} // verus!
