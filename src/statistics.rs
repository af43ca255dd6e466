//! Integer statistics: floor division, integer square root, mean, population
//! standard deviation and the keep cutoff read from a standard normal table.

use vstd::prelude::*;

verus! {

/// Largest number of values the statistics accept in one call.
pub const MAX_VALUES: usize = 67_108_864;

/// Largest magnitude of a value whose standard deviation is taken.
pub const MAX_STAT_VALUE: i64 = 562_949_953_421_312;

/// Sum of a sequence of values.
pub open spec fn sum_of(s: Seq<i64>) -> int
    decreases s.len(),
{
    if s.len() == 0 {
        0
    } else {
        sum_of(s.drop_last()) + s.last()
    }
}

/// Arithmetic mean, rounded toward negative infinity; 0 for no values.
pub open spec fn mean_of(s: Seq<i64>) -> int {
    if s.len() == 0 {
        0
    } else {
        sum_of(s) / (s.len() as int)
    }
}

/// Sum of squared distances of the values from `m`.
pub open spec fn sq_dev_sum(s: Seq<i64>, m: int) -> int
    decreases s.len(),
{
    if s.len() == 0 {
        0
    } else {
        sq_dev_sum(s.drop_last(), m) + (s.last() - m) * (s.last() - m)
    }
}

/// Population variance about the (rounded) mean, rounded down.
pub open spec fn variance_of(s: Seq<i64>) -> int {
    if s.len() == 0 {
        0
    } else {
        sq_dev_sum(s, mean_of(s)) / (s.len() as int)
    }
}

/// `r` is the integer square root of `v`.
pub open spec fn is_floor_sqrt(v: int, r: int) -> bool {
    0 <= r && r * r <= v && v < (r + 1) * (r + 1)
}

/// Integer square root (the largest `r` with `r * r <= v`) of a non-negative `v`.
pub open spec fn floor_sqrt(v: int) -> int {
    choose|r: int| is_floor_sqrt(v, r)
}

/// Population standard deviation, in integer arithmetic.
pub open spec fn sd_of(s: Seq<i64>) -> int {
    floor_sqrt(variance_of(s))
}

/// z-score (in thousandths) whose standard normal upper-tail probability is
/// `p` thousandths, for the tabulated probabilities.
pub open spec fn z_table(p: int) -> Option<int> {
    if p == 1 { Some(3090) }
    else if p == 5 { Some(2576) }
    else if p == 10 { Some(2326) }
    else if p == 25 { Some(1960) }
    else if p == 50 { Some(1645) }
    else if p == 100 { Some(1282) }
    else if p == 150 { Some(1036) }
    else if p == 200 { Some(842) }
    else if p == 250 { Some(674) }
    else if p == 300 { Some(524) }
    else if p == 350 { Some(385) }
    else if p == 400 { Some(253) }
    else if p == 450 { Some(126) }
    else { None }
}

/// Cutoff for keeping a variant, given the standard deviation and mean of the
/// importances and the keep fraction `p` in thousandths. From one half up the
/// cutoff is 0: every non-negative importance is kept.
pub open spec fn cutoff_of(sd: int, mean: int, p: int) -> int {
    if p >= 500 {
        0
    } else {
        match z_table(p) {
            Some(z) => mean + (z * sd) / 1000,
            None => 4 * sd + mean,
        }
    }
}

pub proof fn lemma_floor_sqrt_unique(v: int, r: int)
    requires
        is_floor_sqrt(v, r),
    ensures
        floor_sqrt(v) == r,
{
    let c = floor_sqrt(v);
    assert(is_floor_sqrt(v, c));
    if c < r {
        assert((c + 1) * (c + 1) <= r * r) by (nonlinear_arith)
            requires 0 <= c + 1 <= r;
    } else if r < c {
        assert((r + 1) * (r + 1) <= c * c) by (nonlinear_arith)
            requires 0 <= r + 1 <= c;
    }
}

/// Division rounded toward negative infinity.
pub fn floor_div(a: i128, b: i128) -> (r: i128)
    requires
        b > 0,
    ensures
        r == a / b,
{
    if a >= 0 {
        a / b
    } else {
        let q = (-1 - a) / b;
        proof {
            let x = -1 - a as int;
            let bb = b as int;
            let qq = q as int;
            vstd::arithmetic::div_mod::lemma_fundamental_div_mod(x, bb);
            let rem = x % bb;
            assert(a == (-qq - 1) * bb + (bb - 1 - rem)) by (nonlinear_arith)
                requires x == bb * qq + rem, a == -1 - x;
            vstd::arithmetic::div_mod::lemma_fundamental_div_mod_converse(
                a as int, bb, -qq - 1, bb - 1 - rem);
        }
        -q - 1
    }
}

/// Integer square root.
pub fn isqrt(v: u128) -> (r: u64)
    ensures
        is_floor_sqrt(v as int, r as int),
{
    let mut lo: u128 = 0;
    let mut hi: u128 = 0x1_0000_0000_0000_0000;
    assert(v < hi * hi) by (nonlinear_arith)
        requires v < 0x1_0000_0000_0000_0000_0000_0000_0000_0000, hi == 0x1_0000_0000_0000_0000;
    while hi - lo > 1
        invariant
            lo < hi <= 0x1_0000_0000_0000_0000,
            lo * lo <= v,
            v < hi * hi,
        decreases hi - lo,
    {
        let mid = lo + (hi - lo) / 2;
        assert(mid * mid < 0x1_0000_0000_0000_0000_0000_0000_0000_0000) by (nonlinear_arith)
            requires mid < 0x1_0000_0000_0000_0000;
        if mid * mid <= v {
            lo = mid;
        } else {
            hi = mid;
        }
    }
    lo as u64
}

/// Arithmetic mean of the values, rounded toward negative infinity; 0 when
/// there are none.
pub fn mean(data: &Vec<i64>) -> (r: i64)
    requires
        data@.len() <= MAX_VALUES,
    ensures
        r == mean_of(data@),
{
    let mut sum: i128 = 0;
    let mut i: usize = 0;
    while i < data.len()
        invariant
            i <= data@.len() <= MAX_VALUES,
            sum == sum_of(data@.take(i as int)),
            -0x8000_0000_0000_0000 * (i as int) <= sum <= 0x7fff_ffff_ffff_ffff * (i as int),
        decreases data@.len() - i,
    {
        assert(data@.take(i as int + 1).drop_last() == data@.take(i as int));
        sum = sum + data[i] as i128;
        i = i + 1;
    }
    assert(data@.take(i as int) == data@);
    if data.len() == 0 {
        return 0;
    }
    let m = floor_div(sum, data.len() as i128);
    proof {
        lemma_div_between(sum as int, data@.len() as int, -0x8000_0000_0000_0000, 0x7fff_ffff_ffff_ffff);
    }
    m as i64
}

/// Population standard deviation of the values about their rounded mean, in
/// integer arithmetic; 0 when there are none.
pub fn std_deviation(data: &Vec<i64>) -> (r: i64)
    requires
        data@.len() <= MAX_VALUES,
        forall|i: int| 0 <= i < data@.len() ==> -MAX_STAT_VALUE <= #[trigger] data@[i] <= MAX_STAT_VALUE,
    ensures
        r == sd_of(data@),
        r * r <= variance_of(data@),
        0 <= r <= 2 * MAX_STAT_VALUE,
{
    let m = mean(data);
    proof {
        lemma_mean_bounded(data@, MAX_STAT_VALUE as int);
    }
    let mut acc: u128 = 0;
    let mut i: usize = 0;
    while i < data.len()
        invariant
            i <= data@.len() <= MAX_VALUES,
            m == mean_of(data@),
            -MAX_STAT_VALUE <= m <= MAX_STAT_VALUE,
            forall|j: int| 0 <= j < data@.len() ==> -MAX_STAT_VALUE <= #[trigger] data@[j] <= MAX_STAT_VALUE,
            acc == sq_dev_sum(data@.take(i as int), m as int),
            acc <= 0x10_0000_0000_0000_0000_0000_0000 * (i as int),
        decreases data@.len() - i,
    {
        assert(data@.take(i as int + 1).drop_last() == data@.take(i as int));
        let d: i128 = data[i] as i128 - m as i128;
        let dd: u128 = if d >= 0 { d as u128 } else { (-d) as u128 };
        assert(dd * dd <= 0x10_0000_0000_0000_0000_0000_0000) by (nonlinear_arith)
            requires dd <= 2 * 562_949_953_421_312;
        assert(dd * dd == d * d) by (nonlinear_arith)
            requires dd == d || dd == -d;
        acc = acc + dd * dd;
        i = i + 1;
    }
    assert(data@.take(i as int) == data@);
    if data.len() == 0 {
        proof { lemma_floor_sqrt_unique(0, 0); }
        return 0;
    }
    assert(m as int == mean_of(data@));
    let var = acc / (data.len() as u128);
    let r = isqrt(var);
    proof {
        lemma_floor_sqrt_unique(var as int, r as int);
        lemma_div_between(acc as int, data@.len() as int, 0, 0x10_0000_0000_0000_0000_0000_0000);
        if r > 2 * MAX_STAT_VALUE {
            let rr = r as int;
            assert(rr * rr > 0x10_0000_0000_0000_0000_0000_0000) by (nonlinear_arith)
                requires rr > 2 * 562_949_953_421_312;
        }
    }
    r as i64
}

/// A quotient by a positive divisor lies between the bounds that the
/// dividend has as multiples of the divisor.
pub proof fn lemma_div_between(x: int, n: int, lo: int, hi: int)
    requires
        n >= 1,
        lo * n <= x <= hi * n,
    ensures
        lo <= x / n <= hi,
{
    vstd::arithmetic::div_mod::lemma_fundamental_div_mod(x, n);
    let q = x / n;
    let r = x % n;
    if q > hi {
        assert(false) by (nonlinear_arith)
            requires x == n * q + r, 0 <= r < n, q >= hi + 1, x <= hi * n, n >= 1;
    }
    if q < lo {
        assert(false) by (nonlinear_arith)
            requires x == n * q + r, 0 <= r < n, q <= lo - 1, lo * n <= x, n >= 1;
    }
}

proof fn lemma_sum_bounded(s: Seq<i64>, b: int)
    requires
        forall|i: int| 0 <= i < s.len() ==> -b <= #[trigger] s[i] <= b,
    ensures
        -b * (s.len() as int) <= sum_of(s) <= b * (s.len() as int),
    decreases s.len(),
{
    if s.len() > 0 {
        let t = s.drop_last();
        assert forall|i: int| 0 <= i < t.len() implies -b <= #[trigger] t[i] <= b by {
            assert(t[i] == s[i]);
        }
        lemma_sum_bounded(t, b);
        let n = s.len() as int;
        let v = s.last() as int;
        let st = sum_of(t);
        assert(-b <= v <= b);
        assert(-b * n <= st + v <= b * n) by (nonlinear_arith)
            requires -b * (n - 1) <= st <= b * (n - 1), -b <= v <= b;
    }
}

proof fn lemma_sq_dev_bounded(s: Seq<i64>, m: int, d: int)
    requires
        d >= 0,
        forall|i: int| 0 <= i < s.len() ==> -d <= #[trigger] s[i] - m <= d,
    ensures
        0 <= sq_dev_sum(s, m) <= (d * d) * (s.len() as int),
    decreases s.len(),
{
    if s.len() > 0 {
        let t = s.drop_last();
        assert forall|i: int| 0 <= i < t.len() implies -d <= #[trigger] t[i] - m <= d by {
            assert(t[i] == s[i]);
        }
        lemma_sq_dev_bounded(t, m, d);
        let x = s.last() - m;
        assert(-d <= s[s.len() - 1] - m <= d);
        let n = s.len() as int;
        let st = sq_dev_sum(t, m);
        assert(0 <= st + x * x <= (d * d) * n) by (nonlinear_arith)
            requires 0 <= st <= (d * d) * (n - 1), -d <= x <= d;
    }
}

/// Values of magnitude at most `b` have variance at most `(2 * b)^2`.
pub proof fn lemma_variance_bounded(s: Seq<i64>, b: int)
    requires
        b >= 0,
        forall|i: int| 0 <= i < s.len() ==> -b <= #[trigger] s[i] <= b,
    ensures
        0 <= variance_of(s) <= (2 * b) * (2 * b),
{
    if s.len() > 0 {
        lemma_mean_bounded(s, b);
        let m = mean_of(s);
        assert forall|i: int| 0 <= i < s.len() implies -(2 * b) <= #[trigger] s[i] - m <= 2 * b by {}
        lemma_sq_dev_bounded(s, m, 2 * b);
        lemma_div_between(sq_dev_sum(s, m), s.len() as int, 0, (2 * b) * (2 * b));
    }
}

/// The mean of values of magnitude at most `b` has magnitude at most `b`.
pub proof fn lemma_mean_bounded(s: Seq<i64>, b: int)
    requires
        b >= 0,
        forall|i: int| 0 <= i < s.len() ==> -b <= #[trigger] s[i] <= b,
    ensures
        -b <= mean_of(s) <= b,
{
    if s.len() > 0 {
        lemma_sum_bounded(s, b);
        let n = s.len() as int;
        let x = sum_of(s);
        assert((-b) * n <= x) by (nonlinear_arith)
            requires -b * n <= x;
        lemma_div_between(x, n, -b, b);
    }
}

/// The tabulated z-score, in thousandths, for an upper-tail probability of
/// `p` thousandths.
pub fn z_score(p: u32) -> (r: Option<u32>)
    ensures
        r matches Some(z) ==> z_table(p as int) == Some(z as int),
        r is None ==> z_table(p as int) is None,
{
    match p {
        1 => Some(3090),
        5 => Some(2576),
        10 => Some(2326),
        25 => Some(1960),
        50 => Some(1645),
        100 => Some(1282),
        150 => Some(1036),
        200 => Some(842),
        250 => Some(674),
        300 => Some(524),
        350 => Some(385),
        400 => Some(253),
        450 => Some(126),
        _ => None,
    }
}

/// One-sided cutoff `mean + z(p) * sd` for keeping variants, where `p` is the
/// keep fraction in thousandths. A fraction of one half or more keeps every
/// non-negative importance (cutoff 0); an untabulated fraction gives the
/// out-of-reach cutoff `4 * sd + mean`.
pub fn get_cutoff(sd: i64, mean: i64, p_keep: u32) -> (r: i64)
    requires
        0 <= sd <= 2 * MAX_STAT_VALUE,
        -MAX_STAT_VALUE <= mean <= MAX_STAT_VALUE,
    ensures
        r == cutoff_of(sd as int, mean as int, p_keep as int),
{
    if p_keep >= 500 {
        return 0;
    }
    match z_score(p_keep) {
        Some(z) => {
            assert(z <= 3090);
            assert(z * sd <= 3090 * 2 * MAX_STAT_VALUE) by (nonlinear_arith)
                requires 0 <= z <= 3090, 0 <= sd <= 2 * 562_949_953_421_312;
            assert(z * sd >= 0) by (nonlinear_arith)
                requires 0 <= z, 0 <= sd;
            let t = (z as i64) * sd / 1000;
            mean + t
        },
        None => 4 * sd + mean,
    }
}

} // verus!
