//! Rounding a price to a number of significant figures.

use vstd::prelude::*;
use vstd::arithmetic::power::pow;
use vstd::arithmetic::div_mod::{lemma_fundamental_div_mod, lemma_fundamental_div_mod_converse};
use vstd::arithmetic::mul::lemma_mul_is_commutative;

use crate::order::Side;

verus! {

/// Which aggregation of a book is meant: how many significant figures a price keeps, and of
/// which number the last of them is a multiple.
#[derive(Debug, Clone, Copy, PartialEq, Eq, Structural)]
pub struct L2SnapshotParams {
    pub n_sig_figs: Option<u32>,
    pub mantissa: Option<u64>,
}

impl L2SnapshotParams {
    pub fn new(n_sig_figs: Option<u32>, mantissa: Option<u64>) -> (r: Self)
        ensures
            r == (L2SnapshotParams { n_sig_figs, mantissa }),
    {
        L2SnapshotParams { n_sig_figs, mantissa }
    }

    /// Whether an aggregation is one of those that are offered.
    pub open spec fn offered(self) -> bool {
        match (self.n_sig_figs, self.mantissa) {
            (None, None) => true,
            (Some(n), None) => 2 <= n <= 5,
            (Some(n), Some(m)) => n == 5 && (m == 2 || m == 5),
            (None, Some(_)) => false,
        }
    }
}

/// How many digits a number has in base ten.
pub open spec fn digits(n: nat) -> nat
    decreases n,
{
    if n < 10 {
        1
    } else {
        1 + digits(n / 10)
    }
}

pub open spec fn pow10(k: nat) -> nat
    decreases k,
{
    if k == 0 {
        1
    } else {
        10 * pow10((k - 1) as nat)
    }
}

/// The distance between two neighbouring prices of an aggregation, for prices with this many
/// digits. A price with fewer digits than are kept is not rounded.
pub open spec fn step_at(d: nat, params: L2SnapshotParams) -> nat {
    match params.n_sig_figs {
        None => 1,
        Some(n) => if d < n {
            1
        } else {
            (match params.mantissa {
                Some(m) => m as nat,
                None => 1,
            }) * pow10((d - n) as nat)
        },
    }
}

/// The nearest multiple of a step on the far side of the spread: below for a bid, above for
/// an ask.
pub open spec fn rounded(px: nat, side: Side, step: nat) -> nat {
    match side {
        Side::Bid => px / step * step,
        Side::Ask => ((px + step - 1) as nat) / step * step,
    }
}

/// The price at which an aggregation counts an order.
pub open spec fn bucket(px: nat, side: Side, params: L2SnapshotParams) -> nat {
    rounded(px, side, step_at(digits(px), params))
}

/// Above every price that a book holds or an aggregation rounds to.
pub open spec fn px_limit() -> nat {
    pow10(20)
}

pub(crate) proof fn lemma_pow10_positive(k: nat)
    ensures
        pow10(k) > 0,
    decreases k,
{
    if k > 0 {
        lemma_pow10_positive((k - 1) as nat);
    }
}

proof fn lemma_pow10_add(a: nat, b: nat)
    ensures
        pow10(a + b) == pow10(a) * pow10(b),
    decreases a,
{
    if a > 0 {
        lemma_pow10_add((a - 1) as nat, b);
        assert(pow10(a + b) == 10 * pow10((a - 1 + b) as nat));
        assert(10 * (pow10((a - 1) as nat) * pow10(b)) == (10 * pow10((a - 1) as nat)) * pow10(b))
            by (nonlinear_arith);
    } else {
        assert(pow10(0) == 1);
        assert(1 * pow10(b) == pow10(b));
    }
}

pub(crate) proof fn lemma_pow10_monotonic(a: nat, b: nat)
    requires
        a <= b,
    ensures
        pow10(a) <= pow10(b),
    decreases b,
{
    if a < b {
        lemma_pow10_monotonic(a, (b - 1) as nat);
        lemma_pow10_positive((b - 1) as nat);
    }
}

/// A number with `d` digits lies between two powers of ten.
pub(crate) proof fn lemma_digits(n: nat)
    ensures
        digits(n) >= 1,
        n < pow10(digits(n)),
        n > 0 ==> n >= pow10((digits(n) - 1) as nat),
    decreases n,
{
    if n >= 10 {
        lemma_digits(n / 10);
        let d = digits(n / 10);
        assert(pow10(digits(n)) == 10 * pow10(d));
        assert(pow10((digits(n) - 1) as nat) == 10 * pow10((d - 1) as nat));
    } else {
        assert(pow10(1) == 10 * pow10(0));
        assert(pow10(0) == 1);
    }
}

/// The bounds determine the number of digits.
pub(crate) proof fn lemma_digits_unique(n: nat, d: nat)
    requires
        d >= 1,
        pow10((d - 1) as nat) <= n < pow10(d),
    ensures
        digits(n) == d,
{
    lemma_digits(n);
    lemma_pow10_positive((d - 1) as nat);
    let e = digits(n);
    if e < d {
        lemma_pow10_monotonic(e, (d - 1) as nat);
    } else if e > d {
        lemma_pow10_monotonic(d, (e - 1) as nat);
    }
}

/// A multiple.
pub open spec fn is_multiple(x: nat, s: nat) -> bool {
    exists|q: nat| x == #[trigger] (q * s)
}

/// The floor to a multiple: the multiple that is at most the number and above it less a step.
proof fn lemma_floor(px: nat, s: nat)
    requires
        s > 0,
    ensures
        is_multiple(px / s * s, s),
        px / s * s <= px < px / s * s + s,
{
    lemma_fundamental_div_mod(px as int, s as int);
    lemma_mul_is_commutative(px as int / s as int, s as int);
    assert(px / s * s == (px / s) * s);
}

proof fn lemma_floor_unique(px: nat, s: nat, y: nat)
    requires
        s > 0,
        is_multiple(y, s),
        y <= px < y + s,
    ensures
        px / s * s == y,
{
    let q = choose|q: nat| y == #[trigger] (q * s);
    let r = (px - y) as int;
    assert(px as int == q as int * s as int + r);
    lemma_fundamental_div_mod_converse(px as int, s as int, q as int, r);
}

/// The ceiling to a multiple.
proof fn lemma_ceil(px: nat, s: nat)
    requires
        s > 0,
    ensures
        is_multiple(((px + s - 1) as nat) / s * s, s),
        px <= ((px + s - 1) as nat) / s * s < px + s,
{
    lemma_floor((px + s - 1) as nat, s);
}

proof fn lemma_ceil_unique(px: nat, s: nat, y: nat)
    requires
        s > 0,
        is_multiple(y, s),
        px <= y < px + s,
    ensures
        ((px + s - 1) as nat) / s * s == y,
{
    lemma_floor_unique((px + s - 1) as nat, s, y);
}

proof fn lemma_multiple_of_factor(y: nat, s1: nat, k: nat)
    requires
        is_multiple(y, s1 * k),
    ensures
        is_multiple(y, s1),
{
    let q = choose|q: nat| y == #[trigger] (q * (s1 * k));
    assert(q * (s1 * k) == (q * k) * s1) by (nonlinear_arith);
    assert(y == (q * k) * s1);
}

/// No multiple lies strictly between two that are a step apart.
proof fn lemma_multiples_apart(a: nat, b: nat, s: nat)
    requires
        s > 0,
        is_multiple(a, s),
        is_multiple(b, s),
        a < b,
    ensures
        a + s <= b,
{
    let p = choose|q: nat| a == #[trigger] (q * s);
    let q = choose|q: nat| b == #[trigger] (q * s);
    assert(p < q) by (nonlinear_arith)
        requires
            p * s < q * s,
    ;
    assert(q * s >= p * s + s) by (nonlinear_arith)
        requires
            q >= p + 1,
            s > 0,
    ;
}

/// Rounding finely and then coarsely is rounding coarsely, when the coarse step is a multiple
/// of the fine one.
proof fn lemma_rounding_nests(px: nat, side: Side, s1: nat, k: nat)
    requires
        s1 > 0,
        k > 0,
    ensures
        s1 * k > 0,
        rounded(rounded(px, side, s1), side, s1 * k) == rounded(px, side, s1 * k),
{
    let s2 = s1 * k;
    assert(s2 > 0) by (nonlinear_arith)
        requires
            s1 > 0,
            k > 0,
            s2 == s1 * k,
    ;
    match side {
        Side::Bid => {
            let y = px / s1 * s1;
            let z = px / s2 * s2;
            lemma_floor(px, s1);
            lemma_floor(px, s2);
            lemma_multiple_of_factor(z, s1, k);
            if z > y {
                lemma_multiples_apart(y, z, s1);
            }
            lemma_floor_unique(y, s2, z);
        },
        Side::Ask => {
            let y = ((px + s1 - 1) as nat) / s1 * s1;
            let z = ((px + s2 - 1) as nat) / s2 * s2;
            lemma_ceil(px, s1);
            lemma_ceil(px, s2);
            lemma_multiple_of_factor(z, s1, k);
            if z < y {
                lemma_multiples_apart(z, y, s1);
            }
            lemma_ceil_unique(y, s2, z);
        },
    }
}

/// The powers of ten around the prices with `d` digits are multiples of the step among them.
proof fn lemma_step(d: nat, params: L2SnapshotParams)
    requires
        params.offered(),
        d >= 1,
    ensures
        step_at(d, params) > 0,
        is_multiple(pow10((d - 1) as nat), step_at(d, params)),
        is_multiple(pow10(d), step_at(d, params)),
        step_at(d, params) <= pow10((d - 1) as nat),
{
    let s = step_at(d, params);
    lemma_pow10_positive((d - 1) as nat);
    match params.n_sig_figs {
        None => {
            assert(pow10((d - 1) as nat) == pow10((d - 1) as nat) * s);
            assert(pow10(d) == pow10(d) * s);
        },
        Some(n) => {
            if d < n {
                assert(pow10((d - 1) as nat) == pow10((d - 1) as nat) * s);
                assert(pow10(d) == pow10(d) * s);
            } else {
                let base = pow10((d - n) as nat);
                lemma_pow10_positive((d - n) as nat);
                lemma_pow10_add((n - 1) as nat, (d - n) as nat);
                reveal_with_fuel(pow10, 6);
                let m: nat = match params.mantissa {
                    Some(m) => m as nat,
                    None => 1,
                };
                let top = pow10((n - 1) as nat);
                let c: nat = if m == 1 {
                    top
                } else if m == 2 {
                    5000
                } else {
                    2000
                };
                assert(top == c * m);
                assert(pow10((d - 1) as nat) == top * base);
                assert((c * m) * base == c * (m * base)) by (nonlinear_arith);
                assert(pow10((d - 1) as nat) == c * s);
                assert(pow10(d) == 10 * pow10((d - 1) as nat));
                assert(10 * (c * s) == (10 * c) * s) by (nonlinear_arith);
                assert(pow10(d) == (10 * c) * s);
                assert(m * base > 0) by (nonlinear_arith)
                    requires
                        m > 0,
                        base > 0,
                ;
                assert(s <= c * s) by (nonlinear_arith)
                    requires
                        c >= 1,
                        s > 0,
                ;
            }
        },
    }
}

/// Rounding keeps a price within the power of ten above it.
pub(crate) proof fn lemma_bucket_bound(px: nat, side: Side, params: L2SnapshotParams)
    requires
        params.offered(),
        px <= px_limit(),
    ensures
        step_at(digits(px), params) > 0,
        step_at(digits(px), params) <= px_limit(),
        digits(px) <= 21,
        bucket(px, side, params) <= px_limit(),
{
    lemma_digits(px);
    let d = digits(px);
    lemma_step(d, params);
    let s = step_at(d, params);
    lemma_pow10_positive(20);
    if d > 21 {
        lemma_pow10_monotonic(21, (d - 1) as nat);
        assert(pow10(21) == 10 * pow10(20));
    }
    lemma_pow10_monotonic((d - 1) as nat, 20);
    match side {
        Side::Bid => {
            lemma_floor(px, s);
        },
        Side::Ask => {
            lemma_ceil(px, s);
            let y = bucket(px, side, params);
            if d == 21 {
                // only the limit itself has that many digits
                assert(px == pow10(20));
                lemma_ceil_unique(px, s, px);
            } else {
                lemma_pow10_monotonic(d, 20);
                if y > pow10(d) {
                    lemma_multiples_apart(pow10(d), y, s);
                }
            }
        },
    }
}

/// Whether the second aggregation is coarser than the first: each of its prices is one of the
/// first's.
pub open spec fn coarsens(fine: L2SnapshotParams, coarse: L2SnapshotParams) -> bool {
    &&& fine.offered()
    &&& coarse.offered()
    &&& match (fine.n_sig_figs, coarse.n_sig_figs) {
        (None, _) => true,
        (Some(a), Some(b)) => {
            ||| fine.mantissa == None::<u64> && a >= b
            ||| fine.mantissa == coarse.mantissa && a == b
            ||| a == 5 && b <= 4
        },
        _ => false,
    }
}

/// The coarse step is a multiple of the fine one.
proof fn lemma_steps_divide(d: nat, fine: L2SnapshotParams, coarse: L2SnapshotParams) -> (k: nat)
    requires
        coarsens(fine, coarse),
        d >= 1,
    ensures
        k > 0,
        step_at(d, coarse) == step_at(d, fine) * k,
{
    let s1 = step_at(d, fine);
    let s2 = step_at(d, coarse);
    lemma_step(d, fine);
    lemma_step(d, coarse);
    match (fine.n_sig_figs, coarse.n_sig_figs) {
        (Some(a), Some(b)) => {
            if d < a {
                s2
            } else {
                let base = pow10((d - a) as nat);
                lemma_pow10_positive((d - a) as nat);
                lemma_pow10_add((a - b) as nat, (d - a) as nat);
                reveal_with_fuel(pow10, 6);
                let m1: nat = match fine.mantissa {
                    Some(m) => m as nat,
                    None => 1,
                };
                let m2: nat = match coarse.mantissa {
                    Some(m) => m as nat,
                    None => 1,
                };
                let t = pow10((a - b) as nat);
                let k: nat = if m1 == 1 {
                    m2 * t
                } else if a == b {
                    1
                } else if m1 == 2 {
                    5 * pow10((a - b - 1) as nat)
                } else {
                    2 * pow10((a - b - 1) as nat)
                };
                lemma_pow10_positive((a - b) as nat);
                if m1 != 1 && a != b {
                    lemma_pow10_positive((a - b - 1) as nat);
                    assert(m2 == 1);
                    assert(t == 10 * pow10((a - b - 1) as nat));
                }
                if m1 == 1 {
                    assert(m2 * t > 0) by (nonlinear_arith)
                        requires
                            m2 > 0,
                            t > 0,
                    ;
                }
                if a == b {
                    assert(t == 1);
                }
                assert(m2 * t == m1 * k) by {
                    if m1 == 1 {
                        assert(1 * k == k);
                    } else if a == b {
                        assert(m2 == m1 && t == 1 && k == 1);
                    } else {
                        assert(m1 == 2 || m1 == 5);
                        assert(1 * t == t);
                    }
                }
                assert(s1 == m1 * base);
                assert(s2 == m2 * (t * base));
                assert(m2 * (t * base) == (m2 * t) * base) by (nonlinear_arith);
                assert((m1 * k) * base == (m1 * base) * k) by (nonlinear_arith);
                assert(k > 0);
                k
            }
        },
        _ => s2,
    }
}

/// An aggregation can be read off any finer one: rounding a price finely first does not change
/// where the coarse aggregation counts it.
pub proof fn law_coarse_from_fine(px: nat, side: Side, fine: L2SnapshotParams, coarse: L2SnapshotParams)
    requires
        coarsens(fine, coarse),
    ensures
        bucket(bucket(px, side, fine), side, coarse) == bucket(px, side, coarse),
{
    lemma_digits(px);
    let d = digits(px);
    let s1 = step_at(d, fine);
    let s2 = step_at(d, coarse);
    lemma_step(d, fine);
    lemma_step(d, coarse);
    let k = lemma_steps_divide(d, fine, coarse);
    lemma_rounding_nests(px, side, s1, k);
    let y = bucket(px, side, fine);
    if px == 0 {
        assert(d == 1);
        assert(s1 == 1 && s2 == 1);
        assert(y == 0);
    } else {
        let lo = pow10((d - 1) as nat);
        let hi = pow10(d);
        match side {
            Side::Bid => {
                lemma_floor(px, s1);
                if y < lo {
                    lemma_multiples_apart(y, lo, s1);
                }
                lemma_digits_unique(y, d);
            },
            Side::Ask => {
                lemma_ceil(px, s1);
                if y > hi {
                    lemma_multiples_apart(hi, y, s1);
                }
                if y < hi {
                    lemma_digits_unique(y, d);
                } else {
                    assert(y == hi);
                    assert(pow10(d + 1) == 10 * hi);
                    lemma_digits_unique(y, d + 1);
                    lemma_step(d + 1, coarse);
                    let s3 = step_at(d + 1, coarse);
                    lemma_ceil_unique(y, s3, y);
                    lemma_ceil(px, s2);
                    let z = bucket(px, side, coarse);
                    if z > hi {
                        lemma_multiples_apart(hi, z, s2);
                    }
                    if z < hi {
                        lemma_multiples_apart(z, hi, s2);
                        assert(s1 <= s2) by (nonlinear_arith)
                            requires
                                s2 == s1 * k,
                                k > 0,
                        ;
                    }
                }
            },
        }
    }
}

/// The number of digits, and the power of ten with as many digits.
fn count_digits(px: u128) -> (r: u32)
    requires
        px <= px_limit(),
    ensures
        r == digits(px as nat),
    decreases px,
{
    proof {
        lemma_bucket_bound(px as nat, Side::Bid, L2SnapshotParams { n_sig_figs: None, mantissa: None });
    }
    if px < 10 {
        1
    } else {
        1 + count_digits(px / 10)
    }
}

fn power_of_ten(k: u32) -> (r: u128)
    requires
        k <= 20,
    ensures
        r == pow10(k as nat),
    decreases k,
{
    if k == 0 {
        1
    } else {
        proof {
            lemma_pow10_monotonic((k - 1) as nat, 19);
            reveal_with_fuel(pow10, 20);
        }
        10 * power_of_ten(k - 1)
    }
}

/// The price at which an aggregation counts an order.
pub fn bucket_of(px: u128, side: Side, params: L2SnapshotParams) -> (r: u128)
    requires
        params.offered(),
        px <= px_limit(),
    ensures
        r == bucket(px as nat, side, params),
        r <= px_limit(),
{
    proof {
        lemma_bucket_bound(px as nat, side, params);
        assert(px_limit() == 100000000000000000000) by {
            reveal_with_fuel(pow10, 21);
        }
    }
    let d: u32 = count_digits(px);
    let step: u128 = match params.n_sig_figs {
        None => 1,
        Some(n) => {
            if d < n {
                1
            } else {
                let base: u128 = power_of_ten(d - n);
                match params.mantissa {
                    Some(m) => {
                        assert(m == 2 || m == 5);
                        let factor: u128 = m as u128;
                        assert(factor * base == step_at(d as nat, params));
                        factor * base
                    },
                    None => base,
                }
            }
        },
    };
    assert(step == step_at(d as nat, params));
    let up: u128 = match side {
        Side::Bid => px,
        Side::Ask => px + step - 1,
    };
    proof {
        lemma_floor(up as nat, step as nat);
    }
    up / step * step
}

proof fn lemma_power(k: nat)
    ensures
        pow10(k) == pow(10, k),
    decreases k,
{
    reveal(pow);
    if k > 0 {
        lemma_power((k - 1) as nat);
    }
}

proof fn lemma_multiple_has_no_rest(x: nat, s: nat)
    requires
        s > 0,
        is_multiple(x, s),
    ensures
        x % s == 0,
{
    let q = choose|q: nat| x == #[trigger] (q * s);
    lemma_fundamental_div_mod_converse(x as int, s as int, q as int, 0);
}

/// The aggregations that are offered: the prices themselves, two to five significant figures, and
/// five figures of which the last is a multiple of two or of five.
pub proof fn law_offered_aggregations(params: L2SnapshotParams)
    ensures
        params.offered() <==> match params.n_sig_figs {
            None => params.mantissa is None,
            Some(n) => (2 <= n <= 5 && params.mantissa is None) || (n == 5 && (params.mantissa == Some(2u64)
                || params.mantissa == Some(5u64))),
        },
{
}

/// A price of `d` digits is counted at a multiple of a step, which is ten to the number of digits
/// that are not kept, times the mantissa: a bid at the next one below, an ask at the next one above.
/// Where no figures are left out it is counted at the price itself.
pub proof fn law_prices_are_rounded_away_from_the_spread(
    px: nat,
    side: Side,
    params: L2SnapshotParams,
    d: nat,
    step: nat,
)
    requires
        params.offered(),
        d >= 1,
        pow(10, (d - 1) as nat) <= px < pow(10, d),
        step == (match params.n_sig_figs {
            None => 1,
            Some(n) => if d < n {
                1
            } else {
                (match params.mantissa {
                    None => 1,
                    Some(m) => m as int,
                }) * pow(10, (d - n) as nat)
            },
        }),
    ensures
        step > 0,
        bucket(px, side, params) % step == 0,
        match side {
            Side::Bid => bucket(px, side, params) <= px < bucket(px, side, params) + step,
            Side::Ask => px <= bucket(px, side, params) < px + step,
        },
{
    lemma_power(d);
    lemma_power((d - 1) as nat);
    lemma_digits_unique(px, d);
    if let Some(n) = params.n_sig_figs {
        if d >= n {
            lemma_power((d - n) as nat);
        }
    }
    assert(step == step_at(d, params));
    lemma_step(d, params);
    match side {
        Side::Bid => lemma_floor(px, step),
        Side::Ask => lemma_ceil(px, step),
    }
    lemma_multiple_has_no_rest(bucket(px, side, params), step);
}

/// Nothing is counted at nothing.
pub proof fn law_zero_stays(side: Side, params: L2SnapshotParams)
    requires
        params.offered(),
    ensures
        bucket(0, side, params) == 0,
{
    lemma_step(1, params);
    let s = step_at(1, params);
    assert(pow10(0) == 1);
    assert(s == 1);
    match side {
        Side::Bid => lemma_floor(0, s),
        Side::Ask => lemma_ceil(0, s),
    }
}

/// Of two prices the higher one is not counted at a lower price.
pub proof fn law_rounding_keeps_the_order_of_prices(a: nat, b: nat, side: Side, params: L2SnapshotParams)
    requires
        params.offered(),
        a <= b,
    ensures
        bucket(a, side, params) <= bucket(b, side, params),
{
    lemma_digits(a);
    lemma_digits(b);
    let d = digits(a);
    let e = digits(b);
    lemma_step(d, params);
    lemma_step(e, params);
    let s = step_at(d, params);
    let t = step_at(e, params);
    match side {
        Side::Bid => {
            lemma_floor(a, s);
            lemma_floor(b, t);
        },
        Side::Ask => {
            lemma_ceil(a, s);
            lemma_ceil(b, t);
        },
    }
    let x = bucket(a, side, params);
    let y = bucket(b, side, params);
    if a == 0 {
        law_zero_stays(side, params);
    } else if d == e {
        if y < x {
            lemma_multiples_apart(y, x, s);
        }
    } else {
        if d > e {
            lemma_pow10_monotonic(e, (d - 1) as nat);
        }
        lemma_pow10_monotonic(d, (e - 1) as nat);
        match side {
            Side::Bid => {
                if y < pow10((e - 1) as nat) {
                    lemma_multiples_apart(y, pow10((e - 1) as nat), t);
                }
            },
            Side::Ask => {
                if x > pow10(d) {
                    lemma_multiples_apart(pow10(d), x, s);
                }
            },
        }
    }
}

} // verus!
