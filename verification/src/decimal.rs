//! Exact base-10 fixed-point arithmetic.
//!
//! A [`Decimal`] stores an integer mantissa; its numeric value is
//! `mantissa / 10^DECIMAL_SCALE`.  Every operation states its result over
//! the mantissa, so callers reason in exact integer arithmetic and no
//! rounding happens except where a precision is requested explicitly.

use vstd::prelude::*;

verus! {

/// Number of decimal digits kept to the right of the point.
pub const DECIMAL_SCALE: u32 = 9;

/// `10^DECIMAL_SCALE`: the mantissa of `1`.
pub const DECIMAL_UNIT: i128 = 1_000_000_000;

/// Largest mantissa magnitude the type accepts; a power of ten, so the
/// bound is closed under rounding to any coarser precision.
pub const MAX_MANTISSA: i128 = 10_000_000_000_000_000_000_000_000_000;

/// Bound on mantissa products accepted by the multiplication and
/// division routines; keeps every intermediate inside `i128`.
pub const MAX_PRODUCT: i128 = 1_000_000_000_000_000_000_000_000_000_000_000_000;

/// `10^n`.
pub open spec fn pow10(n: nat) -> int
    decreases n,
{
    if n == 0 {
        1
    } else {
        10 * pow10((n - 1) as nat)
    }
}

pub proof fn lemma_pow10_values()
    ensures
        pow10(0) == 1,
        pow10(1) == 10,
        pow10(2) == 100,
        pow10(3) == 1000,
        pow10(4) == 10000,
        pow10(5) == 100000,
        pow10(6) == 1000000,
        pow10(7) == 10000000,
        pow10(8) == 100000000,
        pow10(9) == 1000000000,
        pow10(18) == 1000000000000000000,
{
    assert(pow10(0) == 1);
    assert(pow10(1) == 10);
    assert(pow10(2) == 100);
    assert(pow10(3) == 1000);
    assert(pow10(4) == 10000);
    assert(pow10(5) == 100000);
    assert(pow10(6) == 1000000);
    assert(pow10(7) == 10000000);
    assert(pow10(8) == 100000000);
    assert(pow10(9) == 1000000000);
    assert(pow10(10) == 10000000000);
    assert(pow10(11) == 100000000000);
    assert(pow10(12) == 1000000000000);
    assert(pow10(13) == 10000000000000);
    assert(pow10(14) == 100000000000000);
    assert(pow10(15) == 1000000000000000);
    assert(pow10(16) == 10000000000000000);
    assert(pow10(17) == 100000000000000000);
    assert(pow10(18) == 1000000000000000000);
}

pub proof fn lemma_pow10_adds(a: nat, b: nat)
    ensures
        pow10(a + b) == pow10(a) * pow10(b),
    decreases a,
{
    if a == 0 {
        assert(pow10(b) == 1 * pow10(b));
    } else {
        lemma_pow10_adds((a - 1) as nat, b);
        assert(pow10(a + b) == 10 * pow10((a + b - 1) as nat));
        assert(10 * (pow10((a - 1) as nat) * pow10(b)) == (10 * pow10((a - 1) as nat)) * pow10(b))
            by {
            vstd::arithmetic::mul::lemma_mul_is_associative(10, pow10((a - 1) as nat), pow10(b));
        }
    }
}

pub proof fn lemma_pow10_pos(n: nat)
    ensures
        pow10(n) >= 1,
    decreases n,
{
    if n > 0 {
        lemma_pow10_pos((n - 1) as nat);
    }
}

pub proof fn lemma_pow10_increases(a: nat, b: nat)
    requires
        a <= b,
    ensures
        pow10(a) <= pow10(b),
    decreases b,
{
    if a < b {
        lemma_pow10_increases(a, (b - 1) as nat);
        lemma_pow10_pos((b - 1) as nat);
    }
}

/// Integer division rounding towards zero.
pub open spec fn div_towards_zero(n: int, d: int) -> int {
    if n >= 0 {
        n / d
    } else {
        -((-n) / d)
    }
}

/// Integer division rounding to nearest, ties away from zero.
pub open spec fn div_half_away(n: int, d: int) -> int {
    if n >= 0 {
        (n + d / 2) / d
    } else {
        -(((-n) + d / 2) / d)
    }
}

/// Mantissa of `m` rounded to `p` decimal digits, to nearest, ties away
/// from zero.
pub open spec fn round_half_at(m: int, p: nat) -> int {
    div_half_away(m, pow10((DECIMAL_SCALE - p) as nat)) * pow10((DECIMAL_SCALE - p) as nat)
}

/// Mantissa of `m` truncated (towards zero) to `p` decimal digits.
pub open spec fn trunc_at(m: int, p: nat) -> int {
    div_towards_zero(m, pow10((DECIMAL_SCALE - p) as nat)) * pow10((DECIMAL_SCALE - p) as nat)
}

/// A fixed-point decimal number: its value is `mantissa / 10^DECIMAL_SCALE`.
#[derive(Clone, Copy, Debug, PartialEq, Eq, PartialOrd, Ord, Structural)]
pub struct Decimal {
    pub mantissa: i128,
}

impl Decimal {
    /// The magnitude bound every stored decimal obeys.
    pub open spec fn valid(self) -> bool {
        -MAX_MANTISSA <= self.mantissa <= MAX_MANTISSA
    }

    pub fn zero() -> (r: Decimal)
        ensures
            r.mantissa == 0,
            r.valid(),
    {
        Decimal { mantissa: 0 }
    }

    pub fn from_mantissa(m: i128) -> (r: Decimal)
        ensures
            r.mantissa == m,
    {
        Decimal { mantissa: m }
    }

    /// The decimal with value `i` (whole units).
    pub fn from_units(i: i64) -> (r: Decimal)
        ensures
            r.mantissa == i * DECIMAL_UNIT,
    {
        Decimal { mantissa: (i as i128) * DECIMAL_UNIT }
    }

    pub fn is_zero(&self) -> (r: bool)
        ensures
            r == (self.mantissa == 0),
    {
        self.mantissa == 0
    }

    /// Zero counts as positive, as the sign bit of a zero is positive.
    pub fn is_sign_positive(&self) -> (r: bool)
        ensures
            r == (self.mantissa >= 0),
    {
        self.mantissa >= 0
    }

    pub fn neg(&self) -> (r: Decimal)
        requires
            self.valid(),
        ensures
            r.mantissa == -self.mantissa,
            r.valid(),
    {
        Decimal { mantissa: -self.mantissa }
    }

    /// Sum; `None` when the result would leave the accepted magnitude.
    pub fn checked_add(&self, o: &Decimal) -> (r: Option<Decimal>)
        requires
            self.valid(),
            o.valid(),
        ensures
            (-MAX_MANTISSA <= self.mantissa + o.mantissa <= MAX_MANTISSA) ==> (r
                == Some(Decimal { mantissa: (self.mantissa + o.mantissa) as i128 })),
            !(-MAX_MANTISSA <= self.mantissa + o.mantissa <= MAX_MANTISSA) ==> (r is None),
            r is Some ==> r->0.valid(),
    {
        let s: i128 = self.mantissa + o.mantissa;
        if -MAX_MANTISSA <= s && s <= MAX_MANTISSA {
            Some(Decimal { mantissa: s })
        } else {
            None
        }
    }

    /// Difference; `None` when the result would leave the accepted magnitude.
    pub fn checked_sub(&self, o: &Decimal) -> (r: Option<Decimal>)
        requires
            self.valid(),
            o.valid(),
        ensures
            (-MAX_MANTISSA <= self.mantissa - o.mantissa <= MAX_MANTISSA) ==> (r
                == Some(Decimal { mantissa: (self.mantissa - o.mantissa) as i128 })),
            !(-MAX_MANTISSA <= self.mantissa - o.mantissa <= MAX_MANTISSA) ==> (r is None),
            r is Some ==> r->0.valid(),
    {
        let s: i128 = self.mantissa - o.mantissa;
        if -MAX_MANTISSA <= s && s <= MAX_MANTISSA {
            Some(Decimal { mantissa: s })
        } else {
            None
        }
    }

    /// Rounds to `p` decimal digits, to nearest, ties away from zero.
    pub fn round_dp(&self, p: u32) -> (r: Decimal)
        requires
            self.valid(),
            p <= DECIMAL_SCALE,
        ensures
            r.mantissa == round_half_at(self.mantissa as int, p as nat),
            r.valid(),
    {
        let d: u128 = pow10_u128(DECIMAL_SCALE - p);
        proof {
            assert(((DECIMAL_SCALE - p) as nat) <= 9 && d == pow10((DECIMAL_SCALE - p) as nat));
        }
        if self.mantissa >= 0 {
            let mag: u128 = self.mantissa as u128;
            let q: u128 = (mag + d / 2) / d;
            proof {
                lemma_rounding_bound(mag as int, d as int);
            }
            Decimal { mantissa: (q * d) as i128 }
        } else {
            let mag: u128 = (-self.mantissa) as u128;
            let q: u128 = (mag + d / 2) / d;
            proof {
                lemma_rounding_bound(mag as int, d as int);
                vstd::arithmetic::mul::lemma_mul_unary_negation(q as int, d as int);
            }
            Decimal { mantissa: -((q * d) as i128) }
        }
    }

    /// Truncates (towards zero) to `p` decimal digits.
    pub fn trunc_dp(&self, p: u32) -> (r: Decimal)
        requires
            self.valid(),
            p <= DECIMAL_SCALE,
        ensures
            r.mantissa == trunc_at(self.mantissa as int, p as nat),
            r.valid(),
    {
        let d: u128 = pow10_u128(DECIMAL_SCALE - p);
        if self.mantissa >= 0 {
            let mag: u128 = self.mantissa as u128;
            let q: u128 = mag / d;
            proof {
                lemma_trunc_bound(mag as int, d as int);
            }
            Decimal { mantissa: (q * d) as i128 }
        } else {
            let mag: u128 = (-self.mantissa) as u128;
            let q: u128 = mag / d;
            proof {
                lemma_trunc_bound(mag as int, d as int);
                vstd::arithmetic::mul::lemma_mul_unary_negation(q as int, d as int);
            }
            Decimal { mantissa: -((q * d) as i128) }
        }
    }

    /// True when the value carries no digit finer than `p` decimal places.
    pub open spec fn spec_has_prec(self, p: nat) -> bool {
        (self.mantissa as int) % pow10((DECIMAL_SCALE - p) as nat) == 0
    }

    /// Whether rounding at `p` decimal digits would leave `self` unchanged.
    pub fn has_prec(&self, p: u32) -> (r: bool)
        requires
            self.valid(),
            p <= DECIMAL_SCALE,
        ensures
            r == self.spec_has_prec(p as nat),
    {
        let d: u128 = pow10_u128(DECIMAL_SCALE - p);
        if self.mantissa >= 0 {
            let mag: u128 = self.mantissa as u128;
            mag % d == 0
        } else {
            let mag: u128 = (-self.mantissa) as u128;
            proof {
                lemma_neg_mod(self.mantissa as int, d as int);
            }
            mag % d == 0
        }
    }

    /// Product truncated (towards zero) to `p` decimal digits.
    pub fn mul_trunc_dp(&self, o: &Decimal, p: u32) -> (r: Decimal)
        requires
            p <= DECIMAL_SCALE,
            -MAX_PRODUCT <= self.mantissa * o.mantissa <= MAX_PRODUCT,
        ensures
            r.mantissa == mul_trunc_at(self.mantissa as int, o.mantissa as int, p as nat),
            r.valid(),
    {
        let prod: i128 = self.mantissa * o.mantissa;
        let e: u128 = pow10_u128(DECIMAL_SCALE - p);
        let d: u128 = e * 1_000_000_000;
        proof {
            lemma_pow10_values();
            lemma_pow10_adds((DECIMAL_SCALE - p) as nat, DECIMAL_SCALE as nat);
            assert(d == pow10((2 * DECIMAL_SCALE - p) as nat)) by {
                vstd::arithmetic::mul::lemma_mul_is_commutative(
                    pow10((DECIMAL_SCALE - p) as nat),
                    pow10(DECIMAL_SCALE as nat),
                );
            }
        }
        if prod >= 0 {
            let mag: u128 = prod as u128;
            let q: u128 = mag / d;
            proof {
                lemma_product_trunc_bound(mag as int, d as int, e as int);
            }
            Decimal { mantissa: (q * e) as i128 }
        } else {
            let mag: u128 = (-prod) as u128;
            let q: u128 = mag / d;
            proof {
                lemma_product_trunc_bound(mag as int, d as int, e as int);
                vstd::arithmetic::mul::lemma_mul_unary_negation(q as int, e as int);
            }
            Decimal { mantissa: -((q * e) as i128) }
        }
    }

    /// Quotient truncated to `p` decimal digits, saturated at
    /// `DIV_SATURATION`; `None` exactly on division by zero.
    ///
    /// Callers combine the result with a minimum over quantities far
    /// below the saturation point, so saturation never changes what
    /// they compute.
    pub fn div_trunc_dp_sat(&self, o: &Decimal, p: u32) -> (r: Option<Decimal>)
        requires
            p <= DECIMAL_SCALE,
            0 <= self.mantissa <= MAX_MANTISSA,
            0 <= o.mantissa <= MAX_MANTISSA,
        ensures
            (o.mantissa == 0) <==> (r is None),
            o.mantissa != 0 ==> r == Some(
                Decimal { mantissa: div_sat_at(self.mantissa as int, o.mantissa as int, p as nat) as i128 },
            ),
            r is Some ==> r->0.valid() && r->0.mantissa >= 0,
            o.mantissa > 0 ==> div_sat_at(self.mantissa as int, o.mantissa as int, p as nat)
                * o.mantissa <= self.mantissa * (DECIMAL_UNIT as int),
            o.mantissa != 0 ==> 0 <= div_sat_at(self.mantissa as int, o.mantissa as int, p as nat)
                <= DIV_SATURATION,
    {
        if o.mantissa == 0 {
            return None;
        }
        let e: u128 = pow10_u128(DECIMAL_SCALE - p);
        let scale_p: u128 = pow10_u128(p);
        proof {
            lemma_pow10_values();
            vstd::arithmetic::mul::lemma_mul_upper_bound(
                self.mantissa as int,
                MAX_MANTISSA as int,
                scale_p as int,
                pow10(9),
            );
            vstd::arithmetic::mul::lemma_mul_nonnegative(self.mantissa as int, scale_p as int);
        }
        let num: u128 = (self.mantissa as u128) * scale_p;
        let q: u128 = num / (o.mantissa as u128);
        let t: u128 = scale_p * 1_000_000_000_000_000_000;
        proof {
            lemma_pow10_adds(p as nat, 18);
            vstd::arithmetic::mul::lemma_mul_is_commutative(pow10(p as nat), pow10(18));
        }
        proof {
            let am = self.mantissa as int;
            let bm = o.mantissa as int;
            let pp = pow10(p as nat);
            let e = pow10((DECIMAL_SCALE - p) as nat);
            let q0 = (am * pp) / bm;
            let rr = (am * pp) % bm;
            vstd::arithmetic::div_mod::lemma_fundamental_div_mod(am * pp, bm);
            vstd::arithmetic::div_mod::lemma_mod_bound(am * pp, bm);
            lemma_pow10_adds(p as nat, (DECIMAL_SCALE - p) as nat);
            lemma_pow10_pos(p as nat);
            lemma_pow10_pos((DECIMAL_SCALE - p) as nat);
            lemma_pow10_adds((18 + p) as nat, (DECIMAL_SCALE - p) as nat);
            lemma_pow10_value27();
            if q0 > pow10((18 + p) as nat) {
                assert(DIV_SATURATION * bm <= am * (DECIMAL_UNIT as int)) by (nonlinear_arith)
                    requires
                        am * pp == bm * q0 + rr,
                        rr >= 0,
                        bm >= 1,
                        q0 > pow10((18 + p) as nat),
                        pp * e == 1_000_000_000,
                        e >= 1,
                        pp >= 1,
                        pow10((18 + p) as nat) * e == DIV_SATURATION,
                ;
            } else {
                assert((q0 * e) * bm <= am * (DECIMAL_UNIT as int)) by (nonlinear_arith)
                    requires
                        am * pp == bm * q0 + rr,
                        rr >= 0,
                        bm >= 1,
                        am >= 0,
                        q0 >= 0,
                        pp * e == 1_000_000_000,
                        e >= 1,
                        pp >= 1,
                ;
            }
            lemma_pow10_adds((18 + p) as nat, (DECIMAL_SCALE - p) as nat);
            lemma_pow10_value27();
        }
        if q > t {
            Some(Decimal { mantissa: DIV_SATURATION })
        } else {
            proof {
                vstd::arithmetic::mul::lemma_mul_upper_bound(
                    q as int,
                    pow10((p + 18) as nat),
                    e as int,
                    pow10((DECIMAL_SCALE - p) as nat),
                );
                vstd::arithmetic::mul::lemma_mul_nonnegative(q as int, e as int);
                lemma_pow10_adds((p + 18) as nat, (DECIMAL_SCALE - p) as nat);
                lemma_pow10_value27();
            }
            Some(Decimal { mantissa: (q * e) as i128 })
        }
    }
}

/// Mantissa of the product of two decimals, truncated to `p` digits.
pub open spec fn mul_trunc_at(am: int, bm: int, p: nat) -> int {
    div_towards_zero(am * bm, pow10((2 * DECIMAL_SCALE - p) as nat)) * pow10(
        (DECIMAL_SCALE - p) as nat,
    )
}

/// Saturation bound of [`Decimal::div_trunc_dp_sat`].
pub const DIV_SATURATION: i128 = 1_000_000_000_000_000_000_000_000_000;

/// Mantissa of the quotient of two decimals (the second nonzero, both
/// nonnegative), truncated to `p` digits and saturated at `DIV_SATURATION`.
pub open spec fn div_sat_at(am: int, bm: int, p: nat) -> int {
    let q = (am * pow10(p)) / bm;
    if q > pow10((18 + p) as nat) {
        DIV_SATURATION as int
    } else {
        q * pow10((DECIMAL_SCALE - p) as nat)
    }
}

/// `10^n` as a `u128`.
pub fn pow10_u128(n: u32) -> (r: u128)
    requires
        n <= DECIMAL_SCALE,
    ensures
        r == pow10(n as nat),
        1 <= r <= 1_000_000_000,
{
    proof {
        lemma_pow10_values();
    }
    if n == 0 {
        1
    } else if n == 1 {
        10
    } else if n == 2 {
        100
    } else if n == 3 {
        1_000
    } else if n == 4 {
        10_000
    } else if n == 5 {
        100_000
    } else if n == 6 {
        1_000_000
    } else if n == 7 {
        10_000_000
    } else if n == 8 {
        100_000_000
    } else {
        1_000_000_000
    }
}

/// Rounding a magnitude within the accepted bound stays within it:
/// the bound is a power of ten, hence a multiple of the rounding unit.
proof fn lemma_rounding_bound(mag: int, d: int)
    requires
        0 <= mag <= MAX_MANTISSA,
        1 <= d <= 1_000_000_000,
        exists|k: nat| k <= 9 && d == pow10(k),
    ensures
        0 <= ((mag + d / 2) / d) * d <= MAX_MANTISSA,
        ((mag + d / 2) / d) * d == div_half_away(mag, d) * d,
{
    let max = MAX_MANTISSA as int;
    let h = d / 2;
    let q = (mag + h) / d;
    let r = (mag + h) % d;
    let qm = max / d;
    vstd::arithmetic::div_mod::lemma_fundamental_div_mod(d, 2);
    vstd::arithmetic::div_mod::lemma_mod_bound(d, 2);
    vstd::arithmetic::div_mod::lemma_fundamental_div_mod(mag + h, d);
    vstd::arithmetic::div_mod::lemma_mod_bound(mag + h, d);
    vstd::arithmetic::div_mod::lemma_div_pos_is_pos(mag + h, d);
    lemma_max_divisible(d);
    vstd::arithmetic::div_mod::lemma_fundamental_div_mod(max, d);
    assert(0 <= q * d <= max) by (nonlinear_arith)
        requires
            mag + h == d * q + r,
            0 <= r < d,
            0 <= mag <= max,
            q >= 0,
            max == d * qm + max % d,
            max % d == 0,
            2 * h <= d <= 2 * h + 1,
            0 <= h,
            1 <= d,
    ;
}

/// Truncating a magnitude within the accepted bound stays within it.
proof fn lemma_trunc_bound(mag: int, d: int)
    requires
        0 <= mag <= MAX_MANTISSA,
        1 <= d <= 1_000_000_000,
    ensures
        0 <= (mag / d) * d <= MAX_MANTISSA,
        (mag / d) * d == div_towards_zero(mag, d) * d,
{
    let q = mag / d;
    assert(q * d <= mag) by {
        vstd::arithmetic::div_mod::lemma_fundamental_div_mod(mag, d);
        vstd::arithmetic::div_mod::lemma_mod_bound(mag, d);
    }
    vstd::arithmetic::div_mod::lemma_div_is_ordered(0, mag, d);
    vstd::arithmetic::mul::lemma_mul_nonnegative(q, d);
}

/// `MAX_MANTISSA` is a multiple of every rounding unit in range.
proof fn lemma_max_divisible(d: int)
    requires
        1 <= d <= 1_000_000_000,
        exists|k: nat| k <= 9 && d == pow10(k),
    ensures
        (MAX_MANTISSA as int) % d == 0,
{
    let k = choose|k: nat| k <= 9 && d == pow10(k);
    lemma_pow10_values();
    if k == 0 {
        assert(MAX_MANTISSA % 1 == 0);
    } else if k == 1 {
        assert(MAX_MANTISSA % 10 == 0);
    } else if k == 2 {
        assert(MAX_MANTISSA % 100 == 0);
    } else if k == 3 {
        assert(MAX_MANTISSA % 1000 == 0);
    } else if k == 4 {
        assert(MAX_MANTISSA % 10000 == 0);
    } else if k == 5 {
        assert(MAX_MANTISSA % 100000 == 0);
    } else if k == 6 {
        assert(MAX_MANTISSA % 1000000 == 0);
    } else if k == 7 {
        assert(MAX_MANTISSA % 10000000 == 0);
    } else if k == 8 {
        assert(MAX_MANTISSA % 100000000 == 0);
    } else {
        assert(MAX_MANTISSA % 1000000000 == 0);
    }
}

/// `10^27`, the saturation bound, written out.
pub proof fn lemma_pow10_value27()
    ensures
        pow10(27) == 1_000_000_000_000_000_000_000_000_000,
{
    lemma_pow10_values();
    assert(pow10(19) == 10_000_000_000_000_000_000);
    assert(pow10(20) == 100_000_000_000_000_000_000);
    assert(pow10(21) == 1_000_000_000_000_000_000_000);
    assert(pow10(22) == 10_000_000_000_000_000_000_000);
    assert(pow10(23) == 100_000_000_000_000_000_000_000);
    assert(pow10(24) == 1_000_000_000_000_000_000_000_000);
    assert(pow10(25) == 10_000_000_000_000_000_000_000_000);
    assert(pow10(26) == 100_000_000_000_000_000_000_000_000);
    assert(pow10(27) == 1_000_000_000_000_000_000_000_000_000);
}

/// Truncating a product bounded by `MAX_PRODUCT` at the product scale
/// and rescaling stays within the accepted mantissa bound.
proof fn lemma_product_trunc_bound(mag: int, d: int, e: int)
    requires
        0 <= mag <= MAX_PRODUCT,
        1 <= e <= 1_000_000_000,
        d == 1_000_000_000 * e,
    ensures
        0 <= (mag / d) * e <= MAX_MANTISSA,
        (mag / d) * e == div_towards_zero(mag, d) * e,
{
    let q = mag / d;
    let r = mag % d;
    vstd::arithmetic::div_mod::lemma_fundamental_div_mod(mag, d);
    vstd::arithmetic::div_mod::lemma_mod_bound(mag, d);
    vstd::arithmetic::div_mod::lemma_div_pos_is_pos(mag, d);
    assert(q * d <= mag && q * d == (q * e) * 1_000_000_000 && q * e >= 0) by (nonlinear_arith)
        requires
            mag == d * q + r,
            r >= 0,
            q >= 0,
            e >= 1,
            d == 1_000_000_000 * e,
    ;
}

/// Rounding keeps the sign: a nonnegative mantissa rounds nonnegative.
pub proof fn lemma_round_nonneg(m: int, p: nat)
    requires
        m >= 0,
        p <= DECIMAL_SCALE,
    ensures
        round_half_at(m, p) >= 0,
        trunc_at(m, p) >= 0,
{
    let d = pow10((DECIMAL_SCALE - p) as nat);
    lemma_pow10_pos((DECIMAL_SCALE - p) as nat);
    vstd::arithmetic::div_mod::lemma_div_pos_is_pos(m + d / 2, d);
    vstd::arithmetic::div_mod::lemma_div_pos_is_pos(m, d);
    vstd::arithmetic::mul::lemma_mul_nonnegative((m + d / 2) / d, d);
    vstd::arithmetic::mul::lemma_mul_nonnegative(m / d, d);
}

/// Rounding never grows a nonnegative mantissa past the next multiple:
/// the result stays at most `m + d` and truncation stays at most `m`.
pub proof fn lemma_trunc_le(m: int, p: nat)
    requires
        m >= 0,
        p <= DECIMAL_SCALE,
    ensures
        trunc_at(m, p) <= m,
{
    let d = pow10((DECIMAL_SCALE - p) as nat);
    lemma_pow10_pos((DECIMAL_SCALE - p) as nat);
    vstd::arithmetic::div_mod::lemma_fundamental_div_mod(m, d);
    vstd::arithmetic::div_mod::lemma_mod_bound(m, d);
    vstd::arithmetic::mul::lemma_mul_is_commutative(d, m / d);
}

/// For `m <= 0`, the magnitude's remainder vanishes exactly when `m`'s does.
proof fn lemma_neg_mod(m: int, d: int)
    requires
        m <= 0,
        d >= 1,
    ensures
        ((-m) % d == 0) == (m % d == 0),
{
    if (-m) % d == 0 {
        vstd::arithmetic::div_mod::lemma_fundamental_div_mod(-m, d);
        let q = (-m) / d;
        assert(m == (-q) * d) by {
            vstd::arithmetic::mul::lemma_mul_is_commutative(d, q);
            vstd::arithmetic::mul::lemma_mul_unary_negation(q, d);
        }
        vstd::arithmetic::div_mod::lemma_mod_multiples_basic(-q, d);
    }
    if m % d == 0 {
        vstd::arithmetic::div_mod::lemma_fundamental_div_mod(m, d);
        let q = m / d;
        assert(-m == (-q) * d) by {
            vstd::arithmetic::mul::lemma_mul_is_commutative(d, q);
            vstd::arithmetic::mul::lemma_mul_unary_negation(q, d);
        }
        vstd::arithmetic::div_mod::lemma_mod_multiples_basic(-q, d);
    }
}

/// A product of two mantissas that respect complementary precisions is
/// exact at their combined precision: nothing is truncated.
pub proof fn lemma_exact_mul(am: int, pm: int, ap: nat, pp: nat)
    requires
        0 <= am,
        0 <= pm,
        ap <= DECIMAL_SCALE,
        pp <= DECIMAL_SCALE,
        ap + pp <= DECIMAL_SCALE,
        am % pow10((DECIMAL_SCALE - ap) as nat) == 0,
        pm % pow10((DECIMAL_SCALE - pp) as nat) == 0,
    ensures
        mul_trunc_at(am, pm, (ap + pp) as nat) * (DECIMAL_UNIT as int) == am * pm,
        mul_trunc_at(am, pm, (ap + pp) as nat) % pow10((DECIMAL_SCALE - (ap + pp)) as nat) == 0,
{
    let d1 = pow10((DECIMAL_SCALE - ap) as nat);
    let d2 = pow10((DECIMAL_SCALE - pp) as nat);
    let dd = pow10((2 * DECIMAL_SCALE - (ap + pp)) as nat);
    let e = pow10((DECIMAL_SCALE - (ap + pp)) as nat);
    lemma_pow10_pos((DECIMAL_SCALE - ap) as nat);
    lemma_pow10_pos((DECIMAL_SCALE - pp) as nat);
    lemma_pow10_pos((DECIMAL_SCALE - (ap + pp)) as nat);
    lemma_pow10_adds((DECIMAL_SCALE - ap) as nat, (DECIMAL_SCALE - pp) as nat);
    let a1 = am / d1;
    let p1 = pm / d2;
    vstd::arithmetic::div_mod::lemma_fundamental_div_mod(am, d1);
    vstd::arithmetic::div_mod::lemma_fundamental_div_mod(pm, d2);
    vstd::arithmetic::div_mod::lemma_div_pos_is_pos(am, d1);
    vstd::arithmetic::div_mod::lemma_div_pos_is_pos(pm, d2);
    assert(am * pm == (a1 * p1) * dd && a1 * p1 >= 0) by (nonlinear_arith)
        requires
            am == d1 * a1 + 0,
            pm == d2 * p1 + 0,
            d1 * d2 == dd,
            a1 >= 0,
            p1 >= 0,
    ;
    lemma_pow10_pos((2 * DECIMAL_SCALE - (ap + pp)) as nat);
    vstd::arithmetic::div_mod::lemma_div_multiples_vanish(a1 * p1, dd);
    vstd::arithmetic::mul::lemma_mul_is_commutative(a1 * p1, dd);
    assert(am * pm == dd * (a1 * p1));
    assert((am * pm) / dd == a1 * p1);
    assert(mul_trunc_at(am, pm, (ap + pp) as nat) == (a1 * p1) * e);
    lemma_pow10_adds((DECIMAL_SCALE - (ap + pp)) as nat, DECIMAL_SCALE as nat);
    lemma_pow10_values();
    assert(((a1 * p1) * e) * (DECIMAL_UNIT as int) == (a1 * p1) * dd) by (nonlinear_arith)
        requires
            e * 1_000_000_000 == dd,
            DECIMAL_UNIT == 1_000_000_000,
    ;
    vstd::arithmetic::div_mod::lemma_mod_multiples_basic(a1 * p1, e);
    assert((a1 * p1) * e % e == 0);
}

/// Rounding below a bound that is itself a multiple of the rounding
/// unit stays below that bound.
pub proof fn lemma_round_le_bound(m: int, p: nat, b: int)
    requires
        0 <= m <= b,
        p <= DECIMAL_SCALE,
        b % pow10((DECIMAL_SCALE - p) as nat) == 0,
    ensures
        round_half_at(m, p) <= b,
        trunc_at(m, p) <= b,
{
    let d = pow10((DECIMAL_SCALE - p) as nat);
    lemma_pow10_pos((DECIMAL_SCALE - p) as nat);
    let h = d / 2;
    let q = (m + h) / d;
    let qb = b / d;
    vstd::arithmetic::div_mod::lemma_fundamental_div_mod(b, d);
    vstd::arithmetic::div_mod::lemma_fundamental_div_mod(m + h, d);
    vstd::arithmetic::div_mod::lemma_mod_bound(m + h, d);
    vstd::arithmetic::div_mod::lemma_div_pos_is_pos(m + h, d);
    vstd::arithmetic::div_mod::lemma_fundamental_div_mod(d, 2);
    vstd::arithmetic::div_mod::lemma_mod_bound(d, 2);
    assert(q * d <= b) by (nonlinear_arith)
        requires
            m + h == d * q + (m + h) % d,
            0 <= (m + h) % d < d,
            0 <= m <= b,
            b == d * qb + 0,
            2 * h <= d <= 2 * h + 1,
            0 <= h,
            1 <= d,
            q >= 0,
    ;
    lemma_trunc_le(m, p);
}

/// Smaller powers of ten divide larger ones.
pub proof fn lemma_pow10_divides(a: nat, b: nat)
    requires
        a <= b,
    ensures
        pow10(b) % pow10(a) == 0,
{
    lemma_pow10_adds(a, (b - a) as nat);
    lemma_pow10_pos(a);
    vstd::arithmetic::mul::lemma_mul_is_commutative(pow10(a), pow10((b - a) as nat));
    vstd::arithmetic::div_mod::lemma_mod_multiples_basic(pow10((b - a) as nat), pow10(a));
}

/// Differences of multiples stay multiples.
pub proof fn lemma_mod_diff(a: int, b: int, d: int)
    requires
        d >= 1,
        a % d == 0,
        b % d == 0,
    ensures
        (a - b) % d == 0,
        (a + b) % d == 0,
{
    vstd::arithmetic::div_mod::lemma_fundamental_div_mod(a, d);
    vstd::arithmetic::div_mod::lemma_fundamental_div_mod(b, d);
    let qa = a / d;
    let qb = b / d;
    assert(a - b == d * (qa - qb) && a + b == d * (qa + qb)) by (nonlinear_arith)
        requires
            a == d * qa + 0,
            b == d * qb + 0,
    ;
    vstd::arithmetic::mul::lemma_mul_is_commutative(d, qa - qb);
    vstd::arithmetic::mul::lemma_mul_is_commutative(d, qa + qb);
    vstd::arithmetic::div_mod::lemma_mod_multiples_basic(qa - qb, d);
    vstd::arithmetic::div_mod::lemma_mod_multiples_basic(qa + qb, d);
}

/// A rounded mantissa is a multiple of its rounding unit.
pub proof fn lemma_round_is_multiple(m: int, p: nat)
    requires
        p <= DECIMAL_SCALE,
    ensures
        round_half_at(m, p) % pow10((DECIMAL_SCALE - p) as nat) == 0,
        trunc_at(m, p) % pow10((DECIMAL_SCALE - p) as nat) == 0,
{
    let d = pow10((DECIMAL_SCALE - p) as nat);
    lemma_pow10_pos((DECIMAL_SCALE - p) as nat);
    vstd::arithmetic::div_mod::lemma_mod_multiples_basic(div_half_away(m, d), d);
    vstd::arithmetic::div_mod::lemma_mod_multiples_basic(div_towards_zero(m, d), d);
}

/// A truncated fee on `x` at a rate below one never exceeds `x`.
pub proof fn lemma_fee_le(x: int, rate: int, p: nat)
    requires
        0 <= x <= MAX_MANTISSA,
        0 <= rate < DECIMAL_UNIT,
        p <= DECIMAL_SCALE,
    ensures
        0 <= mul_trunc_at(x, rate, p) <= x,
{
    let dd = pow10((2 * DECIMAL_SCALE - p) as nat);
    let e = pow10((DECIMAL_SCALE - p) as nat);
    let q = (x * rate) / dd;
    lemma_pow10_pos((DECIMAL_SCALE - p) as nat);
    lemma_pow10_adds((DECIMAL_SCALE - p) as nat, DECIMAL_SCALE as nat);
    lemma_pow10_values();
    vstd::arithmetic::mul::lemma_mul_nonnegative(x, rate);
    vstd::arithmetic::div_mod::lemma_fundamental_div_mod(x * rate, dd);
    vstd::arithmetic::div_mod::lemma_mod_bound(x * rate, dd);
    vstd::arithmetic::div_mod::lemma_div_pos_is_pos(x * rate, dd);
    assert(q * e <= x && q * e >= 0) by (nonlinear_arith)
        requires
            x * rate == dd * q + (x * rate) % dd,
            (x * rate) % dd >= 0,
            q >= 0,
            x >= 0,
            0 <= rate < 1_000_000_000,
            e >= 1,
            e * 1_000_000_000 == dd,
    ;
}

} // verus!
