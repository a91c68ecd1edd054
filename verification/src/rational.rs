//! Exact rational arithmetic for monetary values.
//!
//! Every quantity, price and amount in the ledger is an exact rational
//! `num / den` with `den > 0`.  Operations reduce the result by the greatest
//! common divisor and fail (return `None`) only when even the reduced value
//! no longer fits the 64-bit field, so chained conversions compound no
//! rounding error; rounding happens once, in the reporting layer.

use vstd::arithmetic::div_mod::{
    lemma_fundamental_div_mod, lemma_mod_multiples_basic, lemma_mod_self_0,
};
use vstd::prelude::*;

verus! {

/// Mathematical value of a rational: numerator `n` over denominator `d`.
pub ghost struct Rv {
    pub n: int,
    pub d: int,
}

/// Largest magnitude a stored numerator or denominator may take.
pub open spec fn max_mag() -> int {
    0x7fff_ffff_ffff_ffff
}

pub open spec fn in_mag(v: int) -> bool {
    -max_mag() <= v && v <= max_mag()
}

/// Magnitude of an integer.
pub open spec fn mag(n: int) -> nat {
    if n >= 0 {
        n as nat
    } else {
        (-n) as nat
    }
}

/// Greatest common divisor by Euclid's recurrence.
pub open spec fn gcd(a: nat, b: nat) -> nat
    decreases b,
{
    if b == 0 {
        a
    } else {
        gcd(b, a % b)
    }
}

/// The gcd of two numbers, not both zero, is positive and divides both.
pub proof fn lemma_gcd_divides(a: nat, b: nat)
    requires
        a > 0 || b > 0,
    ensures
        gcd(a, b) > 0,
        a as int % (gcd(a, b) as int) == 0,
        b as int % (gcd(a, b) as int) == 0,
    decreases b,
{
    if b == 0 {
        lemma_mod_self_0(a as int);
        assert(a as int % (a as int) == 0);
    } else {
        let g = gcd(b, a % b);
        lemma_gcd_divides(b, a % b);
        let gi = g as int;
        lemma_fundamental_div_mod(a as int, b as int);
        lemma_fundamental_div_mod(b as int, gi);
        lemma_fundamental_div_mod((a % b) as int, gi);
        let k1 = b as int / gi;
        let k2 = (a % b) as int / gi;
        let q = a as int / b as int;
        assert(b as int == gi * k1);
        assert((a % b) as int == gi * k2);
        assert(a as int == (k1 * q + k2) * gi) by (nonlinear_arith)
            requires
                a as int == b as int * q + (a % b) as int,
                b as int == gi * k1,
                (a % b) as int == gi * k2,
        ;
        lemma_mod_multiples_basic(k1 * q + k2, gi);
    }
}

/// A well-formed value: positive denominator, both fields in range.
pub open spec fn rv_wf(a: Rv) -> bool {
    0 < a.d <= max_mag() && in_mag(a.n)
}

/// Value equality of two rationals, by cross multiplication.
pub open spec fn rv_eq(a: Rv, b: Rv) -> bool {
    a.n * b.d == b.n * a.d
}

pub open spec fn rv_zero() -> Rv {
    Rv { n: 0, d: 1 }
}

pub open spec fn rv_one() -> Rv {
    Rv { n: 1, d: 1 }
}

/// Exact (unreduced) sum.
pub open spec fn rv_add(a: Rv, b: Rv) -> Rv {
    Rv { n: a.n * b.d + b.n * a.d, d: a.d * b.d }
}

/// Exact (unreduced) difference.
pub open spec fn rv_sub(a: Rv, b: Rv) -> Rv {
    Rv { n: a.n * b.d - b.n * a.d, d: a.d * b.d }
}

/// Exact (unreduced) product.
pub open spec fn rv_mul(a: Rv, b: Rv) -> Rv {
    Rv { n: a.n * b.n, d: a.d * b.d }
}

/// Exact quotient, sign moved into the numerator.
pub open spec fn rv_div(a: Rv, b: Rv) -> Rv {
    if b.n >= 0 {
        Rv { n: a.n * b.d, d: a.d * b.n }
    } else {
        Rv { n: -(a.n * b.d), d: -(a.d * b.n) }
    }
}

pub open spec fn rv_neg(a: Rv) -> Rv {
    Rv { n: -a.n, d: a.d }
}

/// Reduction of `n / d` by the gcd; `None` when the reduced pair does not
/// fit the stored 64-bit fields.
pub open spec fn norm_v(n: int, d: int) -> Option<Rv>
    recommends
        d > 0,
{
    let g = gcd(mag(n), d as nat) as int;
    if g <= 0 {
        None
    } else {
        let n2 = n / g;
        let d2 = d / g;
        if in_mag(n2) && 0 < d2 <= max_mag() {
            Some(Rv { n: n2, d: d2 })
        } else {
            None
        }
    }
}

/// Reduced sum: what `Rat::add` returns.
pub open spec fn add_v(a: Rv, b: Rv) -> Option<Rv> {
    norm_v(rv_add(a, b).n, rv_add(a, b).d)
}

/// Reduced difference: what `Rat::sub` returns.
pub open spec fn sub_v(a: Rv, b: Rv) -> Option<Rv> {
    norm_v(rv_sub(a, b).n, rv_sub(a, b).d)
}

/// Reduced product: what `Rat::mul` returns.
pub open spec fn mul_v(a: Rv, b: Rv) -> Option<Rv> {
    norm_v(rv_mul(a, b).n, rv_mul(a, b).d)
}

/// Reduced quotient: what `Rat::div` returns; `None` on a zero divisor.
pub open spec fn div_v(a: Rv, b: Rv) -> Option<Rv> {
    if b.n == 0 {
        None
    } else {
        norm_v(rv_div(a, b).n, rv_div(a, b).d)
    }
}

/// Reduction keeps the value: the reduced pair is cross-equal to the input.
pub proof fn lemma_norm_rv_eq(n: int, d: int)
    requires
        d > 0,
        norm_v(n, d) is Some,
    ensures
        rv_wf(norm_v(n, d).unwrap()),
        rv_eq(norm_v(n, d).unwrap(), Rv { n, d }),
{
    let g = gcd(mag(n), d as nat) as int;
    lemma_gcd_divides(mag(n), d as nat);
    let r = norm_v(n, d).unwrap();
    lemma_div_exact(n, g);
    lemma_div_exact(d, g);
    assert(r.n * d == n * r.d) by (nonlinear_arith)
        requires
            n == g * r.n,
            d == g * r.d,
    ;
}

/// For `g > 0` dividing `mag(x)`, `x == g * (x / g)`.
proof fn lemma_div_exact(x: int, g: int)
    requires
        g > 0,
        mag(x) as int % g == 0 || x % g == 0,
    ensures
        x == g * (x / g),
        x % g == 0,
{
    if mag(x) as int % g == 0 && !(x % g == 0) {
        // mod of the magnitude and of the value agree up to sign
        lemma_fundamental_div_mod(mag(x) as int, g);
        let q = mag(x) as int / g;
        if x >= 0 {
            assert(x % g == 0) by (nonlinear_arith)
                requires
                    x == g * q,
                    g > 0,
            {
                lemma_mod_multiples_basic(q, g);
            }
        } else {
            assert(x == g * (-q)) by (nonlinear_arith)
                requires
                    -x == g * q,
            ;
            lemma_mod_multiples_basic(-q, g);
        }
    }
    lemma_fundamental_div_mod(x, g);
}

/// Cross-equality is transitive across a well-formed middle value.
pub proof fn lemma_rv_eq_trans(a: Rv, b: Rv, c: Rv)
    requires
        b.d != 0,
        rv_eq(a, b),
        rv_eq(b, c),
    ensures
        rv_eq(a, c),
{
    assert(a.n * c.d == c.n * a.d) by (nonlinear_arith)
        requires
            a.n * b.d == b.n * a.d,
            b.n * c.d == c.n * b.d,
            b.d != 0,
    ;
}

/// Multiplication respects cross-equality.
pub proof fn lemma_mul_congruence(a: Rv, b: Rv, x: Rv, y: Rv)
    requires
        rv_eq(a, x),
        rv_eq(b, y),
    ensures
        rv_eq(rv_mul(a, b), rv_mul(x, y)),
{
    assert((a.n * b.n) * (x.d * y.d) == (x.n * y.n) * (a.d * b.d)) by (nonlinear_arith)
        requires
            a.n * x.d == x.n * a.d,
            b.n * y.d == y.n * b.d,
    ;
}

/// Addition respects cross-equality.
pub proof fn lemma_add_congruence(a: Rv, b: Rv, x: Rv, y: Rv)
    requires
        rv_eq(a, x),
        rv_eq(b, y),
    ensures
        rv_eq(rv_add(a, b), rv_add(x, y)),
{
    let l1 = a.n * b.d;
    let l2 = b.n * a.d;
    let m = x.d * y.d;
    assert(l1 * m == (x.n * y.d) * (a.d * b.d)) by (nonlinear_arith)
        requires
            l1 == a.n * b.d,
            m == x.d * y.d,
            a.n * x.d == x.n * a.d,
    ;
    assert(l2 * m == (y.n * x.d) * (a.d * b.d)) by (nonlinear_arith)
        requires
            l2 == b.n * a.d,
            m == x.d * y.d,
            b.n * y.d == y.n * b.d,
    ;
    assert((l1 + l2) * m == l1 * m + l2 * m) by (nonlinear_arith);
    assert((x.n * y.d) * (a.d * b.d) + (y.n * x.d) * (a.d * b.d) == (x.n * y.d + y.n * x.d) * (a.d
        * b.d)) by (nonlinear_arith);
}

/// `(x * r) * s` is cross-equal to `x * (r * s)`.
pub proof fn lemma_mul_assoc_v(x: Rv, r: Rv, s: Rv)
    ensures
        rv_eq(rv_mul(rv_mul(x, r), s), rv_mul(x, rv_mul(r, s))),
{
    assert(((x.n * r.n) * s.n) * (x.d * (r.d * s.d)) == (x.n * (r.n * s.n)) * ((x.d * r.d) * s.d))
        by (nonlinear_arith);
}

/// Multiplying by a value cross-equal to one keeps the value.
pub proof fn lemma_mul_one_v(x: Rv, u: Rv)
    requires
        rv_eq(u, rv_one()),
    ensures
        rv_eq(rv_mul(x, u), x),
{
    assert((x.n * u.n) * x.d == x.n * (x.d * u.d)) by (nonlinear_arith)
        requires
            u.n * 1 == 1 * u.d,
    ;
}

/// Ten to the power `e`.
pub open spec fn pow10(e: int) -> int
    decreases e,
{
    if e <= 0 {
        1
    } else {
        10 * pow10(e - 1)
    }
}

proof fn lemma_pow10_pos(e: int)
    ensures
        pow10(e) >= 1,
    decreases e,
{
    if e > 0 {
        lemma_pow10_pos(e - 1);
    }
}

proof fn lemma_pow10_mono(a: int, b: int)
    requires
        a <= b,
    ensures
        pow10(a) <= pow10(b),
        pow10(a) >= 1,
    decreases b - a,
{
    lemma_pow10_pos(a);
    if a < b {
        lemma_pow10_mono(a, b - 1);
        lemma_pow10_pos(b - 1);
    }
}

proof fn lemma_pow10_bounds(e: int)
    requires
        e <= 18,
    ensures
        1 <= pow10(e) <= 0x0de0_b6b3_a764_0000,
{
    lemma_pow10_mono(e, 18);
    assert(pow10(18) == 0x0de0_b6b3_a764_0000) by {
        reveal_with_fuel(pow10, 19);
    }
}

/// The value of a rational rounded to `dp` decimal digits, half away from
/// zero, as a rational over `10^dp`; `None` when even that overflows.
pub open spec fn round_v(a: Rv, dp: int) -> Option<Rv> {
    let s = pow10(dp);
    let p = mag(a.n) as int * s;
    let q = p / a.d + if 2 * (p % a.d) >= a.d {
        1int
    } else {
        0int
    };
    let n = if a.n >= 0 {
        q
    } else {
        -q
    };
    if in_mag(n) && 0 < s <= max_mag() {
        Some(Rv { n, d: s })
    } else {
        None
    }
}

/// An exact rational number with a positive denominator.
#[derive(Clone, Copy, Debug)]
pub struct Rat {
    num: i64,
    den: i64,
}

impl View for Rat {
    type V = Rv;

    closed spec fn view(&self) -> Rv {
        Rv { n: self.num as int, d: self.den as int }
    }
}

impl PartialEq for Rat {
    /// Value equality: `a/b == c/d` iff `a*d == c*b`.
    fn eq(&self, other: &Rat) -> bool {
        proof {
            lemma_mul_mag(self@.n, other@.d, 0x8000_0000_0000_0000, 0x8000_0000_0000_0000);
            lemma_mul_mag(other@.n, self@.d, 0x8000_0000_0000_0000, 0x8000_0000_0000_0000);
        }
        (self.num as i128) * (other.den as i128) == (other.num as i128) * (self.den as i128)
    }
}

impl vstd::std_specs::cmp::PartialEqSpecImpl for Rat {
    open spec fn obeys_eq_spec() -> bool {
        true
    }

    open spec fn eq_spec(&self, other: &Rat) -> bool {
        rv_eq(self@, other@)
    }
}

/// Euclid's algorithm on unsigned machine words.
fn gcd_u(a: u128, b: u128) -> (g: u128)
    ensures
        g as nat == gcd(a as nat, b as nat),
{
    let mut x = a;
    let mut y = b;
    while y != 0
        invariant
            gcd(x as nat, y as nat) == gcd(a as nat, b as nat),
        decreases y,
    {
        let t = x % y;
        x = y;
        y = t;
    }
    x
}

/// Reduce `n / d` (with `d > 0`) to a stored rational, or report overflow.
fn norm128(n: i128, d: i128) -> (r: Option<Rat>)
    requires
        d > 0,
        -0x7fff_ffff_ffff_ffff_ffff_ffff_ffff_ffffi128 <= n,
    ensures
        match r {
            Some(x) => x.wf() && norm_v(n as int, d as int) == Some(x@),
            None => norm_v(n as int, d as int) is None,
        },
{
    let a: u128 = if n >= 0 {
        n as u128
    } else {
        (-n) as u128
    };
    let du: u128 = d as u128;
    let g: u128 = gcd_u(a, du);
    proof {
        lemma_gcd_divides(a as nat, du as nat);
        assert(a as nat == mag(n as int));
    }
    let n2u: u128 = a / g;
    let d2u: u128 = du / g;
    proof {
        let gi = g as int;
        lemma_div_exact(a as int, gi);
        lemma_div_exact(d as int, gi);
        // exec magnitudes match the spec quotients
        if n < 0 {
            assert(n as int == gi * (-(n2u as int))) by (nonlinear_arith)
                requires
                    -(n as int) == gi * (n2u as int),
            ;
            vstd::arithmetic::div_mod::lemma_div_multiples_vanish(-(n2u as int), gi);
        }
        assert(d2u as int >= 1) by (nonlinear_arith)
            requires
                d as int == gi * (d2u as int),
                d > 0,
                gi > 0,
        ;
    }
    if n2u <= 0x7fff_ffff_ffff_ffffu128 && d2u <= 0x7fff_ffff_ffff_ffffu128 {
        let num: i64 = if n >= 0 {
            n2u as i64
        } else {
            -(n2u as i64)
        };
        Some(Rat { num, den: d2u as i64 })
    } else {
        None
    }
}

/// Bound the magnitude of a product from bounds on its factors.
proof fn lemma_mul_mag(x: int, y: int, bx: int, by: int)
    requires
        -bx <= x <= bx,
        -by <= y <= by,
        0 <= bx,
        0 <= by,
    ensures
        -(bx * by) <= x * y <= bx * by,
{
    assert(-(bx * by) <= x * y <= bx * by) by (nonlinear_arith)
        requires
            -bx <= x <= bx,
            -by <= y <= by,
            0 <= bx,
            0 <= by,
    ;
}

impl Rat {
    /// Validity: positive denominator, fields in range.
    pub open spec fn wf(self) -> bool {
        rv_wf(self@)
    }

    /// Build `num / den` in lowest terms.  Inputs already fit the stored
    /// fields, so reduction cannot overflow.
    pub fn new(num: i64, den: i64) -> (r: Rat)
        requires
            den > 0,
            -0x7fff_ffff_ffff_ffff <= num,
        ensures
            r.wf(),
            norm_v(num as int, den as int) == Some(r@),
            rv_eq(r@, Rv { n: num as int, d: den as int }),
    {
        proof {
            let g = gcd(mag(num as int), den as nat) as int;
            lemma_gcd_divides(mag(num as int), den as nat);
            lemma_div_exact(num as int, g);
            lemma_div_exact(den as int, g);
            let n2 = num as int / g;
            let d2 = den as int / g;
            assert(in_mag(n2) && 0 < d2 <= max_mag()) by (nonlinear_arith)
                requires
                    num as int == g * n2,
                    den as int == g * d2,
                    g >= 1,
                    den > 0,
                    -0x7fff_ffff_ffff_ffff <= num as int <= 0x7fff_ffff_ffff_ffff,
                    0 < den as int <= 0x7fff_ffff_ffff_ffff,
            ;
            lemma_norm_rv_eq(num as int, den as int);
        }
        norm128(num as i128, den as i128).unwrap()
    }

    /// The integer `i` as a rational.
    pub fn from_int(i: i64) -> (r: Rat)
        requires
            -0x7fff_ffff_ffff_ffff <= i,
        ensures
            r.wf(),
            r@ == (Rv { n: i as int, d: 1 }),
    {
        Rat { num: i, den: 1 }
    }

    pub fn zero() -> (r: Rat)
        ensures
            r.wf(),
            r@ == rv_zero(),
    {
        Rat { num: 0, den: 1 }
    }

    pub fn one() -> (r: Rat)
        ensures
            r.wf(),
            r@ == rv_one(),
    {
        Rat { num: 1, den: 1 }
    }

    pub fn numer(&self) -> (n: i64)
        ensures
            n as int == self@.n,
    {
        self.num
    }

    pub fn denom(&self) -> (d: i64)
        ensures
            d as int == self@.d,
    {
        self.den
    }

    pub fn is_zero(&self) -> (r: bool)
        ensures
            r == (self@.n == 0),
    {
        self.num == 0
    }

    pub fn is_positive(&self) -> (r: bool)
        ensures
            r == (self@.n > 0),
    {
        self.num > 0
    }

    pub fn is_negative(&self) -> (r: bool)
        ensures
            r == (self@.n < 0),
    {
        self.num < 0
    }

    /// Reduced exact sum, `None` on overflow of the reduced value.
    pub fn add(self, other: Rat) -> (r: Option<Rat>)
        requires
            self.wf(),
            other.wf(),
        ensures
            match r {
                Some(x) => x.wf() && add_v(self@, other@) == Some(x@),
                None => add_v(self@, other@) is None,
            },
    {
        proof {
            lemma_mul_mag(self@.n, other@.d, max_mag(), max_mag());
            lemma_mul_mag(other@.n, self@.d, max_mag(), max_mag());
            lemma_mul_mag(self@.d, other@.d, max_mag(), max_mag());
            assert(self@.d * other@.d > 0) by (nonlinear_arith)
                requires
                    self@.d > 0,
                    other@.d > 0,
            ;
        }
        let n: i128 = (self.num as i128) * (other.den as i128) + (other.num as i128) * (self.den
            as i128);
        let d: i128 = (self.den as i128) * (other.den as i128);
        norm128(n, d)
    }

    /// Reduced exact difference, `None` on overflow of the reduced value.
    pub fn sub(self, other: Rat) -> (r: Option<Rat>)
        requires
            self.wf(),
            other.wf(),
        ensures
            match r {
                Some(x) => x.wf() && sub_v(self@, other@) == Some(x@),
                None => sub_v(self@, other@) is None,
            },
    {
        proof {
            lemma_mul_mag(self@.n, other@.d, max_mag(), max_mag());
            lemma_mul_mag(other@.n, self@.d, max_mag(), max_mag());
            lemma_mul_mag(self@.d, other@.d, max_mag(), max_mag());
            assert(self@.d * other@.d > 0) by (nonlinear_arith)
                requires
                    self@.d > 0,
                    other@.d > 0,
            ;
        }
        let n: i128 = (self.num as i128) * (other.den as i128) - (other.num as i128) * (self.den
            as i128);
        let d: i128 = (self.den as i128) * (other.den as i128);
        norm128(n, d)
    }

    /// Reduced exact product, `None` on overflow of the reduced value.
    pub fn mul(self, other: Rat) -> (r: Option<Rat>)
        requires
            self.wf(),
            other.wf(),
        ensures
            match r {
                Some(x) => x.wf() && mul_v(self@, other@) == Some(x@),
                None => mul_v(self@, other@) is None,
            },
    {
        proof {
            lemma_mul_mag(self@.n, other@.n, max_mag(), max_mag());
            lemma_mul_mag(self@.d, other@.d, max_mag(), max_mag());
            assert(self@.d * other@.d > 0) by (nonlinear_arith)
                requires
                    self@.d > 0,
                    other@.d > 0,
            ;
        }
        let n: i128 = (self.num as i128) * (other.num as i128);
        let d: i128 = (self.den as i128) * (other.den as i128);
        norm128(n, d)
    }

    /// Reduced exact quotient; `None` on a zero divisor or overflow.
    pub fn div(self, other: Rat) -> (r: Option<Rat>)
        requires
            self.wf(),
            other.wf(),
        ensures
            match r {
                Some(x) => x.wf() && div_v(self@, other@) == Some(x@),
                None => div_v(self@, other@) is None,
            },
    {
        if other.num == 0 {
            return None;
        }
        proof {
            lemma_mul_mag(self@.n, other@.d, max_mag(), max_mag());
            lemma_mul_mag(self@.d, other@.n, max_mag(), max_mag());
            assert(self@.d * other@.n != 0) by (nonlinear_arith)
                requires
                    self@.d > 0,
                    other@.n != 0,
            ;
        }
        let n0: i128 = (self.num as i128) * (other.den as i128);
        let d0: i128 = (self.den as i128) * (other.num as i128);
        proof {
            assert((self@.d * other@.n < 0) == (other@.n < 0) && (self@.d * other@.n > 0) == (
            other@.n > 0)) by (nonlinear_arith)
                requires
                    self@.d > 0,
            ;
        }
        if d0 < 0 {
            norm128(-n0, -d0)
        } else {
            norm128(n0, d0)
        }
    }

    /// Rounds to `dp` decimal digits, half away from zero.  The library's
    /// arithmetic is exact; rounding happens once, in the reporting layer,
    /// to avoid compounding error across chained conversions.
    pub fn round_dp(self, dp: u32) -> (r: Option<Rat>)
        requires
            self.wf(),
            dp <= 18,
        ensures
            match r {
                Some(x) => x.wf() && round_v(self@, dp as int) == Some(x@),
                None => round_v(self@, dp as int) is None,
            },
    {
        proof {
            lemma_pow10_bounds(dp as int);
        }
        let mut s: i64 = 1;
        let mut e: u32 = 0;
        while e < dp
            invariant
                e <= dp <= 18,
                s as int == pow10(e as int),
                1 <= s,
            decreases dp - e,
        {
            proof {
                lemma_pow10_bounds(e as int + 1);
                lemma_pow10_mono(e as int + 1, dp as int);
            }
            s = s * 10;
            e = e + 1;
        }
        let a: u128 = if self.num >= 0 {
            self.num as u128
        } else {
            (-(self.num as i128)) as u128
        };
        proof {
            assert((a as int) * (s as int) < 0x7fff_ffff_ffff_ffff_ffff_ffff_ffff_ffff)
                by (nonlinear_arith)
                requires
                    0 <= a as int <= 0x7fff_ffff_ffff_ffff,
                    1 <= s as int <= 0x0de0_b6b3_a764_0000,
            ;
        }
        let p: u128 = a * (s as u128);
        let d: u128 = self.den as u128;
        let q0: u128 = p / d;
        let rem: u128 = p % d;
        proof {
            assert(q0 <= p) by (nonlinear_arith)
                requires
                    q0 == p as int / d as int,
                    d as int >= 1,
                    p as int >= 0,
            {
                lemma_fundamental_div_mod(p as int, d as int);
                vstd::arithmetic::div_mod::lemma_remainder_lower(p as int, d as int);
            }
        }
        let q: u128 = if 2 * rem >= d {
            q0 + 1
        } else {
            q0
        };
        proof {
            assert(a as int == mag(self@.n));
            assert(p as int == mag(self@.n) as int * pow10(dp as int));
            assert(q0 * d <= p) by (nonlinear_arith)
                requires
                    q0 == p / d,
                    d > 0,
            {
                lemma_fundamental_div_mod(p as int, d as int);
            }
        }
        if q <= 0x7fff_ffff_ffff_ffffu128 {
            let n: i64 = if self.num >= 0 {
                q as i64
            } else {
                -(q as i64)
            };
            Some(Rat { num: n, den: s })
        } else {
            None
        }
    }

    /// Exact negation; never overflows a well-formed value.
    pub fn neg(self) -> (r: Rat)
        requires
            self.wf(),
        ensures
            r.wf(),
            r@ == rv_neg(self@),
    {
        Rat { num: -self.num, den: self.den }
    }
}

} // verus!
