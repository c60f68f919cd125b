//! Exact rational numbers with a single "not representable" state.
//!
//! A [`Rat`] is either finite — a fraction `num / den` with `den > 0`,
//! stored reduced by the greatest common divisor — or invalid (`den == 0`),
//! the analogue of an undefined floating-point result. Every operation is
//! total: an operation on an invalid value, a division by zero, or a result
//! whose reduced numerator or denominator falls outside `i64` yields the
//! invalid value. All arithmetic is specified exactly by the spec functions
//! [`rat_add`], [`rat_mul`] and [`rat_div`].

use vstd::arithmetic::div_mod::{
    lemma_fundamental_div_mod, lemma_mod_multiples_basic, lemma_mod_self_0,
};
use vstd::prelude::*;

verus! {

/// An exact rational number, reduced, with `den == 0` marking the invalid
/// (unrepresentable) value.
#[derive(Clone, Copy, Debug, PartialEq, Eq, Structural)]
pub struct Rat {
    pub num: i64,
    pub den: i64,
}

/// Well-formedness: the denominator is never negative, and the invalid value
/// is canonically `0 / 0`.
pub open spec fn rat_wf(a: Rat) -> bool {
    a.den >= 0 && (a.den == 0 ==> a.num == 0)
}

/// A finite (representable) rational has a positive denominator.
pub open spec fn rat_is_finite(a: Rat) -> bool {
    a.den > 0
}

/// The canonical invalid value.
pub open spec fn rat_invalid() -> Rat {
    Rat { num: 0, den: 0 }
}

/// The rational zero.
pub open spec fn rat_zero() -> Rat {
    Rat { num: 0, den: 1 }
}

/// A whole number as a rational.
pub open spec fn rat_int(n: i64) -> Rat {
    Rat { num: n, den: 1 }
}

/// Magnitude of an integer, as a natural number.
pub open spec fn abs_n(n: int) -> nat {
    if n < 0 {
        (-n) as nat
    } else {
        n as nat
    }
}

/// Euclid's greatest common divisor.
pub open spec fn gcd(a: nat, b: nat) -> nat
    decreases b,
{
    if b == 0 {
        a
    } else {
        gcd(b, a % b)
    }
}

/// The fraction `n / d` brought to reduced form, or the invalid value when
/// `d <= 0` or the reduced parts do not fit in `i64`.
pub open spec fn norm_frac(n: int, d: int) -> Rat {
    if d <= 0 {
        rat_invalid()
    } else {
        let g = gcd(abs_n(n), d as nat);
        let n2 = abs_n(n) / g;
        let d2 = (d as nat) / g;
        if d2 <= 0x7fff_ffff_ffff_ffff && (if n < 0 {
            n2 <= 0x8000_0000_0000_0000
        } else {
            n2 <= 0x7fff_ffff_ffff_ffff
        }) {
            Rat {
                num: (if n < 0 {
                    -(n2 as int)
                } else {
                    n2 as int
                }) as i64,
                den: d2 as i64,
            }
        } else {
            rat_invalid()
        }
    }
}

/// Exact addition: finite inputs give the reduced exact sum (or invalid when
/// it does not fit); any invalid input is absorbing.
pub open spec fn rat_add(a: Rat, b: Rat) -> Rat {
    if rat_is_finite(a) && rat_is_finite(b) {
        norm_frac(a.num * b.den + b.num * a.den, a.den * b.den)
    } else {
        rat_invalid()
    }
}

/// Exact multiplication, with the same totalization as [`rat_add`].
pub open spec fn rat_mul(a: Rat, b: Rat) -> Rat {
    if rat_is_finite(a) && rat_is_finite(b) {
        norm_frac(a.num * b.num, a.den * b.den)
    } else {
        rat_invalid()
    }
}

/// Exact division; dividing by zero or by an invalid value gives invalid.
pub open spec fn rat_div(a: Rat, b: Rat) -> Rat {
    if !rat_is_finite(a) || !rat_is_finite(b) || b.num == 0 {
        rat_invalid()
    } else if b.num > 0 {
        norm_frac(a.num * b.den, a.den * b.num)
    } else {
        norm_frac(-(a.num * b.den), a.den * (-b.num))
    }
}

/// Strictly positive and finite.
pub open spec fn rat_pos(a: Rat) -> bool {
    rat_is_finite(a) && a.num > 0
}

/// Total order used for sorting: finite values by their rational value,
/// and the invalid value after every finite one.
pub open spec fn rat_le(a: Rat, b: Rat) -> bool {
    if !rat_is_finite(a) {
        !rat_is_finite(b)
    } else if !rat_is_finite(b) {
        true
    } else {
        a.num * b.den <= b.num * a.den
    }
}

/// Value equality: both invalid, or the same rational value.
pub open spec fn rat_eqv(a: Rat, b: Rat) -> bool {
    if rat_is_finite(a) && rat_is_finite(b) {
        a.num * b.den == b.num * a.den
    } else {
        !rat_is_finite(a) && !rat_is_finite(b)
    }
}

/// `gcd(a, b)` is positive when either argument is, and divides both.
pub proof fn lemma_gcd_props(a: nat, b: nat)
    ensures
        a > 0 || b > 0 ==> gcd(a, b) > 0,
        gcd(a, b) > 0 ==> a % gcd(a, b) == 0 && b % gcd(a, b) == 0,
    decreases b,
{
    if b == 0 {
        if a > 0 {
            lemma_mod_self_0(a as int);
            assert(0nat % a == 0) by (nonlinear_arith)
                requires a > 0;
        }
    } else {
        lemma_gcd_props(b, a % b);
        let g = gcd(b, a % b);
        assert(g > 0);
        let ai = a as int;
        let bi = b as int;
        let gi = g as int;
        lemma_fundamental_div_mod(ai, bi);
        let q = ai / bi;
        let r = ai % bi;
        assert(ai == bi * q + r);
        assert(bi % gi == 0);
        assert(r % gi == 0);
        lemma_fundamental_div_mod(bi, gi);
        lemma_fundamental_div_mod(r, gi);
        let kb = bi / gi;
        let kr = r / gi;
        assert(bi == gi * kb);
        assert(r == gi * kr);
        assert(ai == (q * kb + kr) * gi) by (nonlinear_arith)
            requires
                ai == bi * q + r,
                bi == gi * kb,
                r == gi * kr;
        lemma_mod_multiples_basic(q * kb + kr, gi);
        assert(ai % gi == 0);
    }
}

/// A reduced fraction keeps the exact value of `n / d`: cross-multiplication
/// with the unreduced parts agrees, and the result is well formed.
pub proof fn lemma_norm_frac_props(n: int, d: int)
    ensures
        rat_wf(norm_frac(n, d)),
        d > 0 ==> (rat_is_finite(norm_frac(n, d)) ==> norm_frac(n, d).num * d == n * norm_frac(
            n,
            d,
        ).den),
{
    if d > 0 {
        let na = abs_n(n);
        let g = gcd(na, d as nat);
        lemma_gcd_props(na, d as nat);
        assert(g > 0);
        let n2 = na / g;
        let d2 = (d as nat) / g;
        lemma_fundamental_div_mod(na as int, g as int);
        lemma_fundamental_div_mod(d, g as int);
        assert(na as int == n2 as int * g as int) by (nonlinear_arith)
            requires
                na as int == g as int * (na as int / g as int) + na as int % g as int,
                na as int % g as int == 0,
                n2 == na / g;
        assert(d == d2 as int * g as int) by (nonlinear_arith)
            requires
                d == g as int * (d / g as int) + d % g as int,
                d % g as int == 0,
                d2 == (d as nat) / g,
                d > 0;
        assert(d2 >= 1) by (nonlinear_arith)
            requires
                d == d2 as int * g as int,
                d > 0,
                g > 0,
                d2 >= 0;
        if d2 <= 0x7fff_ffff_ffff_ffff && (if n < 0 {
            n2 <= 0x8000_0000_0000_0000
        } else {
            n2 <= 0x7fff_ffff_ffff_ffff
        }) {
            let r = norm_frac(n, d);
            assert(r.den == d2 as int);
            if n < 0 {
                assert(r.num == -(n2 as int));
                assert(n == -(na as int));
                assert(-(n2 as int) * (d2 as int * g as int) == -(na as int) * d2 as int)
                    by (nonlinear_arith)
                    requires
                        na as int == n2 as int * g as int;
                assert(r.num * d == n * r.den);
            } else {
                assert(n == na as int);
                assert(n2 as int * (d2 as int * g as int) == na as int * d2 as int)
                    by (nonlinear_arith)
                    requires
                        na as int == n2 as int * g as int;
                assert(r.num * d == n * r.den);
            }
        }
    }
}

/// Reducing `0 / d` yields the canonical zero.
pub proof fn lemma_norm_frac_zero(d: int)
    requires
        d > 0,
    ensures
        norm_frac(0, d) == rat_zero(),
{
    assert(gcd(0, d as nat) == gcd(d as nat, 0));
    assert(gcd(d as nat, 0) == d as nat);
    lemma_gcd_props(0, d as nat);
    assert(abs_n(0) / (d as nat) == 0) by (nonlinear_arith)
        requires d > 0;
    assert((d as nat) / (d as nat) == 1) by (nonlinear_arith)
        requires d > 0;
}

impl Rat {
    /// The value `n`, as a rational.
    pub fn from_int(n: i64) -> (r: Rat)
        ensures
            r == rat_int(n),
            rat_wf(r),
            rat_is_finite(r),
    {
        Rat { num: n, den: 1 }
    }

    /// The fraction `n / d`, reduced; invalid when `d <= 0`.
    pub fn frac(n: i64, d: i64) -> (r: Rat)
        ensures
            r == norm_frac(n as int, d as int),
            rat_wf(r),
    {
        proof {
            lemma_norm_frac_props(n as int, d as int);
        }
        if d <= 0 {
            Rat { num: 0, den: 0 }
        } else if n < 0 {
            let na: u128 = if n == i64::MIN {
                0x8000_0000_0000_0000u128
            } else {
                (-n) as u128
            };
            norm_parts(true, na, d as u128)
        } else {
            norm_parts(false, n as u128, d as u128)
        }
    }

    /// The rational zero.
    pub fn zero() -> (r: Rat)
        ensures
            r == rat_zero(),
            rat_wf(r),
    {
        Rat { num: 0, den: 1 }
    }

    /// The invalid (unrepresentable) value.
    pub fn invalid() -> (r: Rat)
        ensures
            r == rat_invalid(),
            rat_wf(r),
    {
        Rat { num: 0, den: 0 }
    }

    /// The reduced numerator.
    pub fn num(&self) -> (n: i64)
        ensures
            n == self.num,
    {
        self.num
    }

    /// The reduced denominator (0 exactly for the invalid value).
    pub fn den(&self) -> (d: i64)
        ensures
            d == self.den,
    {
        self.den
    }

    /// Whether the value is finite (representable).
    pub fn is_finite(&self) -> (b: bool)
        ensures
            b == rat_is_finite(*self),
    {
        self.den > 0
    }

    /// Whether the value is finite and strictly positive.
    pub fn is_pos(&self) -> (b: bool)
        ensures
            b == rat_pos(*self),
    {
        self.den > 0 && self.num > 0
    }

    /// Exact sum.
    pub fn plus(self, other: Rat) -> (r: Rat)
        requires
            rat_wf(self),
            rat_wf(other),
        ensures
            r == rat_add(self, other),
            rat_wf(r),
    {
        proof {
            lemma_norm_frac_props(
                self.num * other.den + other.num * self.den,
                self.den * other.den,
            );
        }
        if self.den == 0 || other.den == 0 {
            Rat { num: 0, den: 0 }
        } else {
            proof {
                lemma_i64_prod_bound(self.num as int, other.den as int);
                lemma_i64_prod_bound(other.num as int, self.den as int);
                lemma_i64_prod_bound(self.den as int, other.den as int);
                assert((self.den as int) * (other.den as int) > 0) by (nonlinear_arith)
                    requires
                        self.den > 0,
                        other.den > 0;
                assert(-0x7fff_ffff_ffff_ffff_0000_0000_0000_0000 <= (self.num as int) * (
                other.den as int) + (other.num as int) * (self.den as int)
                    <= 0x7fff_ffff_ffff_ffff_0000_0000_0000_0000) by (nonlinear_arith)
                    requires
                        -0x8000_0000_0000_0000 <= self.num <= 0x7fff_ffff_ffff_ffff,
                        -0x8000_0000_0000_0000 <= other.num <= 0x7fff_ffff_ffff_ffff,
                        0 < self.den <= 0x7fff_ffff_ffff_ffff,
                        0 < other.den <= 0x7fff_ffff_ffff_ffff;
            }
            let p1: i128 = (self.num as i128) * (other.den as i128);
            let p2: i128 = (other.num as i128) * (self.den as i128);
            let s: i128 = p1 + p2;
            let dd: i128 = (self.den as i128) * (other.den as i128);
            if s < 0 {
                norm_parts(true, (-s) as u128, dd as u128)
            } else {
                norm_parts(false, s as u128, dd as u128)
            }
        }
    }

    /// Exact product.
    pub fn times(self, other: Rat) -> (r: Rat)
        requires
            rat_wf(self),
            rat_wf(other),
        ensures
            r == rat_mul(self, other),
            rat_wf(r),
    {
        proof {
            lemma_norm_frac_props(self.num * other.num, self.den * other.den);
        }
        if self.den == 0 || other.den == 0 {
            Rat { num: 0, den: 0 }
        } else {
            proof {
                lemma_i64_prod_bound(self.num as int, other.num as int);
                lemma_i64_prod_bound(self.den as int, other.den as int);
                assert((self.den as int) * (other.den as int) > 0) by (nonlinear_arith)
                    requires
                        self.den > 0,
                        other.den > 0;
            }
            let p: i128 = (self.num as i128) * (other.num as i128);
            let dd: i128 = (self.den as i128) * (other.den as i128);
            if p < 0 {
                norm_parts(true, (-p) as u128, dd as u128)
            } else {
                norm_parts(false, p as u128, dd as u128)
            }
        }
    }

    /// Exact quotient; invalid when the divisor is zero or invalid.
    pub fn divided_by(self, other: Rat) -> (r: Rat)
        requires
            rat_wf(self),
            rat_wf(other),
        ensures
            r == rat_div(self, other),
            rat_wf(r),
    {
        if self.den == 0 || other.den == 0 || other.num == 0 {
            Rat { num: 0, den: 0 }
        } else {
            proof {
                lemma_i64_prod_bound(self.num as int, other.den as int);
                lemma_i64_prod_bound(self.den as int, other.num as int);
            }
            let p: i128 = (self.num as i128) * (other.den as i128);
            if other.num > 0 {
                proof {
                    lemma_norm_frac_props(self.num * other.den, self.den * other.num);
                    assert((self.den as int) * (other.num as int) > 0) by (nonlinear_arith)
                        requires
                            self.den > 0,
                            other.num > 0;
                }
                let dd: i128 = (self.den as i128) * (other.num as i128);
                if p < 0 {
                    norm_parts(true, (-p) as u128, dd as u128)
                } else {
                    norm_parts(false, p as u128, dd as u128)
                }
            } else {
                proof {
                    lemma_norm_frac_props(-(self.num * other.den), self.den * (-other.num));
                    lemma_i64_prod_bound(self.den as int, -(other.num as int));
                    assert((self.den as int) * (-(other.num as int)) > 0) by (nonlinear_arith)
                        requires
                            self.den > 0,
                            other.num < 0;
                }
                let q: i128 = -p;
                let dd: i128 = (self.den as i128) * (-(other.num as i128));
                if q < 0 {
                    norm_parts(true, (-q) as u128, dd as u128)
                } else {
                    norm_parts(false, q as u128, dd as u128)
                }
            }
        }
    }

    /// The total order of [`rat_le`]: by value, invalid last.
    pub fn le(self, other: Rat) -> (b: bool)
        requires
            rat_wf(self),
            rat_wf(other),
        ensures
            b == rat_le(self, other),
    {
        if self.den == 0 {
            other.den == 0
        } else if other.den == 0 {
            true
        } else {
            proof {
                lemma_i64_prod_bound(self.num as int, other.den as int);
                lemma_i64_prod_bound(other.num as int, self.den as int);
            }
            (self.num as i128) * (other.den as i128) <= (other.num as i128) * (self.den as i128)
        }
    }

    /// Value equality of [`rat_eqv`]: both invalid, or the same value.
    pub fn eq_val(self, other: Rat) -> (b: bool)
        requires
            rat_wf(self),
            rat_wf(other),
        ensures
            b == rat_eqv(self, other),
    {
        if self.den == 0 || other.den == 0 {
            self.den == 0 && other.den == 0
        } else {
            proof {
                lemma_i64_prod_bound(self.num as int, other.den as int);
                lemma_i64_prod_bound(other.num as int, self.den as int);
            }
            (self.num as i128) * (other.den as i128) == (other.num as i128) * (self.den as i128)
        }
    }
}

/// A product of two `i64` values stays well inside the `i128` range.
proof fn lemma_i64_prod_bound(a: int, b: int)
    requires
        -0x8000_0000_0000_0000 <= a <= 0x8000_0000_0000_0000,
        -0x8000_0000_0000_0000 <= b <= 0x8000_0000_0000_0000,
    ensures
        -0x4000_0000_0000_0000_0000_0000_0000_0000 <= a * b
            <= 0x4000_0000_0000_0000_0000_0000_0000_0000,
{
    assert(-0x4000_0000_0000_0000_0000_0000_0000_0000 <= a * b
        <= 0x4000_0000_0000_0000_0000_0000_0000_0000) by (nonlinear_arith)
        requires
            -0x8000_0000_0000_0000 <= a <= 0x8000_0000_0000_0000,
            -0x8000_0000_0000_0000 <= b <= 0x8000_0000_0000_0000;
}

/// Euclid's algorithm, computing the spec-level [`gcd`].
fn gcd_u128(a: u128, b: u128) -> (g: u128)
    ensures
        g as nat == gcd(a as nat, b as nat),
{
    let mut x = a;
    let mut y = b;
    while y != 0
        invariant
            gcd(x as nat, y as nat) == gcd(a as nat, b as nat),
        decreases y,
    {
        let r = x % y;
        x = y;
        y = r;
    }
    x
}

/// Reduce a signed fraction given as sign, magnitude and positive denominator;
/// computes exactly [`norm_frac`] of the signed value.
fn norm_parts(neg: bool, na: u128, da: u128) -> (r: Rat)
    requires
        da > 0,
        da <= 0x8000_0000_0000_0000_0000_0000_0000_0000,
        na <= 0x8000_0000_0000_0000_0000_0000_0000_0000,
        neg ==> na > 0,
    ensures
        r == norm_frac(
            if neg {
                -(na as int)
            } else {
                na as int
            },
            da as int,
        ),
        rat_wf(r),
{
    let ghost n: int = if neg {
        -(na as int)
    } else {
        na as int
    };
    proof {
        assert(abs_n(n) == na as nat);
        lemma_gcd_props(na as nat, da as nat);
        lemma_norm_frac_props(n, da as int);
    }
    let g = gcd_u128(na, da);
    let n2 = na / g;
    let d2 = da / g;
    proof {
        assert(n2 as nat == abs_n(n) / gcd(abs_n(n), da as nat));
        assert(d2 as nat == (da as nat) / gcd(abs_n(n), da as nat));
    }
    if d2 <= 0x7fff_ffff_ffff_ffffu128 {
        if neg {
            if n2 <= 0x8000_0000_0000_0000u128 {
                let nn: i128 = -(n2 as i128);
                Rat { num: nn as i64, den: d2 as i64 }
            } else {
                Rat { num: 0, den: 0 }
            }
        } else {
            if n2 <= 0x7fff_ffff_ffff_ffffu128 {
                Rat { num: n2 as i64, den: d2 as i64 }
            } else {
                Rat { num: 0, den: 0 }
            }
        }
    } else {
        Rat { num: 0, den: 0 }
    }
}


/// Addition of rationals is commutative, exactly (same representation).
pub proof fn lemma_rat_add_comm(a: Rat, b: Rat)
    ensures
        rat_add(a, b) == rat_add(b, a),
{
    if rat_is_finite(a) && rat_is_finite(b) {
        assert(a.num * b.den + b.num * a.den == b.num * a.den + a.num * b.den);
        assert(a.den * b.den == b.den * a.den) by (nonlinear_arith);
    }
}

/// Multiplication of rationals is commutative, exactly.
pub proof fn lemma_rat_mul_comm(a: Rat, b: Rat)
    ensures
        rat_mul(a, b) == rat_mul(b, a),
{
    if rat_is_finite(a) && rat_is_finite(b) {
        assert(a.num * b.num == b.num * a.num) by (nonlinear_arith);
        assert(a.den * b.den == b.den * a.den) by (nonlinear_arith);
    }
}

/// Multiplying a finite rational by zero gives zero.
pub proof fn lemma_rat_mul_zero(a: Rat)
    requires
        rat_is_finite(a),
    ensures
        rat_mul(a, rat_zero()) == rat_zero(),
        rat_mul(rat_zero(), a) == rat_zero(),
{
    assert(a.num * 0 == 0);
    assert(0 * a.num == 0) by (nonlinear_arith);
    assert(a.den * 1 == a.den);
    assert(1 * a.den == a.den) by (nonlinear_arith);
    lemma_norm_frac_zero(a.den as int);
}

/// Dividing zero by a nonzero finite rational gives zero.
pub proof fn lemma_rat_div_zero(b: Rat)
    requires
        rat_is_finite(b),
        b.num != 0,
    ensures
        rat_div(rat_zero(), b) == rat_zero(),
{
    assert(0 * b.den == 0) by (nonlinear_arith);
    if b.num > 0 {
        assert(1 * b.num == b.num) by (nonlinear_arith);
        lemma_norm_frac_zero(b.num as int);
    } else {
        assert(1 * (-b.num) == -b.num) by (nonlinear_arith);
        lemma_norm_frac_zero(-b.num as int);
    }
}

/// Value equality is transitive over finite rationals.
pub proof fn lemma_rat_eqv_trans(a: Rat, b: Rat, c: Rat)
    requires
        rat_wf(a),
        rat_wf(b),
        rat_wf(c),
        rat_eqv(a, b),
        rat_eqv(b, c),
    ensures
        rat_eqv(a, c),
{
    if rat_is_finite(a) && rat_is_finite(b) && rat_is_finite(c) {
        assert(a.num * c.den == c.num * a.den) by (nonlinear_arith)
            requires
                a.num * b.den == b.num * a.den,
                b.num * c.den == c.num * b.den,
                a.den > 0,
                b.den > 0,
                c.den > 0;
    }
}

/// The sorting order is total.
pub proof fn lemma_rat_le_total(a: Rat, b: Rat)
    ensures
        rat_le(a, b) || rat_le(b, a),
{
}

/// The sorting order is transitive.
pub proof fn lemma_rat_le_trans(a: Rat, b: Rat, c: Rat)
    requires
        rat_wf(a),
        rat_wf(b),
        rat_wf(c),
        rat_le(a, b),
        rat_le(b, c),
    ensures
        rat_le(a, c),
{
    if rat_is_finite(a) && rat_is_finite(b) && rat_is_finite(c) {
        assert(a.num * c.den <= c.num * a.den) by (nonlinear_arith)
            requires
                a.num * b.den <= b.num * a.den,
                b.num * c.den <= c.num * b.den,
                a.den > 0,
                b.den > 0,
                c.den > 0;
    }
}

/// A finite sum of finite rationals carries the exact value of the raw
/// (unreduced) sum: cross-multiplication with the raw parts agrees.
pub proof fn lemma_rat_add_value(a: Rat, b: Rat)
    requires
        rat_is_finite(a),
        rat_is_finite(b),
        rat_is_finite(rat_add(a, b)),
    ensures
        rat_add(a, b).den > 0,
        rat_add(a, b).num * (a.den * b.den) == (a.num * b.den + b.num * a.den) * rat_add(
            a,
            b,
        ).den,
{
    assert(a.den * b.den > 0) by (nonlinear_arith)
        requires
            a.den > 0,
            b.den > 0;
    lemma_norm_frac_props(a.num * b.den + b.num * a.den, a.den * b.den);
}

/// Addition of rationals is associative in value whenever every partial sum
/// is representable.
#[verifier::rlimit(100)]
pub proof fn lemma_rat_add_assoc(a: Rat, b: Rat, c: Rat)
    requires
        rat_is_finite(a),
        rat_is_finite(b),
        rat_is_finite(c),
        rat_is_finite(rat_add(a, b)),
        rat_is_finite(rat_add(b, c)),
        rat_is_finite(rat_add(rat_add(a, b), c)),
        rat_is_finite(rat_add(a, rat_add(b, c))),
    ensures
        rat_eqv(rat_add(rat_add(a, b), c), rat_add(a, rat_add(b, c))),
{
    let ab = rat_add(a, b);
    let bc = rat_add(b, c);
    let l = rat_add(ab, c);
    let r = rat_add(a, bc);
    lemma_rat_add_value(a, b);
    lemma_rat_add_value(b, c);
    lemma_rat_add_value(ab, c);
    lemma_rat_add_value(a, bc);
    // The common raw three-way sum over the common raw denominator.
    let n3 = a.num * b.den * c.den + b.num * a.den * c.den + c.num * a.den * b.den;
    let d3 = a.den * b.den * c.den;
    assert(d3 > 0) by (nonlinear_arith)
        requires
            d3 == a.den * b.den * c.den,
            a.den > 0,
            b.den > 0,
            c.den > 0;
    let rawab = a.num * b.den + b.num * a.den;
    let dab = a.den * b.den;
    assert(n3 == rawab * c.den + c.num * dab) by (nonlinear_arith)
        requires
            n3 == a.num * b.den * c.den + b.num * a.den * c.den + c.num * a.den * b.den,
            rawab == a.num * b.den + b.num * a.den,
            dab == a.den * b.den;
    assert((ab.num * c.den + c.num * ab.den) * dab == n3 * ab.den) by (nonlinear_arith)
        requires
            ab.num * dab == rawab * ab.den,
            n3 == rawab * c.den + c.num * dab;
    assert(l.num * (ab.den * c.den) * dab == (ab.num * c.den + c.num * ab.den) * dab * l.den)
        by (nonlinear_arith)
        requires
            l.num * (ab.den * c.den) == (ab.num * c.den + c.num * ab.den) * l.den;
    assert(l.num * (ab.den * c.den) * dab == n3 * ab.den * l.den) by (nonlinear_arith)
        requires
            l.num * (ab.den * c.den) * dab == (ab.num * c.den + c.num * ab.den) * dab * l.den,
            (ab.num * c.den + c.num * ab.den) * dab == n3 * ab.den;
    assert(l.num * d3 * ab.den == n3 * l.den * ab.den) by (nonlinear_arith)
        requires
            l.num * (ab.den * c.den) * dab == n3 * ab.den * l.den,
            d3 == dab * c.den;
    assert(l.num * d3 == n3 * l.den) by (nonlinear_arith)
        requires
            l.num * d3 * ab.den == n3 * l.den * ab.den,
            ab.den > 0;
    let rawbc = b.num * c.den + c.num * b.den;
    let dbc = b.den * c.den;
    assert(n3 == a.num * dbc + rawbc * a.den) by (nonlinear_arith)
        requires
            n3 == a.num * b.den * c.den + b.num * a.den * c.den + c.num * a.den * b.den,
            rawbc == b.num * c.den + c.num * b.den,
            dbc == b.den * c.den;
    assert(d3 == a.den * dbc) by (nonlinear_arith)
        requires
            d3 == a.den * b.den * c.den,
            dbc == b.den * c.den;
    assert((a.num * bc.den + bc.num * a.den) * dbc == n3 * bc.den) by (nonlinear_arith)
        requires
            bc.num * dbc == rawbc * bc.den,
            n3 == a.num * dbc + rawbc * a.den;
    assert(r.num * (a.den * bc.den) * dbc == (a.num * bc.den + bc.num * a.den) * dbc * r.den)
        by (nonlinear_arith)
        requires
            r.num * (a.den * bc.den) == (a.num * bc.den + bc.num * a.den) * r.den;
    assert(r.num * (a.den * bc.den) * dbc == n3 * bc.den * r.den) by (nonlinear_arith)
        requires
            r.num * (a.den * bc.den) * dbc == (a.num * bc.den + bc.num * a.den) * dbc * r.den,
            (a.num * bc.den + bc.num * a.den) * dbc == n3 * bc.den;
    assert(r.num * d3 * bc.den == n3 * r.den * bc.den) by (nonlinear_arith)
        requires
            r.num * (a.den * bc.den) * dbc == n3 * bc.den * r.den,
            d3 == a.den * dbc;
    assert(r.num * d3 == n3 * r.den) by (nonlinear_arith)
        requires
            r.num * d3 * bc.den == n3 * r.den * bc.den,
            bc.den > 0;
    assert(l.num * r.den == r.num * l.den) by (nonlinear_arith)
        requires
            l.num * d3 == n3 * l.den,
            r.num * d3 == n3 * r.den,
            d3 > 0,
            l.den > 0,
            r.den > 0;
}

/// One decimal digit as a character.
pub open spec fn digit_char(d: nat) -> char {
    if d == 0 {
        '0'
    } else if d == 1 {
        '1'
    } else if d == 2 {
        '2'
    } else if d == 3 {
        '3'
    } else if d == 4 {
        '4'
    } else if d == 5 {
        '5'
    } else if d == 6 {
        '6'
    } else if d == 7 {
        '7'
    } else if d == 8 {
        '8'
    } else {
        '9'
    }
}

/// The decimal digits of a natural number, most significant first.
pub open spec fn dec_str(n: nat) -> Seq<char>
    decreases n,
{
    if n < 10 {
        seq![digit_char(n)]
    } else {
        dec_str(n / 10).push(digit_char(n % 10))
    }
}

/// The display form of a rational: decimal for whole numbers, `n/d` for
/// proper fractions, a minus sign for negative values, `NaN` when invalid.
pub open spec fn rat_str(a: Rat) -> Seq<char> {
    if !rat_is_finite(a) {
        seq!['N', 'a', 'N']
    } else {
        let mag = if a.den == 1 {
            dec_str(abs_n(a.num as int))
        } else {
            dec_str(abs_n(a.num as int)) + seq!['/'] + dec_str(a.den as nat)
        };
        if a.num < 0 {
            seq!['-'] + mag
        } else {
            mag
        }
    }
}

/// One decimal digit rendered as a string slice.
fn digit_str(d: u64) -> (r: &'static str)
    requires
        d < 10,
    ensures
        r@ == seq![digit_char(d as nat)],
{
    proof {
        reveal_strlit("0");
        reveal_strlit("1");
        reveal_strlit("2");
        reveal_strlit("3");
        reveal_strlit("4");
        reveal_strlit("5");
        reveal_strlit("6");
        reveal_strlit("7");
        reveal_strlit("8");
        reveal_strlit("9");
    }
    let r = match d {
        0 => "0",
        1 => "1",
        2 => "2",
        3 => "3",
        4 => "4",
        5 => "5",
        6 => "6",
        7 => "7",
        8 => "8",
        _ => "9",
    };
    proof {
        assert(r@ =~= seq![digit_char(d as nat)]);
    }
    r
}

/// Render a natural number in decimal, exactly [`dec_str`].
fn u64_dec(n: u64) -> (s: String)
    ensures
        s@ == dec_str(n as nat),
{
    let mut digits: Vec<u64> = Vec::new();
    let mut m = n;
    while m >= 10
        invariant
            dec_str(n as nat) == dec_str(m as nat) + Seq::new(
                digits@.len(),
                |i: int| digit_char(digits@[digits@.len() - 1 - i] as nat),
            ),
            forall|i: int| 0 <= i < digits@.len() ==> digits@[i] < 10,
        decreases m,
    {
        let ghost pre = digits@;
        let d = m % 10;
        digits.push(d);
        m = m / 10;
        proof {
            assert(dec_str((m * 10 + d) as nat) == dec_str(m as nat).push(
                digit_char(d as nat),
            )) by {
                assert((m * 10 + d) as nat / 10 == m as nat && (m * 10 + d) as nat % 10
                    == d as nat && m * 10 + d >= 10) by (nonlinear_arith)
                    requires
                        m >= 1,
                        0 <= d < 10;
            }
            assert(dec_str(m as nat) + Seq::new(
                digits@.len(),
                |i: int| digit_char(digits@[digits@.len() - 1 - i] as nat),
            ) =~= dec_str(m as nat).push(digit_char(d as nat)) + Seq::new(
                pre.len(),
                |i: int| digit_char(pre[pre.len() - 1 - i] as nat),
            ));
        }
    }
    proof {
        assert(dec_str(m as nat) =~= seq![digit_char(m as nat)]);
        assert(dec_str(n as nat).len() == 1 + digits@.len());
    }
    let mut s = String::new();
    s.append(digit_str(m));
    let mut k: usize = 0;
    proof {
        assert(s@ =~= dec_str(n as nat).take(1));
    }
    while k < digits.len()
        invariant
            k <= digits@.len(),
            forall|i: int| 0 <= i < digits@.len() ==> digits@[i] < 10,
            m < 10,
            dec_str(n as nat) =~= seq![digit_char(m as nat)] + Seq::new(
                digits@.len(),
                |i: int| digit_char(digits@[digits@.len() - 1 - i] as nat),
            ),
            dec_str(n as nat).len() == 1 + digits@.len(),
            s@ =~= dec_str(n as nat).take(1 + k as int),
        decreases digits@.len() - k,
    {
        let d = digits[digits.len() - 1 - k];
        s.append(digit_str(d));
        k = k + 1;
        proof {
            assert(s@ =~= dec_str(n as nat).take(1 + k as int));
        }
    }
    proof {
        assert(s@ =~= dec_str(n as nat));
    }
    s
}

impl Rat {
    /// Render the value for display, exactly [`rat_str`].
    pub fn to_display(&self) -> (s: String)
        requires
            rat_wf(*self),
        ensures
            s@ == rat_str(*self),
    {
        proof {
            reveal_strlit("NaN");
            reveal_strlit("-");
            reveal_strlit("/");
        }
        if self.den == 0 {
            let s = String::from_str("NaN");
            proof {
                assert(s@ =~= rat_str(*self));
            }
            s
        } else {
            let mut s = String::new();
            if self.num < 0 {
                s.append("-");
            }
            let na: u64 = if self.num < 0 {
                if self.num == i64::MIN {
                    0x8000_0000_0000_0000u64
                } else {
                    (-self.num) as u64
                }
            } else {
                self.num as u64
            };
            let mag = u64_dec(na);
            s.append(mag.as_str());
            if self.den != 1 {
                s.append("/");
                let dd = u64_dec(self.den as u64);
                s.append(dd.as_str());
            }
            proof {
                assert(s@ =~= rat_str(*self));
            }
            s
        }
    }
}

} // verus!
