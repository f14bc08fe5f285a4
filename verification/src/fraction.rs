//! Exact rational numbers in lowest terms: a signed numerator and a positive
//! denominator with no common factor. Every operation returns a value in the
//! same canonical form, so two fractions are numerically equal exactly when
//! they are structurally equal.

use vstd::prelude::*;
use vstd::arithmetic::div_mod::{lemma_fundamental_div_mod, lemma_fundamental_div_mod_converse};
use crate::numtext::{
    in_i64, int_str, push_i64_decimal, spec_parse_i64, parse_i64_range, all_digits, digits_val,
    parse_digits_u64, spec_pow10, pow10_u64, lemma_digits_val_bound, lemma_pow10_le,
};
use crate::text::{
    spec_trim, trim_chars, string_from_chars, chars_of_str, find_char, find_char_in, lemma_find_char_props, subvec,
};

verus! {

/// The magnitude of an integer.
pub open spec fn nat_abs(n: int) -> nat {
    if n < 0 {
        (-n) as nat
    } else {
        n as nat
    }
}

pub open spec fn divides(d: int, a: int) -> bool {
    exists|k: int| a == #[trigger] (k * d)
}

/// Euclid's greatest common divisor.
pub open spec fn gcd(a: nat, b: nat) -> nat
    decreases b,
{
    if b == 0 {
        a
    } else {
        gcd(b, a % b)
    }
}

pub proof fn lemma_gcd_pos(a: nat, b: nat)
    ensures
        a > 0 || b > 0 ==> gcd(a, b) > 0,
    decreases b,
{
    if b > 0 {
        lemma_gcd_pos(b, a % b);
    }
}

pub proof fn lemma_gcd_divides(a: nat, b: nat)
    ensures
        divides(gcd(a, b) as int, a as int),
        divides(gcd(a, b) as int, b as int),
    decreases b,
{
    if b == 0 {
        assert(a as int == 1 * (a as int));
        assert(b as int == 0 * (a as int));
    } else {
        lemma_gcd_divides(b, a % b);
        let g = gcd(b, a % b) as int;
        let k1 = choose|k: int| (a % b) as int == #[trigger] (k * g);
        let k2 = choose|k: int| b as int == #[trigger] (k * g);
        lemma_fundamental_div_mod(a as int, b as int);
        let q = a as int / b as int;
        assert(a as int == (b as int) * q + (a % b) as int);
        assert((k2 * g) * q + k1 * g == (k2 * q + k1) * g) by (nonlinear_arith);
        assert(a as int == (k2 * q + k1) * g);
    }
}

pub proof fn lemma_gcd_greatest(a: nat, b: nat, d: int)
    requires
        divides(d, a as int),
        divides(d, b as int),
    ensures
        divides(d, gcd(a, b) as int),
    decreases b,
{
    if b == 0 {
    } else {
        let k1 = choose|k: int| a as int == #[trigger] (k * d);
        let k2 = choose|k: int| b as int == #[trigger] (k * d);
        lemma_fundamental_div_mod(a as int, b as int);
        let q = a as int / b as int;
        assert((a % b) as int == a as int - (b as int) * q);
        assert(k1 * d - (k2 * d) * q == (k1 - k2 * q) * d) by (nonlinear_arith);
        assert((a % b) as int == (k1 - k2 * q) * d);
        lemma_gcd_greatest(b, a % b, d);
    }
}

/// A positive divisor of a positive number is no bigger than it.
pub proof fn lemma_divides_le(d: int, a: int)
    requires
        divides(d, a),
        d > 0,
        a > 0,
    ensures
        d <= a,
{
    let k = choose|k: int| a == #[trigger] (k * d);
    assert(k >= 1 ==> k * d >= d) by (nonlinear_arith)
        requires
            d > 0,
    ;
    assert(k <= 0 ==> k * d <= 0) by (nonlinear_arith)
        requires
            d > 0,
    ;
}

/// A positive divisor divides exactly: the remainder is zero.
pub proof fn lemma_divides_mod_zero(d: int, a: int)
    requires
        divides(d, a),
        d > 0,
    ensures
        a % d == 0,
        d * (a / d) == a,
{
    let k = choose|k: int| a == #[trigger] (k * d);
    assert(k * d == d * k + 0) by (nonlinear_arith);
    lemma_fundamental_div_mod_converse(a, d, k, 0);
}

/// Dividing two numbers by their gcd leaves them coprime.
pub proof fn lemma_coprime_after_div(a: nat, b: nat)
    requires
        b > 0,
    ensures
        ({
            let g = gcd(a, b);
            &&& g >= 1
            &&& a as int % g as int == 0
            &&& b as int % g as int == 0
            &&& b as int / g as int >= 1
            &&& gcd((a as int / g as int) as nat, (b as int / g as int) as nat) == 1
        }),
{
    let g = gcd(a, b);
    lemma_gcd_pos(a, b);
    lemma_gcd_divides(a, b);
    lemma_divides_mod_zero(g as int, a as int);
    lemma_divides_mod_zero(g as int, b as int);
    let a2 = a as int / g as int;
    let b2 = b as int / g as int;
    assert(g as int * b2 == b as int);
    assert(b2 >= 1) by (nonlinear_arith)
        requires
            g as int * b2 == b as int,
            b > 0,
            g >= 1,
    ;
    assert(a2 >= 0) by (nonlinear_arith)
        requires
            g as int * a2 == a as int,
            a >= 0,
            g >= 1,
    ;
    let h = gcd(a2 as nat, b2 as nat);
    lemma_gcd_pos(a2 as nat, b2 as nat);
    lemma_gcd_divides(a2 as nat, b2 as nat);
    let k1 = choose|k: int| a2 == #[trigger] (k * (h as int));
    let k2 = choose|k: int| b2 == #[trigger] (k * (h as int));
    assert(a as int == g as int * a2);
    assert(g as int * (k1 * h as int) == k1 * (h as int * g as int)) by (nonlinear_arith);
    assert(g as int * (k2 * h as int) == k2 * (h as int * g as int)) by (nonlinear_arith);
    assert(a as int == k1 * (h as int * g as int));
    assert(b as int == k2 * (h as int * g as int));
    lemma_gcd_greatest(a, b, h as int * g as int);
    assert(h as int * g as int > 0) by (nonlinear_arith)
        requires
            h >= 1,
            g >= 1,
    ;
    lemma_divides_le(h as int * g as int, g as int);
    assert(h == 1) by (nonlinear_arith)
        requires
            h >= 1,
            g >= 1,
            h as int * g as int <= g as int,
    ;
}

/// Euclid's algorithm.
pub fn gcd_u128(a: u128, b: u128) -> (r: u128)
    ensures
        r as nat == gcd(a as nat, b as nat),
{
    let mut x = a;
    let mut y = b;
    while y != 0
        invariant
            gcd(x as nat, y as nat) == gcd(a as nat, b as nat),
        decreases y,
    {
        let t = y;
        y = x % y;
        x = t;
    }
    x
}

/// The canonical (numerator, denominator) pair of the rational n/d: sign on
/// the numerator, both parts divided by their gcd. For d == 0, the zero
/// sentinel (0, 1).
pub open spec fn norm(n: int, d: int) -> (int, int) {
    if d == 0 {
        (0, 1)
    } else {
        let n2: int = if d < 0 {
            -n
        } else {
            n
        };
        let d2: int = if d < 0 {
            -d
        } else {
            d
        };
        let g = gcd(nat_abs(n2), d2 as nat) as int;
        (n2 / g, d2 / g)
    }
}

/// `norm`, falling back to the zero sentinel when the canonical pair does not
/// fit the field type.
pub open spec fn norm_frac(n: int, d: int) -> (int, int) {
    let p = norm(n, d);
    if in_i64(p.0) && in_i64(p.1) {
        p
    } else {
        (0, 1)
    }
}

/// An exact rational number, always in lowest terms with a positive
/// denominator.
#[derive(Clone, Copy, Debug, PartialEq, Eq, Structural)]
pub struct Fraction {
    num: i64,
    den: i64,
}

impl Fraction {
    #[verifier::type_invariant]
    spec fn inv(self) -> bool {
        1 <= self.den && gcd(nat_abs(self.num as int), self.den as nat) == 1
    }

    /// The numerator, in lowest terms; carries the sign.
    pub closed spec fn num(self) -> int {
        self.num as int
    }

    /// The fraction value with the given parts, for speaking of results at
    /// the specification level.
    pub closed spec fn from_pair(p: (int, int)) -> Fraction {
        Fraction { num: p.0 as i64, den: p.1 as i64 }
    }

    /// `from_pair` is determined by `num` and `den`.
    pub proof fn lemma_from_pair(p: (int, int))
        requires
            in_i64(p.0),
            in_i64(p.1),
        ensures
            Self::from_pair(p).num() == p.0,
            Self::from_pair(p).den() == p.1,
    {
    }

    /// Every fraction a caller can hold is in canonical form: the type's
    /// invariant, recalled on demand.
    pub fn recall_canonical(&self)
        ensures
            Fraction::canonical(self.num(), self.den()),
    {
        proof {
            use_type_invariant(self);
        }
    }

    /// The parts always fit the field type.
    pub proof fn lemma_parts_in_range(f: Fraction)
        ensures
            in_i64(f.num()),
            in_i64(f.den()),
    {
    }

    /// Two fractions with the same parts are the same value.
    pub proof fn lemma_parts_determine(a: Fraction, b: Fraction)
        requires
            a.num() == b.num(),
            a.den() == b.den(),
        ensures
            a == b,
    {
    }

    /// The denominator, in lowest terms; at least one.
    pub closed spec fn den(self) -> int {
        self.den as int
    }

    /// Whether a (numerator, denominator) pair is in canonical form: positive
    /// denominator and coprime parts.
    pub open spec fn canonical(n: int, d: int) -> bool {
        d >= 1 && gcd(nat_abs(n), d as nat) == 1
    }

    pub fn zero() -> (r: Fraction)
        ensures
            r.num() == 0,
            r.den() == 1,
    {
        proof {
            lemma_gcd_one_right(0);
        }
        Fraction { num: 0, den: 1 }
    }

    /// Builds the canonical fraction of magnitude `n_abs / d_abs`, negative
    /// when `neg` is set; the zero sentinel when the reduced parts do not fit.
    fn reduce_make(neg: bool, n_abs: u128, d_abs: u128) -> (r: Fraction)
        requires
            d_abs >= 1,
        ensures
            ({
                let n: int = if neg {
                    -(n_abs as int)
                } else {
                    n_abs as int
                };
                (r.num(), r.den()) == norm_frac(n, d_abs as int)
            }),
    {
        let g = gcd_u128(n_abs, d_abs);
        proof {
            lemma_coprime_after_div(n_abs as nat, d_abs as nat);
        }
        let rn = n_abs / g;
        let rd = d_abs / g;
        let ghost n: int = if neg {
            -(n_abs as int)
        } else {
            n_abs as int
        };
        proof {
            assert(nat_abs(n) == n_abs as nat);
            if neg {
                lemma_neg_div(n_abs as int, g as int);
            }
            assert(norm(n, d_abs as int).1 == rd as int);
            assert(norm(n, d_abs as int).0 == if neg {
                -(rn as int)
            } else {
                rn as int
            });
        }
        if rd <= i64::MAX as u128 && rn <= i64::MAX as u128 {
            let num: i64 = if neg {
                -(rn as i64)
            } else {
                rn as i64
            };
            proof {
                assert(nat_abs(num as int) == rn as nat);
            }
            Fraction { num, den: rd as i64 }
        } else if neg && rn == 9223372036854775808u128 && rd <= i64::MAX as u128 {
            // the reduced magnitude is exactly 2^63: only the negative side holds it
            proof {
                assert(nat_abs(i64::MIN as int) == 9223372036854775808nat);
            }
            Fraction { num: i64::MIN, den: rd as i64 }
        } else {
            proof {
                lemma_gcd_one_right(0);
                let p = norm(n, d_abs as int);
                assert(!(in_i64(p.0) && in_i64(p.1)));
            }
            Fraction { num: 0, den: 1 }
        }
    }

    /// The whole number n, as a fraction.
    pub fn from_i64(n: i64) -> (r: Fraction)
        ensures
            r.num() == n as int,
            r.den() == 1,
    {
        proof {
            lemma_gcd_one_right(nat_abs(n as int));
        }
        Fraction { num: n, den: 1 }
    }

    /// Truncates toward zero to a whole number.
    pub fn trunc(&self) -> (r: i64)
        ensures
            r as int == Self::trunc_div(self.num(), self.den()),
    {
        proof {
            use_type_invariant(self);
        }
        let n_abs: u128 = if self.num < 0 {
            (-(self.num as i128)) as u128
        } else {
            self.num as u128
        };
        let q = n_abs / (self.den as u128);
        proof {
            vstd::arithmetic::div_mod::lemma_div_nonincreasing(n_abs as int, self.den as int);
            vstd::arithmetic::div_mod::lemma_div_pos_is_pos(n_abs as int, self.den as int);
        }
        if self.num < 0 {
            if q == 9223372036854775808u128 {
                i64::MIN
            } else {
                -(q as i64)
            }
        } else {
            q as i64
        }
    }

    pub fn one() -> (r: Fraction)
        ensures
            r.num() == 1,
            r.den() == 1,
    {
        proof {
            lemma_gcd_one_right(1);
        }
        Fraction { num: 1, den: 1 }
    }

    /// The canonical fraction numerically equal to n/d, or nothing when the
    /// denominator is zero.
    pub fn from_ints(n: i64, d: i64) -> (r: Option<Fraction>)
        ensures
            match r {
                Some(f) => d != 0 && (f.num(), f.den()) == norm_frac(n as int, d as int),
                None => d == 0,
            },
    {
        if d == 0 {
            return None;
        }
        let neg = (n < 0) != (d < 0);
        let n_abs: u128 = if n < 0 {
            (-(n as i128)) as u128
        } else {
            n as u128
        };
        let d_abs: u128 = if d < 0 {
            (-(d as i128)) as u128
        } else {
            d as u128
        };
        let r = Self::reduce_make(neg, n_abs, d_abs);
        proof {
            lemma_norm_flip(n as int, d as int);
        }
        Some(r)
    }

    pub open spec fn spec_add(a: Fraction, b: Fraction) -> (int, int) {
        norm_frac(a.num() * b.den() + b.num() * a.den(), a.den() * b.den())
    }

    pub open spec fn spec_sub(a: Fraction, b: Fraction) -> (int, int) {
        norm_frac(a.num() * b.den() - b.num() * a.den(), a.den() * b.den())
    }

    pub open spec fn spec_mul(a: Fraction, b: Fraction) -> (int, int) {
        norm_frac(a.num() * b.num(), a.den() * b.den())
    }

    pub open spec fn spec_div(a: Fraction, b: Fraction) -> (int, int) {
        norm_frac(a.num() * b.den(), a.den() * b.num())
    }

    pub fn add(self, other: Fraction) -> (r: Fraction)
        ensures
            (r.num(), r.den()) == Self::spec_add(self, other),
    {
        proof {
            use_type_invariant(self);
            use_type_invariant(other);
            lemma_mul_num_den_bounds(self.num as int, other.den as int);
            lemma_mul_num_den_bounds(other.num as int, self.den as int);
            lemma_mul_i64_bounds(self.den as int, other.den as int);
            lemma_mul_pos(self.den as int, other.den as int);
        }
        let n = (self.num as i128) * (other.den as i128) + (other.num as i128) * (self.den
            as i128);
        let d = (self.den as i128) * (other.den as i128);
        let neg = n < 0;
        let n_abs: u128 = if neg {
            (-n) as u128
        } else {
            n as u128
        };
        Self::reduce_make(neg, n_abs, d as u128)
    }

    pub fn sub(self, other: Fraction) -> (r: Fraction)
        ensures
            (r.num(), r.den()) == Self::spec_sub(self, other),
    {
        proof {
            use_type_invariant(self);
            use_type_invariant(other);
            lemma_mul_num_den_bounds(self.num as int, other.den as int);
            lemma_mul_num_den_bounds(other.num as int, self.den as int);
            lemma_mul_i64_bounds(self.den as int, other.den as int);
            lemma_mul_pos(self.den as int, other.den as int);
        }
        let n = (self.num as i128) * (other.den as i128) - (other.num as i128) * (self.den
            as i128);
        let d = (self.den as i128) * (other.den as i128);
        let neg = n < 0;
        let n_abs: u128 = if neg {
            (-n) as u128
        } else {
            n as u128
        };
        Self::reduce_make(neg, n_abs, d as u128)
    }

    pub fn mul(self, other: Fraction) -> (r: Fraction)
        ensures
            (r.num(), r.den()) == Self::spec_mul(self, other),
    {
        proof {
            use_type_invariant(self);
            use_type_invariant(other);
            lemma_mul_i64_bounds(self.num as int, other.num as int);
            lemma_mul_i64_bounds(self.den as int, other.den as int);
            lemma_mul_pos(self.den as int, other.den as int);
        }
        let n = (self.num as i128) * (other.num as i128);
        let d = (self.den as i128) * (other.den as i128);
        let neg = n < 0;
        let n_abs: u128 = if neg {
            (-n) as u128
        } else {
            n as u128
        };
        Self::reduce_make(neg, n_abs, d as u128)
    }

    /// Division multiplies by the reciprocal; dividing by zero yields the
    /// zero sentinel.
    pub fn div(self, other: Fraction) -> (r: Fraction)
        ensures
            (r.num(), r.den()) == Self::spec_div(self, other),
    {
        proof {
            use_type_invariant(self);
            use_type_invariant(other);
            lemma_mul_i64_bounds(self.num as int, other.den as int);
            lemma_mul_i64_bounds(self.den as int, other.num as int);
        }
        if other.num == 0 {
            proof {
                lemma_mul_zero(self.den as int, other.num as int);
            }
            return Self::zero();
        }
        let n = (self.num as i128) * (other.den as i128);
        let d = (self.den as i128) * (other.num as i128);
        proof {
            lemma_mul_nonzero(self.den as int, other.num as int);
            lemma_norm_flip(n as int, d as int);
        }
        let neg = (n < 0) != (d < 0);
        let n_abs: u128 = if n < 0 {
            (-n) as u128
        } else {
            n as u128
        };
        let d_abs: u128 = if d < 0 {
            (-d) as u128
        } else {
            d as u128
        };
        Self::reduce_make(neg, n_abs, d_abs)
    }

    /// Whether this fraction is numerically zero.
    pub fn is_zero(&self) -> (r: bool)
        ensures
            r == (self.num() == 0),
    {
        self.num == 0
    }

    /// Whether this fraction is a whole number.
    pub fn is_integer(&self) -> (r: bool)
        ensures
            r == (self.den() == 1),
    {
        self.den == 1
    }

    /// The numerator as a machine integer.
    pub fn numerator(&self) -> (r: i64)
        ensures
            r as int == self.num(),
    {
        self.num
    }

    /// The denominator as a machine integer.
    pub fn denominator(&self) -> (r: i64)
        ensures
            r as int == self.den(),
    {
        self.den
    }

    /// The mathematical strict order on rationals.
    pub open spec fn spec_lt(a: Fraction, b: Fraction) -> bool {
        a.num() * b.den() < b.num() * a.den()
    }

    pub fn lt(self, other: Fraction) -> (r: bool)
        ensures
            r == Self::spec_lt(self, other),
    {
        proof {
            use_type_invariant(self);
            use_type_invariant(other);
            lemma_mul_i64_bounds(self.num as int, other.den as int);
            lemma_mul_i64_bounds(other.num as int, self.den as int);
        }
        (self.num as i128) * (other.den as i128) < (other.num as i128) * (self.den as i128)
    }

    /// Truncated division of integers, rounding toward zero.
    pub open spec fn trunc_div(x: int, y: int) -> int {
        let q = nat_abs(x) / nat_abs(y);
        if (x < 0) != (y < 0) {
            -(q as int)
        } else {
            q as int
        }
    }

    /// The remainder a - b * trunc(a / b); the zero sentinel when b is zero.
    pub open spec fn spec_rem(a: Fraction, b: Fraction) -> (int, int) {
        if b.num() == 0 {
            (0, 1)
        } else {
            let q = Self::trunc_div(a.num() * b.den(), a.den() * b.num());
            norm_frac(a.num() * b.den() - b.num() * q * a.den(), a.den() * b.den())
        }
    }

    pub fn rem(self, other: Fraction) -> (r: Fraction)
        ensures
            (r.num(), r.den()) == Self::spec_rem(self, other),
    {
        proof {
            use_type_invariant(self);
            use_type_invariant(other);
        }
        if other.num == 0 {
            return Self::zero();
        }
        proof {
            lemma_mul_num_den_bounds(self.num as int, other.den as int);
            lemma_mul_num_den_bounds(other.num as int, self.den as int);
            lemma_mul_i64_bounds(self.den as int, other.den as int);
            lemma_mul_pos(self.den as int, other.den as int);
            lemma_mul_nonzero(other.num as int, self.den as int);
        }
        let x: i128 = (self.num as i128) * (other.den as i128);
        let y: i128 = (other.num as i128) * (self.den as i128);
        let x_abs: u128 = if x < 0 {
            (-x) as u128
        } else {
            x as u128
        };
        let y_abs: u128 = if y < 0 {
            (-y) as u128
        } else {
            y as u128
        };
        let q_abs: u128 = x_abs / y_abs;
        proof {
            lemma_fundamental_div_mod(x_abs as int, y_abs as int);
            assert(y_abs as int * (x_abs as int / y_abs as int) <= x_abs as int);
            assert(q_abs as int * y_abs as int == y_abs as int * q_abs as int)
                by (nonlinear_arith);
        }
        let t_abs: u128 = q_abs * y_abs;
        let q_neg = (x < 0) != (y < 0);
        let t_neg = q_neg != (other.num < 0);
        let t: i128 = if t_neg {
            -(t_abs as i128)
        } else {
            t_abs as i128
        };
        let ghost q: int = if q_neg {
            -(q_abs as int)
        } else {
            q_abs as int
        };
        proof {
            assert(q == Self::trunc_div(x as int, y as int));
            assert((y < 0) == (other.num < 0)) by (nonlinear_arith)
                requires
                    y as int == other.num() * self.den(),
                    self.den() >= 1,
                    other.num() != 0,
                    y as int != 0,
            ;
            assert(other.num() * q * self.den() == t as int) by (nonlinear_arith)
                requires
                    y as int == other.num() * self.den(),
                    y_abs as nat == nat_abs(y as int),
                    q_abs as nat == nat_abs(q),
                    t_abs as nat == (q_abs as nat) * (y_abs as nat),
                    q == (if q_neg {
                        -(q_abs as int)
                    } else {
                        q_abs as int
                    }),
                    t as int == (if t_neg {
                        -(t_abs as int)
                    } else {
                        t_abs as int
                    }),
                    q_neg == ((x as int) < 0) != ((y as int) < 0),
                    t_neg == (q_neg != (other.num() < 0)),
                    ((y as int) < 0) == (other.num() < 0),
                    y as int != 0,
            ;
        }
        let n: i128 = x - t;
        let d: i128 = (self.den as i128) * (other.den as i128);
        let neg = n < 0;
        let n_abs: u128 = if neg {
            (-n) as u128
        } else {
            n as u128
        };
        Self::reduce_make(neg, n_abs, d as u128)
    }

    /// The reciprocal's canonical pair; the zero sentinel for zero.
    pub fn recip(self) -> (r: Fraction)
        ensures
            (r.num(), r.den()) == norm_frac(self.den(), self.num()),
    {
        proof {
            use_type_invariant(self);
        }
        if self.num == 0 {
            return Self::zero();
        }
        let n_abs: u128 = self.den as u128;
        let d_abs: u128 = if self.num < 0 {
            (-(self.num as i128)) as u128
        } else {
            self.num as u128
        };
        let r = Self::reduce_make(self.num < 0, n_abs, d_abs);
        proof {
            lemma_norm_flip(self.den as int, self.num as int);
        }
        r
    }

    /// One square-and-multiply step on canonical pairs.
    pub open spec fn mul_pair(p: (int, int), q: (int, int)) -> (int, int) {
        norm_frac(p.0 * q.0, p.1 * q.1)
    }

    /// The square-and-multiply recursion on canonical pairs.
    pub open spec fn pow_loop(acc: (int, int), b: (int, int), k: nat) -> (int, int)
        decreases k,
    {
        if k == 0 {
            acc
        } else {
            let acc2 = if k % 2 == 1 {
                Self::mul_pair(acc, b)
            } else {
                acc
            };
            Self::pow_loop(acc2, Self::mul_pair(b, b), k / 2)
        }
    }

    /// Raising to an integer power: square-and-multiply from one, on the
    /// reciprocal for negative exponents.
    pub open spec fn spec_pow(a: Fraction, e: int) -> (int, int) {
        if e >= 0 {
            Self::pow_loop((1, 1), (a.num(), a.den()), e as nat)
        } else {
            Self::pow_loop((1, 1), norm_frac(a.den(), a.num()), nat_abs(e))
        }
    }

    pub fn pow_int(self, e: i64) -> (r: Fraction)
        ensures
            (r.num(), r.den()) == Self::spec_pow(self, e as int),
    {
        proof {
            use_type_invariant(self);
        }
        let mut base: Fraction;
        let mut k: u64;
        if e >= 0 {
            base = self;
            k = e as u64;
        } else {
            base = self.recip();
            k = (-(e as i128)) as u64;
        }
        let mut acc = Self::one();
        while k > 0
            invariant
                Self::pow_loop((acc.num(), acc.den()), (base.num(), base.den()), k as nat)
                    == Self::spec_pow(self, e as int),
            decreases k,
        {
            if k % 2 == 1 {
                acc = acc.mul(base);
            }
            base = base.mul(base);
            k = k / 2;
        }
        acc
    }

    /// The canonical text: the numerator alone for whole numbers, else
    /// numerator, a slash, denominator.
    pub open spec fn spec_display(self) -> Seq<char> {
        if self.den() == 1 {
            int_str(self.num())
        } else {
            int_str(self.num()).add(seq!['/']).add(int_str(self.den()))
        }
    }

    pub fn display(&self) -> (r: String)
        ensures
            r@ == self.spec_display(),
    {
        let mut out: Vec<char> = Vec::new();
        push_i64_decimal(self.num, &mut out);
        if self.den != 1 {
            out.push('/');
            push_i64_decimal(self.den, &mut out);
            proof {
                assert(out@ =~= self.spec_display());
            }
        } else {
            proof {
                assert(out@ =~= self.spec_display());
            }
        }
        string_from_chars(&out)
    }

    /// What reading a `p/q` literal yields: the canonical pair of p/q, split
    /// at the first slash, both sides trimmed and read as integers.
    pub open spec fn spec_from_text(s: Seq<char>) -> Option<(int, int)> {
        let i = find_char(s, '/');
        if i == s.len() {
            None
        } else {
            let a = spec_trim(s.subrange(0, i));
            let b = spec_trim(s.subrange(i + 1, s.len() as int));
            match spec_parse_i64(a) {
                Some(p) => match spec_parse_i64(b) {
                    Some(q) => if q == 0 {
                        None
                    } else {
                        Some(norm_frac(p, q))
                    },
                    None => None,
                },
                None => None,
            }
        }
    }

    /// Reads a fraction literal of the form `p/q`; nothing when the text is
    /// not of that form or the denominator is zero.
    pub fn from(value: String) -> (r: Option<Fraction>)
        ensures
            match r {
                Some(f) => Self::spec_from_text(value@) == Some((f.num(), f.den())),
                None => Self::spec_from_text(value@) is None,
            },
    {
        let chars = chars_of_str(value.as_str());
        let n = chars.len();
        let slash = find_char_in(&chars, '/');
        proof {
            lemma_find_char_props(chars@, '/');
        }
        if slash == n {
            return None;
        }
        let left = subvec(&chars, 0, slash);
        let right = subvec(&chars, slash + 1, n);
        let lt = trim_chars(&left);
        let rt = trim_chars(&right);
        proof {
            assert(lt@.subrange(0, lt@.len() as int) =~= lt@);
            assert(rt@.subrange(0, rt@.len() as int) =~= rt@);
        }
        let p = match parse_i64_range(&lt, 0, lt.len()) {
            Some(p) => p,
            None => {
                return None;
            },
        };
        let q = match parse_i64_range(&rt, 0, rt.len()) {
            Some(q) => q,
            None => {
                return None;
            },
        };
        Self::from_ints(p, q)
    }

    /// What reading a plain decimal literal yields, as a raw (numerator,
    /// denominator) pair: an optional sign, then digits with at most one
    /// point, at least one digit in all. Up to six fractional digits the
    /// value is exact over its power of ten; from seven to twelve the result
    /// is the scan's closest fraction with a denominator of at most one
    /// million; beyond that, or past the digit readers' ranges, nothing.
    pub open spec fn spec_parse_decimal(s: Seq<char>) -> Option<(int, int)> {
        let neg = s.len() >= 1 && s[0] == '-';
        let body = if s.len() >= 1 && (s[0] == '-' || s[0] == '+') {
            s.skip(1)
        } else {
            s
        };
        let dot = find_char(body, '.');
        if dot == body.len() {
            if body.len() >= 1 && all_digits(body) && digits_val(body) <= u64::MAX {
                Some(
                    (
                        if neg {
                            -(digits_val(body) as int)
                        } else {
                            digits_val(body) as int
                        },
                        1,
                    ),
                )
            } else {
                None
            }
        } else {
            let ip = body.subrange(0, dot);
            let fp = body.subrange(dot + 1, body.len() as int);
            if ip.len() + fp.len() >= 1 && all_digits(ip) && all_digits(fp) && fp.len() <= 6
                && digits_val(ip) <= u64::MAX {
                let v = digits_val(ip) * spec_pow10(fp.len() as nat) + digits_val(fp);
                Some(
                    (
                        if neg {
                            -(v as int)
                        } else {
                            v as int
                        },
                        spec_pow10(fp.len() as nat) as int,
                    ),
                )
            } else if all_digits(ip) && all_digits(fp) && 7 <= fp.len() <= 12 && digits_val(ip)
                <= u32::MAX {
                // past the exact range the reader keeps the closest fraction
                // with a denominator of at most one million
                let p = spec_pow10(fp.len() as nat);
                let v = digits_val(ip) * p + digits_val(fp);
                let best = best_frac(v, p, 2, round_num(v, p, 1), 1);
                Some(
                    (
                        if neg {
                            -(best.0 as int)
                        } else {
                            best.0 as int
                        },
                        best.1 as int,
                    ),
                )
            } else {
                None
            }
        }
    }

    /// What a decimal literal denotes as a fraction: the canonical pair of
    /// the raw reading, when it fits the field type.
    pub open spec fn spec_from_decimal(s: Seq<char>) -> Option<(int, int)> {
        match Self::spec_parse_decimal(s) {
            Some(p) => {
                let q = norm(p.0, p.1);
                if in_i64(q.0) && in_i64(q.1) {
                    Some(q)
                } else {
                    None
                }
            },
            None => None,
        }
    }

    /// Reads a decimal literal such as `3.14` into the canonical fraction it
    /// denotes: exact up to six fractional digits, and the closest fraction
    /// under the million denominator cap up to twelve.
    #[verifier::rlimit(100)]
    #[verifier::spinoff_prover]
    pub fn from_decimal_text(s: &Vec<char>) -> (r: Option<Fraction>)
        ensures
            match r {
                Some(f) => Self::spec_from_decimal(s@) == Some((f.num(), f.den())),
                None => Self::spec_from_decimal(s@) is None,
            },
    {
        let n = s.len();
        if n == 0 {
            return None;
        }
        let c0 = s[0];
        let neg = c0 == '-';
        let bstart: usize = if c0 == '-' || c0 == '+' {
            1
        } else {
            0
        };
        let bvec = subvec(s, bstart, n);
        let ghost body = if s@.len() >= 1 && (s@[0] == '-' || s@[0] == '+') {
            s@.skip(1)
        } else {
            s@
        };
        proof {
            assert(bvec@ =~= body);
        }
        let blen = bvec.len();
        let dot = find_char_in(&bvec, '.');
        proof {
            lemma_find_char_props(bvec@, '.');
        }
        if dot == blen {
            if blen == 0 {
                return None;
            }
            proof {
                assert(bvec@.subrange(0, blen as int) =~= body);
            }
            match parse_digits_u64(&bvec, 0, blen) {
                None => None,
                Some(v) => {
                    let f = Self::reduce_make(neg, v as u128, 1);
                    proof {
                        if v != 0 {
                            let nn: int = if neg {
                                -(v as int)
                            } else {
                                v as int
                            };
                            lemma_norm_num_nonzero(nn, 1);
                        } else {
                            lemma_norm_zero_num(1);
                        }
                    }
                    if v != 0 && f.is_zero() {
                        None
                    } else {
                        Some(f)
                    }
                },
            }
        } else {
            let ghost ip = body.subrange(0, dot as int);
            let ghost fp = body.subrange(dot as int + 1, blen as int);
            let flen = blen - dot - 1;
            if flen > 12 {
                proof {
                    assert(bvec@.subrange(dot as int + 1, blen as int) =~= fp);
                }
                return None;
            }
            if blen == 1 {
                // only the point itself: no digits on either side
                return None;
            }
            proof {
                assert(bvec@.subrange(0, dot as int) =~= ip);
                assert(bvec@.subrange(dot as int + 1, blen as int) =~= fp);
                lemma_digits_val_bound(fp);
                crate::numtext::lemma_pow10_values();
                lemma_pow10_le(fp.len() as nat, 12);
            }
            let fp_val: u64 = if flen == 0 {
                0u64
            } else {
                match parse_digits_u64(&bvec, dot + 1, blen) {
                    None => {
                        return None;
                    },
                    Some(v) => v,
                }
            };
            let ip_val: u64 = if dot == 0 {
                0u64
            } else {
                match parse_digits_u64(&bvec, 0, dot) {
                    None => {
                        return None;
                    },
                    Some(v) => v,
                }
            };
            let p10 = pow10_u64(flen);
            if flen <= 6 {
                proof {
                    lemma_pow10_le(fp.len() as nat, 6);
                    assert((ip_val as int) * (p10 as int) <= 0xffffffffffffffff * 1000000)
                        by (nonlinear_arith)
                        requires
                            0 <= ip_val <= 0xffffffffffffffff,
                            1 <= p10 <= 1000000,
                    ;
                }
                let v: u128 = (ip_val as u128) * (p10 as u128) + (fp_val as u128);
                let f = Self::reduce_make(neg, v, p10 as u128);
                proof {
                    if v != 0 {
                        let nn: int = if neg {
                            -(v as int)
                        } else {
                            v as int
                        };
                        lemma_norm_num_nonzero(nn, p10 as int);
                    } else {
                        lemma_norm_zero_num(p10 as int);
                    }
                }
                if v != 0 && f.is_zero() {
                    None
                } else {
                    Some(f)
                }
            } else {
                // seven to twelve fractional digits: beyond the exact range
                // the reader keeps the closest fraction whose denominator
                // stays within the cap of one million
                if ip_val > 0xffffffffu64 {
                    return None;
                }
                proof {
                    lemma_pow10_le(7, fp.len() as nat);
                }
                let p: u128 = p10 as u128;
                proof {
                    assert((ip_val as int) * (p as int) + (fp_val as int) < 4294967296 * (
                    p as int)) by (nonlinear_arith)
                        requires
                            0 <= ip_val <= 0xffffffff,
                            0 <= (fp_val as int) < (p as int),
                            p >= 1,
                    ;
                    assert(4294967296 * (p as int) <= 4294967296000000000000) by (nonlinear_arith)
                        requires
                            1 <= p <= 1000000000000,
                    ;
                }
                let vp: u128 = (ip_val as u128) * p + (fp_val as u128);
                let half: u128 = p / 2;
                proof {
                    lemma_fundamental_div_mod((vp + half) as int, p as int);
                }
                let mut bn: u128 = (vp + half) / p;
                proof {
                    assert((p as int) * (bn as int) == (bn as int) * (p as int))
                        by (nonlinear_arith);
                    assert((bn as int) * (p as int) <= (vp as int) + (half as int));
                }
                let mut bd: u128 = 1;
                let t0 = bn * p;
                let mut bdist: u128 = if vp >= t0 {
                    vp - t0
                } else {
                    t0 - vp
                };
                proof {
                    assert((vp as nat) * 1 == vp as nat) by (nonlinear_arith);
                    assert(bn as nat == round_num(vp as nat, p as nat, 1));
                    assert(bdist as nat == frac_dist(vp as nat, p as nat, bn as nat, 1));
                }
                let mut d: u128 = 2;
                while d <= 1000000 && bdist != 0
                    invariant
                        2 <= d <= 1000001,
                        1 <= bd < d,
                        10000000 <= p <= 1000000000000,
                        half == p / 2,
                        (vp as nat) < 4294967296nat * (p as nat),
                        (bn as nat) * (p as nat) <= (vp as nat) * (bd as nat) + (p as nat),
                        bdist as nat == frac_dist(vp as nat, p as nat, bn as nat, bd as nat),
                        best_frac(vp as nat, p as nat, d as nat, bn as nat, bd as nat)
                            == best_frac(
                            vp as nat,
                            p as nat,
                            2,
                            round_num(vp as nat, p as nat, 1),
                            1,
                        ),
                    decreases 1000001 - d,
                {
                    proof {
                        assert((vp as int) * (d as int) <= 4294967296000000000000 * 1000000)
                            by (nonlinear_arith)
                            requires
                                0 <= (vp as int) <= 4294967296000000000000,
                                0 <= (d as int) <= 1000000,
                        ;
                    }
                    let prod = vp * d;
                    proof {
                        lemma_fundamental_div_mod((prod + half) as int, p as int);
                    }
                    let n = (prod + half) / p;
                    proof {
                        assert((p as int) * (n as int) == (n as int) * (p as int))
                            by (nonlinear_arith);
                        assert((n as int) * (p as int) <= (prod as int) + (half as int));
                    }
                    let np = n * p;
                    let nd = if prod >= np {
                        prod - np
                    } else {
                        np - prod
                    };
                    proof {
                        assert(n as nat == round_num(vp as nat, p as nat, d as nat));
                        assert(nd as nat == frac_dist(vp as nat, p as nat, n as nat, d as nat));
                        assert((nd as int) * (bd as int) <= 4295967296000000000000000000 * 1000000)
                            by (nonlinear_arith)
                            requires
                                0 <= (nd as int) <= 4295967296000000000000000000,
                                0 <= (bd as int) <= 1000000,
                        ;
                        // the running best stays within one rounding of its target
                        assert((bdist as int) <= (vp as int) * (bd as int) + (p as int));
                        assert((vp as int) * (bd as int) + (p as int)
                            <= 4295967296000000000000000000) by (nonlinear_arith)
                            requires
                                0 <= (vp as int) <= 4294967296000000000000,
                                0 <= (bd as int) <= 1000000,
                                0 <= (p as int) <= 1000000000000,
                        ;
                        assert((bdist as int) * (d as int) <= 4295967296000000000000000000
                            * 1000000) by (nonlinear_arith)
                            requires
                                0 <= (bdist as int) <= 4295967296000000000000000000,
                                0 <= (d as int) <= 1000000,
                        ;
                    }
                    let left = nd * bd;
                    let right = bdist * d;
                    if left < right {
                        bn = n;
                        bd = d;
                        bdist = nd;
                    }
                    d = d + 1;
                }
                proof {
                    assert(best_frac(vp as nat, p as nat, d as nat, bn as nat, bd as nat) == (
                    bn as nat,
                    bd as nat,
                ));
                    // the winning numerator fits the field type
                    assert((bn as int) <= 4294967296 * (bd as int) + 1) by (nonlinear_arith)
                        requires
                            (bn as int) * (p as int) <= (vp as int) * (bd as int) + (p as int),
                            (vp as int) < 4294967296 * (p as int),
                            (p as int) >= 1,
                            (bd as int) >= 1,
                    ;
                    assert((bn as int) <= 4294967296 * 1000000 + 1) by (nonlinear_arith)
                        requires
                            (bn as int) <= 4294967296 * (bd as int) + 1,
                            1 <= (bd as int) <= 1000000,
                    ;
                    let nn: int = if neg {
                        -(bn as int)
                    } else {
                        bn as int
                    };
                    lemma_norm_bounds(nn, bd as int);
                }
                let f = Self::reduce_make(neg, bn, bd);
                Some(f)
            }
        }
    }

    /// Reduces the fraction to lowest terms; by the type's invariant the
    /// parts are already coprime, so the value is unchanged.
    pub fn simplify(&mut self)
        ensures
            *final(self) == *old(self),
    {
        proof {
            use_type_invariant(&*self);
        }
        let n_abs: u128 = if self.num < 0 {
            (-(self.num as i128)) as u128
        } else {
            self.num as u128
        };
        let g = gcd_u128(n_abs, self.den as u128);
        let gi = g as i64;
        *self = Fraction { num: self.num / gi, den: self.den / gi };
    }
}

/// Bounds of the product of a numerator and a denominator: the denominator is
/// positive, so the magnitude stays below 2^63 * (2^63 - 1).
proof fn lemma_mul_num_den_bounds(a: int, b: int)
    requires
        in_i64(a),
        1 <= b <= 0x7fffffffffffffff,
    ensures
        -0x3fffffffffffffff8000000000000000 <= a * b <= 0x3fffffffffffffff8000000000000000,
{
    assert(-0x3fffffffffffffff8000000000000000 <= a * b <= 0x3fffffffffffffff8000000000000000)
        by (nonlinear_arith)
        requires
            -0x8000000000000000 <= a <= 0x7fffffffffffffff,
            1 <= b <= 0x7fffffffffffffff,
    ;
}

/// Bounds of a product of two values in 64-bit range.
proof fn lemma_mul_i64_bounds(a: int, b: int)
    requires
        in_i64(a),
        in_i64(b),
    ensures
        -0x40000000000000000000000000000000 <= a * b <= 0x40000000000000000000000000000000,
{
    assert(-0x40000000000000000000000000000000 <= a * b <= 0x40000000000000000000000000000000)
        by (nonlinear_arith)
        requires
            -0x8000000000000000 <= a <= 0x7fffffffffffffff,
            -0x8000000000000000 <= b <= 0x7fffffffffffffff,
    ;
}

proof fn lemma_mul_pos(a: int, b: int)
    requires
        a >= 1,
        b >= 1,
    ensures
        a * b >= 1,
{
    assert(a * b >= 1) by (nonlinear_arith)
        requires
            a >= 1,
            b >= 1,
    ;
}

proof fn lemma_mul_zero(a: int, b: int)
    requires
        b == 0,
    ensures
        a * b == 0,
{
}

proof fn lemma_mul_nonzero(a: int, b: int)
    requires
        a != 0,
        b != 0,
    ensures
        a * b != 0,
{
    assert(a * b != 0) by (nonlinear_arith)
        requires
            a != 0,
            b != 0,
    ;
}

/// A pair already in canonical form normalises to itself.
pub proof fn lemma_norm_of_canonical(n: int, d: int)
    requires
        Fraction::canonical(n, d),
    ensures
        norm(n, d) == (n, d),
        in_i64(n) && in_i64(d) ==> norm_frac(n, d) == (n, d),
{
    assert(n / 1int == n);
    assert(d / 1int == d);
}

/// Folding an arithmetic built-in with its identity element returns the
/// value unchanged: adding or subtracting zero, multiplying or dividing by
/// one.
pub proof fn lemma_fold_identity(a: Fraction, zero: Fraction, one: Fraction)
    requires
        Fraction::canonical(a.num(), a.den()),
        zero.num() == 0,
        zero.den() == 1,
        one.num() == 1,
        one.den() == 1,
    ensures
        Fraction::spec_add(a, zero) == (a.num(), a.den()),
        Fraction::spec_sub(a, zero) == (a.num(), a.den()),
        Fraction::spec_mul(a, one) == (a.num(), a.den()),
        Fraction::spec_div(a, one) == (a.num(), a.den()),
{
    lemma_norm_of_canonical(a.num(), a.den());
}

/// The numerator nearest v/p at denominator d: the rounded quotient, halves
/// upward as the decimal reader rounds.
pub open spec fn round_num(v: nat, p: nat, d: nat) -> nat {
    (v * d + p / 2) / p
}

/// The scaled distance from v/p to n/d: the magnitude of v·d − n·p.
pub open spec fn frac_dist(v: nat, p: nat, n: nat, d: nat) -> nat {
    nat_abs((v * d) as int - (n * p) as int)
}

/// The denominator scan of the decimal reader: from d upward to the cap of
/// one million, keeping the first strictly closer candidate; an exact best
/// stops the scan.
pub open spec fn best_frac(v: nat, p: nat, d: nat, bn: nat, bd: nat) -> (nat, nat)
    decreases 1000001 - d,
{
    if d > 1000000 || frac_dist(v, p, bn, bd) == 0 {
        (bn, bd)
    } else {
        let n = round_num(v, p, d);
        if frac_dist(v, p, n, d) * bd < frac_dist(v, p, bn, bd) * d {
            best_frac(v, p, d + 1, n, d)
        } else {
            best_frac(v, p, d + 1, bn, bd)
        }
    }
}

/// Normalising keeps the parts within the inputs' magnitudes.
proof fn lemma_norm_bounds(n: int, d: int)
    requires
        d >= 1,
    ensures
        nat_abs(norm(n, d).0) <= nat_abs(n),
        1 <= norm(n, d).1 <= d,
{
    let g = gcd(nat_abs(n), d as nat) as int;
    lemma_coprime_after_div(nat_abs(n), d as nat);
    lemma_gcd_divides(nat_abs(n), d as nat);
    lemma_divides_mod_zero(g, nat_abs(n) as int);
    vstd::arithmetic::div_mod::lemma_div_nonincreasing(d, g);
    vstd::arithmetic::div_mod::lemma_div_pos_is_pos(d, g);
    vstd::arithmetic::div_mod::lemma_div_nonincreasing(nat_abs(n) as int, g);
    vstd::arithmetic::div_mod::lemma_div_pos_is_pos(nat_abs(n) as int, g);
    if n < 0 {
        lemma_neg_div(-n, g);
    }
}

/// Zero over any positive denominator normalises to the zero pair.
proof fn lemma_norm_zero_num(d: int)
    requires
        d >= 1,
    ensures
        norm(0, d) == (0int, 1int),
{
    assert((0nat) % (d as nat) == 0);
    assert(gcd(0, d as nat) == gcd(d as nat, 0));
    assert(gcd(d as nat, 0) == d as nat);
    assert(nat_abs(0) == 0);
    assert(0int / d == 0);
    assert(d / d == 1);
}

/// A nonzero numerator stays nonzero under normalisation.
proof fn lemma_norm_num_nonzero(n: int, d: int)
    requires
        n != 0,
        d >= 1,
    ensures
        norm(n, d).0 != 0,
{
    let g = gcd(nat_abs(n), d as nat) as int;
    lemma_coprime_after_div(nat_abs(n), d as nat);
    lemma_gcd_divides(nat_abs(n), d as nat);
    lemma_divides_mod_zero(g, nat_abs(n) as int);
    let q = nat_abs(n) as int / g;
    assert(q >= 1) by (nonlinear_arith)
        requires
            g * q == nat_abs(n) as int,
            nat_abs(n) as int >= 1,
            g >= 1,
    ;
    if n < 0 {
        lemma_neg_div(-n, g);
        assert(norm(n, d).0 == -q);
    } else {
        assert(norm(n, d).0 == q);
    }
}

/// Normalising n/d equals normalising with the sign moved onto the numerator.
proof fn lemma_norm_flip(n: int, d: int)
    requires
        d != 0,
    ensures
        norm_frac(n, d) == norm_frac(
            if d < 0 {
                -n
            } else {
                n
            },
            nat_abs(d) as int,
        ),
{
}

/// Every pair that `norm_frac` yields — and so the parts of every fraction an
/// operation returns — has a denominator of at least one and coprime parts.
pub proof fn lemma_norm_frac_canonical(n: int, d: int)
    ensures
        Fraction::canonical(norm_frac(n, d).0, norm_frac(n, d).1),
{
    lemma_gcd_one_right(0);
    if d != 0 {
        let n2: int = if d < 0 {
            -n
        } else {
            n
        };
        let d2: int = if d < 0 {
            -d
        } else {
            d
        };
        lemma_coprime_after_div(nat_abs(n2), d2 as nat);
        let g = gcd(nat_abs(n2), d2 as nat) as int;
        if n2 >= 0 {
            assert(nat_abs(n2 / g) == nat_abs(n2) as int / g);
        } else {
            lemma_neg_div(-n2, g);
            assert(nat_abs(n2 / g) == nat_abs(n2) as int / g);
        }
    }
}

/// gcd with one is one.
pub proof fn lemma_gcd_one_right(a: nat)
    ensures
        gcd(a, 1) == 1,
{
    assert(gcd(a, 1) == gcd(1, a % 1));
    assert(a % 1 == 0);
    assert(gcd(1, 0) == 1);
}

/// Exact division distributes over negation.
proof fn lemma_neg_div(a: int, g: int)
    requires
        a >= 0,
        g > 0,
        a % g == 0,
    ensures
        (-a) / g == -(a / g),
{
    lemma_fundamental_div_mod(a, g);
    let q = a / g;
    assert(-a == g * (-q) + 0) by (nonlinear_arith)
        requires
            a == g * q,
    ;
    lemma_fundamental_div_mod_converse(-a, g, -q, 0);
}

} // verus!
