//! Exact rational numbers on `i64` numerator / denominator pairs.
//!
//! Every operation returns its result in canonical form: the denominator is
//! positive and numerator and denominator are divided by their greatest
//! common divisor.  Operations whose canonical result does not fit in `i64`
//! report that by returning `None`.

use vstd::prelude::*;

verus! {

use vstd::arithmetic::div_mod::lemma_fundamental_div_mod;
use vstd::arithmetic::div_mod::lemma_mod_self_0;
use vstd::arithmetic::div_mod::lemma_small_mod;
use vstd::arithmetic::div_mod::lemma_mod_multiples_basic;
use vstd::arithmetic::div_mod::lemma_mod_division_less_than_divisor;
use vstd::arithmetic::div_mod::lemma_div_by_self;
use vstd::arithmetic::div_mod::lemma_div_is_ordered;
use vstd::arithmetic::div_mod::lemma_div_nonincreasing;
use vstd::arithmetic::div_mod::lemma_div_pos_is_pos;
use vstd::arithmetic::div_mod::lemma_truncate_middle;

/// Largest magnitude a numerator or a denominator may take (`i64::MAX`).
pub open spec fn max_mag() -> int {
    0x7fff_ffff_ffff_ffff
}

/// Magnitude of an integer.
pub open spec fn mag(n: int) -> int {
    if n >= 0 {
        n
    } else {
        -n
    }
}

/// Euclid's greatest common divisor of two nonnegative integers.
pub open spec fn gcd_int(a: int, b: int) -> int
    recommends
        0 <= a,
        0 <= b,
    decreases a,
        when 0 <= a
{
    if a == 0 {
        b
    } else {
        gcd_int(b % a, a)
    }
}

/// The basic facts about `gcd_int`: it is positive, divides both arguments,
/// and is bounded by each positive argument.
pub proof fn lemma_gcd_props(a: int, b: int)
    requires
        0 <= a,
        1 <= b,
    ensures
        1 <= gcd_int(a, b),
        gcd_int(a, b) <= b,
        1 <= a ==> gcd_int(a, b) <= a,
        a % gcd_int(a, b) == 0,
        b % gcd_int(a, b) == 0,
    decreases a,
{
    let g = gcd_int(a, b);
    if a == 0 {
        lemma_mod_self_0(b);
        lemma_small_mod(0nat, b as nat);
    } else {
        lemma_mod_division_less_than_divisor(b, a);
        lemma_gcd_props(b % a, a);
        let q = b / a;
        let r = b % a;
        lemma_fundamental_div_mod(b, a);
        lemma_fundamental_div_mod(a, g);
        lemma_fundamental_div_mod(r, g);
        assert(b == (q * (a / g) + r / g) * g) by (nonlinear_arith)
            requires
                b == q * a + r,
                a == g * (a / g) + a % g,
                r == g * (r / g) + r % g,
                a % g == 0,
                r % g == 0,
        ;
        lemma_mod_multiples_basic(q * (a / g) + r / g, g);
        if g > b {
            lemma_small_mod(b as nat, g as nat);
        }
    }
}

/// The canonical (reduced, positive-denominator) form of the fraction `n / d`.
pub open spec fn norm_frac(n: int, d: int) -> (int, int)
    recommends
        1 <= d,
{
    let m = mag(n);
    let g = gcd_int(m, d);
    if n >= 0 {
        (m / g, d / g)
    } else {
        (-(m / g), d / g)
    }
}

/// Whether a numerator/denominator pair is representable on `i64` fields.
pub open spec fn frac_fits(p: (int, int)) -> bool {
    &&& -max_mag() <= p.0 <= max_mag()
    &&& 1 <= p.1 <= max_mag()
}

/// Canonicalization keeps the numerator's sign, never enlarges magnitudes,
/// and keeps the denominator positive.
pub proof fn lemma_norm_bounds(n: int, d: int)
    requires
        1 <= d,
    ensures
        0 <= norm_frac(n, d).0 <= mag(n) || 0 <= -norm_frac(n, d).0 <= mag(n),
        mag(norm_frac(n, d).0) <= mag(n),
        1 <= norm_frac(n, d).1 <= d,
{
    let m = mag(n);
    let g = gcd_int(m, d);
    lemma_gcd_props(m, d);
    lemma_div_pos_is_pos(m, g);
    lemma_div_nonincreasing(m, g);
    lemma_div_by_self(g);
    lemma_div_is_ordered(g, d, g);
    lemma_div_nonincreasing(d, g);
}

/// Canonicalization is exact: the canonical form of `n / d` denotes the very
/// same rational value, stated by cross multiplication.  Nothing is rounded.
pub proof fn lemma_norm_frac_exact(n: int, d: int)
    requires
        1 <= d,
    ensures
        norm_frac(n, d).0 * d == n * norm_frac(n, d).1,
{
    let m = mag(n);
    let g = gcd_int(m, d);
    lemma_gcd_props(m, d);
    lemma_fundamental_div_mod(m, g);
    lemma_fundamental_div_mod(d, g);
    assert((m / g) * d == m * (d / g)) by (nonlinear_arith)
        requires
            m == g * (m / g) + m % g,
            d == g * (d / g) + d % g,
            m % g == 0,
            d % g == 0,
    ;
    if n < 0 {
        assert(-(m / g) * d == n * (d / g)) by (nonlinear_arith)
            requires
                (m / g) * d == m * (d / g),
                n == -m,
        ;
    }
}

/// A common factor of both arguments factors out of the greatest common
/// divisor.
pub proof fn lemma_gcd_scale(k: int, a: int, b: int)
    requires
        1 <= k,
        0 <= a,
        0 <= b,
    ensures
        gcd_int(k * a, k * b) == k * gcd_int(a, b),
    decreases a,
{
    if a == 0 {
        assert(k * a == 0);
    } else {
        lemma_pos_prod(k, a);
        lemma_mod_division_less_than_divisor(b, a);
        lemma_truncate_middle(b, k, a);
        lemma_gcd_scale(k, b % a, a);
        assert(gcd_int(k * a, k * b) == gcd_int((k * b) % (k * a), k * a));
    }
}

/// Canonical forms are fully reduced: the numerator's magnitude and the
/// denominator are coprime.
pub proof fn lemma_norm_frac_reduced(n: int, d: int)
    requires
        1 <= d,
    ensures
        gcd_int(mag(norm_frac(n, d).0), norm_frac(n, d).1) == 1,
{
    let m = mag(n);
    let g = gcd_int(m, d);
    lemma_gcd_props(m, d);
    lemma_fundamental_div_mod(m, g);
    lemma_fundamental_div_mod(d, g);
    lemma_div_pos_is_pos(m, g);
    lemma_div_by_self(g);
    lemma_div_is_ordered(g, d, g);
    lemma_gcd_scale(g, m / g, d / g);
    assert(g * (m / g) == m);
    assert(g * (d / g) == d);
    let h = gcd_int(m / g, d / g);
    lemma_gcd_props(m / g, d / g);
    assert(h == 1) by (nonlinear_arith)
        requires
            g * h == g,
            1 <= g,
            1 <= h,
    ;
}

/// Negation of a fraction pair.
pub open spec fn q_neg(p: (int, int)) -> (int, int) {
    (-p.0, p.1)
}

/// Reciprocal of a nonzero fraction pair, keeping the denominator positive.
pub open spec fn q_recip(p: (int, int)) -> (int, int)
    recommends
        p.0 != 0,
{
    if p.0 > 0 {
        (p.1, p.0)
    } else {
        (-p.1, -p.0)
    }
}

/// Canonical value of a sum of two fraction pairs.
pub open spec fn q_add_val(a: (int, int), b: (int, int)) -> (int, int) {
    norm_frac(a.0 * b.1 + b.0 * a.1, a.1 * b.1)
}

/// Addition is exact: the canonical sum denotes the true sum of the two
/// rational values, stated by cross multiplication.
pub proof fn lemma_add_exact(a: (int, int), b: (int, int))
    requires
        1 <= a.1,
        1 <= b.1,
    ensures
        q_add_val(a, b).0 * (a.1 * b.1) == (a.0 * b.1 + b.0 * a.1) * q_add_val(a, b).1,
{
    lemma_pos_prod(a.1, b.1);
    lemma_norm_frac_exact(a.0 * b.1 + b.0 * a.1, a.1 * b.1);
}

/// Sum of two fraction pairs; `None` when the canonical result overflows.
pub open spec fn q_add(a: (int, int), b: (int, int)) -> Option<(int, int)> {
    if frac_fits(q_add_val(a, b)) {
        Some(q_add_val(a, b))
    } else {
        None
    }
}

/// Canonical value of a product of two fraction pairs.
pub open spec fn q_mul_val(a: (int, int), b: (int, int)) -> (int, int) {
    norm_frac(a.0 * b.0, a.1 * b.1)
}

/// Multiplication is exact: the canonical product denotes the true product
/// of the two rational values, stated by cross multiplication.
pub proof fn lemma_mul_exact(a: (int, int), b: (int, int))
    requires
        1 <= a.1,
        1 <= b.1,
    ensures
        q_mul_val(a, b).0 * (a.1 * b.1) == (a.0 * b.0) * q_mul_val(a, b).1,
{
    lemma_pos_prod(a.1, b.1);
    lemma_norm_frac_exact(a.0 * b.0, a.1 * b.1);
}

/// Product of two fraction pairs; `None` when the canonical result overflows.
pub open spec fn q_mul(a: (int, int), b: (int, int)) -> Option<(int, int)> {
    if frac_fits(q_mul_val(a, b)) {
        Some(q_mul_val(a, b))
    } else {
        None
    }
}

/// The pair view of an optional rational.
pub open spec fn opt_rat_view(r: Option<Rat>) -> Option<(int, int)> {
    match r {
        Some(c) => Some(c@),
        None => None,
    }
}

/// Euclid's algorithm; the executable counterpart of `gcd_int`.
pub fn gcd_u128(a: u128, b: u128) -> (r: u128)
    ensures
        r as int == gcd_int(a as int, b as int),
    decreases a as int,
{
    if a == 0 {
        b
    } else {
        gcd_u128(b % a, a)
    }
}

proof fn lemma_prod_bound(x: int, y: int, m: int)
    requires
        -m <= x <= m,
        -m <= y <= m,
        0 <= m,
    ensures
        -(m * m) <= x * y <= m * m,
{
    assert(-(m * m) <= x * y <= m * m) by (nonlinear_arith)
        requires
            -m <= x <= m,
            -m <= y <= m,
            0 <= m,
    ;
}

proof fn lemma_pos_prod(x: int, y: int)
    requires
        1 <= x,
        1 <= y,
    ensures
        1 <= x * y,
{
    assert(1 <= x * y) by (nonlinear_arith)
        requires
            1 <= x,
            1 <= y,
    ;
}

/// An exact rational number in canonical form: positive denominator,
/// numerator and denominator coprime, both with magnitude at most `i64::MAX`.
#[derive(Clone, Copy, Debug, PartialEq, Eq, Structural)]
pub struct Rat {
    num: i64,
    den: i64,
}

impl View for Rat {
    type V = (int, int);

    closed spec fn view(&self) -> (int, int) {
        (self.num as int, self.den as int)
    }
}

impl Rat {
    /// A representable pair: positive denominator, magnitudes within `i64`.
    pub open spec fn wf(self) -> bool {
        frac_fits(self@)
    }

    /// The rational zero.
    pub fn zero() -> (r: Rat)
        ensures
            r@ == (0int, 1int),
            r.wf(),
    {
        Rat { num: 0, den: 1 }
    }

    /// The rational one.
    pub fn one() -> (r: Rat)
        ensures
            r@ == (1int, 1int),
            r.wf(),
    {
        Rat { num: 1, den: 1 }
    }

    /// The integer `n` as a rational.
    pub fn from_int(n: i64) -> (r: Rat)
        requires
            -max_mag() <= n as int,
        ensures
            r@ == (n as int, 1int),
            r.wf(),
    {
        Rat { num: n, den: 1 }
    }

    /// The numerator of the canonical form.
    pub fn numer(&self) -> (r: i64)
        ensures
            r as int == self@.0,
    {
        self.num
    }

    /// The denominator of the canonical form.
    pub fn denom(&self) -> (r: i64)
        ensures
            r as int == self@.1,
    {
        self.den
    }

    /// Whether the value is zero.
    pub fn is_zero(&self) -> (b: bool)
        ensures
            b == (self@.0 == 0),
    {
        self.num == 0
    }

    /// Whether the value is exactly one.
    pub fn is_one(&self) -> (b: bool)
        ensures
            b == (self@ == (1int, 1int)),
    {
        self.num == 1 && self.den == 1
    }

    /// Builds the canonical rational `rn / rd`, or `None` when its reduced
    /// numerator or denominator falls outside the `i64` range.
    fn make(rn: i128, rd: i128) -> (r: Option<Rat>)
        requires
            1 <= rd,
            -0x7fff_ffff_ffff_ffff_ffff_ffff_ffff_ffff <= rn,
        ensures
            opt_rat_view(r) == (if frac_fits(norm_frac(rn as int, rd as int)) {
                Some(norm_frac(rn as int, rd as int))
            } else {
                Option::<(int, int)>::None
            }),
            r matches Some(c) ==> c.wf(),
    {
        let neg = rn < 0;
        let m: u128 = if neg {
            (-rn) as u128
        } else {
            rn as u128
        };
        let d: u128 = rd as u128;
        assert(m as int == mag(rn as int));
        let g = gcd_u128(m, d);
        proof {
            lemma_gcd_props(m as int, d as int);
            lemma_div_pos_is_pos(m as int, g as int);
            lemma_div_nonincreasing(m as int, g as int);
            lemma_div_by_self(g as int);
            lemma_div_is_ordered(g as int, d as int, g as int);
        }
        let qn = m / g;
        let qd = d / g;
        assert(1 <= qd as int);
        if qn <= 0x7fff_ffff_ffff_ffff && qd <= 0x7fff_ffff_ffff_ffff {
            let num: i64 = if neg {
                -(qn as i64)
            } else {
                qn as i64
            };
            Some(Rat { num, den: qd as i64 })
        } else {
            None
        }
    }

    /// The canonical rational `n / d` for a caller-supplied pair, or `None`
    /// when the reduced form overflows (it never does when `d >= 1`, since
    /// reduction only shrinks magnitudes).
    pub fn new(n: i64, d: i64) -> (r: Option<Rat>)
        requires
            1 <= d,
            -max_mag() <= n as int,
        ensures
            opt_rat_view(r) == Some(norm_frac(n as int, d as int)),
            r matches Some(c) ==> c.wf(),
    {
        proof {
            lemma_norm_bounds(n as int, d as int);
        }
        Self::make(n as i128, d as i128)
    }

    /// Exact sum, in canonical form; `None` on `i64` overflow.
    pub fn add(self, other: Rat) -> (r: Option<Rat>)
        requires
            self.wf(),
            other.wf(),
        ensures
            opt_rat_view(r) == q_add(self@, other@),
            r matches Some(c) ==> c.wf(),
    {
        let an = self.num as i128;
        let ad = self.den as i128;
        let bn = other.num as i128;
        let bd = other.den as i128;
        proof {
            lemma_prod_bound(an as int, bd as int, max_mag());
            lemma_prod_bound(bn as int, ad as int, max_mag());
            lemma_prod_bound(ad as int, bd as int, max_mag());
            lemma_pos_prod(ad as int, bd as int);
        }
        let t1 = an * bd;
        let t2 = bn * ad;
        let rn = t1 + t2;
        let rd = ad * bd;
        Self::make(rn, rd)
    }

    /// Exact product, in canonical form; `None` on `i64` overflow.
    pub fn mul(self, other: Rat) -> (r: Option<Rat>)
        requires
            self.wf(),
            other.wf(),
        ensures
            opt_rat_view(r) == q_mul(self@, other@),
            r matches Some(c) ==> c.wf(),
    {
        let an = self.num as i128;
        let ad = self.den as i128;
        let bn = other.num as i128;
        let bd = other.den as i128;
        proof {
            lemma_prod_bound(an as int, bn as int, max_mag());
            lemma_prod_bound(ad as int, bd as int, max_mag());
            lemma_pos_prod(ad as int, bd as int);
        }
        let rn = an * bn;
        let rd = ad * bd;
        Self::make(rn, rd)
    }

    /// Exact negation; never overflows.
    pub fn neg(self) -> (r: Rat)
        requires
            self.wf(),
        ensures
            r@ == q_neg(self@),
            r.wf(),
    {
        Rat { num: -self.num, den: self.den }
    }

    /// Exact reciprocal of a nonzero rational; never overflows.
    pub fn recip(self) -> (r: Rat)
        requires
            self.wf(),
            self@.0 != 0,
        ensures
            r@ == q_recip(self@),
            r.wf(),
    {
        if self.num > 0 {
            Rat { num: self.den, den: self.num }
        } else {
            Rat { num: -self.den, den: -self.num }
        }
    }
}

} // verus!

