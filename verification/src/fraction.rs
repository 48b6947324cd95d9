//! Rational numbers in lowest terms, with a positive denominator.

use vstd::arithmetic::div_mod::{
    lemma_fundamental_div_mod,
    lemma_mod_bound,
    lemma_mod_multiples_basic,
};
use vstd::prelude::*;

verus! {

/// `k` divides `a`.
pub open spec fn divides(k: int, a: int) -> bool {
    a % k == 0
}

/// `a` and `b` have no common divisor above 1.
pub open spec fn coprime(a: int, b: int) -> bool {
    forall|k: int| k > 1 && #[trigger] divides(k, a) ==> !divides(k, b)
}

/// `f` is the fraction `numer / denom`, written in lowest terms with a
/// positive denominator.
pub open spec fn is_lowest_terms_of(f: (int, int), numer: int, denom: int) -> bool {
    &&& f.1 > 0
    &&& f.0 * denom == numer * f.1
    &&& coprime(f.0, f.1)
}

/// A rational number, kept in lowest terms with a positive denominator.
#[derive(Clone, Copy, Debug)]
pub struct Fraction {
    numer: i64,
    denom: i64,
}

impl View for Fraction {
    type V = (int, int);

    /// Numerator and denominator.
    closed spec fn view(&self) -> (int, int) {
        (self.numer as int, self.denom as int)
    }
}

/// Reduces `numer / denom` with `num_rational::Ratio::new` and hands back the
/// numerator and denominator that it stores.
///
/// Trusted: `Ratio::new` divides both parts by their greatest common divisor
/// and then makes the denominator positive, so the pair is the same rational
/// in lowest terms. It panics on a zero denominator, and negating
/// `i64::MIN` overflows; both are excluded.
#[verifier::external_body]
fn lowest_terms(numer: i64, denom: i64) -> (r: (i64, i64))
    requires
        denom != 0,
        numer > i64::MIN,
        denom > i64::MIN,
    ensures
        is_lowest_terms_of((r.0 as int, r.1 as int), numer as int, denom as int),
{
    let q = num_rational::Ratio::new(numer, denom);
    (*q.numer(), *q.denom())
}

impl Fraction {
    /// Positive denominator, no common divisor.
    pub open spec fn wf(self) -> bool {
        self@.1 > 0 && coprime(self@.0, self@.1)
    }

    #[verifier::type_invariant]
    closed spec fn inv(self) -> bool {
        self.wf()
    }

    /// Both parts can be negated in 64 bits and the denominator is not zero.
    pub open spec fn representable(numer: i64, denom: i64) -> bool {
        denom != 0 && numer > i64::MIN && denom > i64::MIN
    }

    /// The fraction `numer / denom` in lowest terms; `None` when the
    /// denominator is zero or a part is `i64::MIN`.
    pub fn new(numer: i64, denom: i64) -> (r: Option<Fraction>)
        ensures
            r.is_some() <==> Self::representable(numer, denom),
            r matches Some(f) ==> is_lowest_terms_of(f@, numer as int, denom as int),
    {
        if denom == 0 || numer == i64::MIN || denom == i64::MIN {
            return None;
        }
        Some(Self::reduced(numer, denom))
    }

    /// The fraction `numer / denom` in lowest terms, for parts that
    /// [`Fraction::new`] accepts.
    pub fn reduced(numer: i64, denom: i64) -> (f: Fraction)
        requires
            Self::representable(numer, denom),
        ensures
            is_lowest_terms_of(f@, numer as int, denom as int),
    {
        let (n, d) = lowest_terms(numer, denom);
        Fraction { numer: n, denom: d }
    }

    /// The numerator.
    pub fn numer(&self) -> (n: i64)
        ensures
            n == self@.0,
    {
        self.numer
    }

    /// The denominator, which is positive.
    pub fn denom(&self) -> (d: i64)
        ensures
            d == self@.1,
            d > 0,
    {
        proof {
            use_type_invariant(self);
        }
        self.denom
    }
}

/// Euclid's algorithm: some combination `a * x + b * y` is a positive common
/// divisor `g` of `a` and `b`. The result is `(x, y, g, a / g, b / g)`.
proof fn lemma_common_divisor(a: int, b: int) -> (r: (int, int, int, int, int))
    requires
        b >= 0,
        b == 0 ==> a > 0,
    ensures
        r.2 > 0,
        a * r.0 + b * r.1 == r.2,
        a == r.2 * r.3,
        b == r.2 * r.4,
    decreases b,
{
    if b == 0 {
        assert(a * 1 + b * 0 == a && a == a * 1 && b == a * 0) by (nonlinear_arith)
            requires
                b == 0,
        ;
        (1, 0, a, 1, 0)
    } else {
        let q = a / b;
        let m = a % b;
        lemma_fundamental_div_mod(a, b);
        lemma_mod_bound(a, b);
        let (x, y, g, kb, km) = lemma_common_divisor(b, m);
        assert(a * y + b * (x - q * y) == g) by (nonlinear_arith)
            requires
                a == b * q + m,
                b * x + m * y == g,
        ;
        assert(a == g * (kb * q + km)) by (nonlinear_arith)
            requires
                a == b * q + m,
                b == g * kb,
                m == g * km,
        ;
        (y, x - q * y, g, kb * q + km, kb)
    }
}

/// Bezout: two numbers without a common divisor combine to 1.
proof fn lemma_coprime_combination(a: int, b: int) -> (r: (int, int))
    requires
        b > 0,
        coprime(a, b),
    ensures
        a * r.0 + b * r.1 == 1,
{
    let (x, y, g, ka, kb) = lemma_common_divisor(a, b);
    if g > 1 {
        lemma_mod_multiples_basic(ka, g);
        lemma_mod_multiples_basic(kb, g);
        assert(ka * g == a && kb * g == b) by (nonlinear_arith)
            requires
                a == g * ka,
                b == g * kb,
        ;
        assert(divides(g, a));
        assert(divides(g, b));
    }
    (x, y)
}

/// Where `f` is in lowest terms and equals `g`, the denominator of `g` is a
/// positive multiple of that of `f`; the result is the factor.
proof fn lemma_denominator_divides(f: (int, int), g: (int, int)) -> (m: int)
    requires
        f.1 > 0,
        g.1 > 0,
        coprime(f.0, f.1),
        f.0 * g.1 == g.0 * f.1,
    ensures
        g.1 == f.1 * m,
        m > 0,
{
    let (x, y) = lemma_coprime_combination(f.0, f.1);
    let m = g.0 * x + g.1 * y;
    assert(g.1 == f.1 * m) by (nonlinear_arith)
        requires
            f.0 * x + f.1 * y == 1,
            f.0 * g.1 == g.0 * f.1,
            m == g.0 * x + g.1 * y,
    ;
    assert(m > 0) by (nonlinear_arith)
        requires
            g.1 == f.1 * m,
            f.1 > 0,
            g.1 > 0,
    ;
    m
}

/// A rational has one representation in lowest terms with a positive
/// denominator.
pub proof fn lemma_lowest_terms_unique(f: (int, int), g: (int, int), numer: int, denom: int)
    requires
        denom != 0,
        is_lowest_terms_of(f, numer, denom),
        is_lowest_terms_of(g, numer, denom),
    ensures
        f == g,
{
    assert(f.0 * g.1 == g.0 * f.1) by (nonlinear_arith)
        requires
            denom != 0,
            f.0 * denom == numer * f.1,
            g.0 * denom == numer * g.1,
    {
        assert((f.0 * g.1) * denom == (numer * f.1) * g.1);
        assert((g.0 * f.1) * denom == (numer * g.1) * f.1);
    }
    let m = lemma_denominator_divides(f, g);
    let n = lemma_denominator_divides(g, f);
    assert(m == 1 && n == 1) by (nonlinear_arith)
        requires
            g.1 == f.1 * m,
            f.1 == g.1 * n,
            m > 0,
            n > 0,
            f.1 > 0,
    ;
    assert(f.1 == g.1) by (nonlinear_arith)
        requires
            g.1 == f.1 * m,
            m == 1,
    ;
    assert(f.0 == g.0) by (nonlinear_arith)
        requires
            f.0 * g.1 == g.0 * f.1,
            f.1 == g.1,
            f.1 > 0,
    ;
}

/// Fractions with equal parts are equal.
pub proof fn lemma_equal_parts(f: Fraction, g: Fraction)
    requires
        f@ == g@,
    ensures
        f == g,
{
}

} // verus!
