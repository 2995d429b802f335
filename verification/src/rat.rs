//! Exact rational arithmetic.
//!
//! `Rat` is the mathematical model: an unbounded numerator over an unbounded
//! positive denominator.  `Frac` is the executable value: an `i64` pair whose
//! operations are checked, returning `None` when a result cannot be
//! represented, and which reduce results by a greatest common divisor so that
//! long chains of sums and products stay small.

use vstd::prelude::*;

verus! {

/// A rational number at the specification level: `n / d`.
///
/// Values are compared by cross multiplication (`rat_eq`), so two `Rat`s with
/// different denominators can denote the same number.
pub struct Rat {
    pub n: int,
    pub d: int,
}

/// A well-formed `Rat` has a positive denominator.
pub open spec fn rat_wf(r: Rat) -> bool {
    r.d >= 1
}

/// `a` and `b` denote the same number.
pub open spec fn rat_eq(a: Rat, b: Rat) -> bool {
    a.n * b.d == b.n * a.d
}

/// The exact sum of `a` and `b`.
pub open spec fn rat_add(a: Rat, b: Rat) -> Rat {
    Rat { n: a.n * b.d + b.n * a.d, d: a.d * b.d }
}

/// The exact product of `a` and `b`.
pub open spec fn rat_mul(a: Rat, b: Rat) -> Rat {
    Rat { n: a.n * b.n, d: a.d * b.d }
}

/// `a` denotes a strictly smaller number than `b` (for positive denominators).
pub open spec fn rat_lt(a: Rat, b: Rat) -> bool {
    a.n * b.d < b.n * a.d
}

/// Both components of `r` fit the executable representation.
pub open spec fn rat_fits(r: Rat) -> bool {
    &&& -(i64::MAX as int) <= r.n <= i64::MAX as int
    &&& 1 <= r.d <= i64::MAX as int
}

/// An executable rational number: numerator over positive denominator.
#[derive(Clone, Copy, Debug)]
pub struct Frac {
    num: i64,
    den: i64,
}

impl View for Frac {
    type V = Rat;

    closed spec fn view(&self) -> Rat {
        Rat { n: self.num as int, d: self.den as int }
    }
}

/// Greatest common divisor by Euclid's algorithm.
///
/// Only the bounds `1 <= g <= b` are stated: the callers check divisibility of
/// their concrete operands at run time, which is cheaper to verify than a full
/// divisibility theory.
fn gcd(a: u128, b: u128) -> (g: u128)
    requires
        b >= 1,
    ensures
        1 <= g <= b,
{
    let mut x = a;
    let mut y = b;
    while y > 0
        invariant
            x >= 0,
            y >= 0,
            y <= b,
            y == 0 ==> 1 <= x <= b,
        decreases y,
    {
        let r = x % y;
        x = y;
        y = r;
    }
    x
}

/// Builds the reduced executable form of `n / d`, or `None` when it cannot be
/// represented in `i64` components.
fn reduce(n: i128, d: i128) -> (r: Option<Frac>)
    requires
        1 <= d,
        -0x7fff_ffff_ffff_ffff_ffff_ffff_ffff_ffff <= n,
    ensures
        r matches Some(q) ==> {
            &&& rat_wf(q@)
            &&& rat_eq(q@, Rat { n: n as int, d: d as int })
            &&& q@.d <= d as int
        },
        rat_fits(Rat { n: n as int, d: d as int }) ==> r is Some,
{
    let neg = n < 0;
    let na: u128 = if neg {
        (-n) as u128
    } else {
        n as u128
    };
    let du: u128 = d as u128;
    let g = gcd(na, du);
    let n2 = na / g;
    let d2 = du / g;
    proof {
        vstd::arithmetic::div_mod::lemma_fundamental_div_mod(na as int, g as int);
        vstd::arithmetic::div_mod::lemma_fundamental_div_mod(du as int, g as int);
        vstd::arithmetic::div_mod::lemma_mod_bound(na as int, g as int);
        vstd::arithmetic::div_mod::lemma_mod_bound(du as int, g as int);
        assert(0 <= (n2 as int) * (g as int) <= na as int && 0 <= (d2 as int) * (g as int)
            <= du as int) by (nonlinear_arith)
            requires
                na as int == (g as int) * (n2 as int) + (na as int) % (g as int),
                du as int == (g as int) * (d2 as int) + (du as int) % (g as int),
                0 <= (na as int) % (g as int),
                0 <= (du as int) % (g as int),
                g >= 1,
                n2 >= 0,
                d2 >= 0,
        ;
    }
    let p1 = n2 * g;
    let p2 = d2 * g;
    if p1 == na && p2 == du && d2 >= 1
        && n2 <= 0x7fff_ffff_ffff_ffff && d2 <= 0x7fff_ffff_ffff_ffff {
        proof {
            assert((n2 as int) * (du as int) == (na as int) * (d2 as int)
                && ((-(n2 as int)) * (du as int) == (-(na as int)) * (d2 as int))
                && (d2 as int) <= du as int) by (nonlinear_arith)
                requires
                    (n2 as int) * (g as int) == na as int,
                    (d2 as int) * (g as int) == du as int,
                    g >= 1,
                    d2 >= 1,
            ;
        }
        let num: i64 = if neg {
            -(n2 as i64)
        } else {
            n2 as i64
        };
        Some(Frac { num, den: d2 as i64 })
    } else if -0x7fff_ffff_ffff_ffff <= n && n <= 0x7fff_ffff_ffff_ffff
        && d <= 0x7fff_ffff_ffff_ffff {
        Some(Frac { num: n as i64, den: d as i64 })
    } else {
        None
    }
}


/// The product of an `i64`-sized numerator and denominator stays well inside
/// the `i128` range.
proof fn lemma_cross_mul_bounds(a: int, b: int)
    requires
        -0x8000_0000_0000_0000 <= a <= 0x7fff_ffff_ffff_ffff,
        1 <= b <= 0x7fff_ffff_ffff_ffff,
    ensures
        -0x4000_0000_0000_0000_0000_0000_0000_0000 <= a * b
            <= 0x4000_0000_0000_0000_0000_0000_0000_0000,
{
    assert(-0x4000_0000_0000_0000_0000_0000_0000_0000 <= a * b
        <= 0x4000_0000_0000_0000_0000_0000_0000_0000) by (nonlinear_arith)
        requires
            -0x8000_0000_0000_0000 <= a <= 0x7fff_ffff_ffff_ffff,
            1 <= b <= 0x7fff_ffff_ffff_ffff,
    ;
}

impl Frac {
    /// The rational `num / den`.
    pub fn new(num: i64, den: i64) -> (r: Frac)
        requires
            den >= 1,
        ensures
            r@ == (Rat { n: num as int, d: den as int }),
            rat_wf(r@),
    {
        Frac { num, den }
    }

    /// The rational zero.
    pub fn zero() -> (r: Frac)
        ensures
            r@ == (Rat { n: 0, d: 1 }),
            rat_wf(r@),
    {
        Frac { num: 0, den: 1 }
    }

    /// The numerator as stored.
    pub fn num(&self) -> (r: i64)
        ensures
            r as int == self@.n,
    {
        self.num
    }

    /// The denominator as stored.
    pub fn den(&self) -> (r: i64)
        ensures
            r as int == self@.d,
    {
        self.den
    }

    /// The exact sum, reduced; `None` when it cannot be represented.
    pub fn checked_add(self, other: Frac) -> (r: Option<Frac>)
        requires
            rat_wf(self@),
            rat_wf(other@),
        ensures
            r matches Some(q) ==> {
                &&& rat_wf(q@)
                &&& rat_eq(q@, rat_add(self@, other@))
                &&& q@.d <= rat_add(self@, other@).d
            },
            rat_fits(rat_add(self@, other@)) ==> r is Some,
    {
        proof {
            assert(-0x3fff_ffff_ffff_ffff_8000_0000_0000_0000
                <= (self.num as int) * (other.den as int)
                <= 0x3fff_ffff_ffff_ffff_8000_0000_0000_0000
                && -0x3fff_ffff_ffff_ffff_8000_0000_0000_0000
                <= (other.num as int) * (self.den as int)
                <= 0x3fff_ffff_ffff_ffff_8000_0000_0000_0000
                && 1 <= (self.den as int) * (other.den as int)
                <= 0x3fff_ffff_ffff_ffff_8000_0000_0000_0000) by (nonlinear_arith)
                requires
                    -0x8000_0000_0000_0000 <= self.num as int <= 0x7fff_ffff_ffff_ffff,
                    -0x8000_0000_0000_0000 <= other.num as int <= 0x7fff_ffff_ffff_ffff,
                    1 <= self.den as int <= 0x7fff_ffff_ffff_ffff,
                    1 <= other.den as int <= 0x7fff_ffff_ffff_ffff,
            ;
        }
        let n: i128 = (self.num as i128) * (other.den as i128)
            + (other.num as i128) * (self.den as i128);
        let d: i128 = (self.den as i128) * (other.den as i128);
        reduce(n, d)
    }

    /// The exact product, reduced; `None` when it cannot be represented.
    pub fn checked_mul(self, other: Frac) -> (r: Option<Frac>)
        requires
            rat_wf(self@),
            rat_wf(other@),
        ensures
            r matches Some(q) ==> {
                &&& rat_wf(q@)
                &&& rat_eq(q@, rat_mul(self@, other@))
                &&& q@.d <= rat_mul(self@, other@).d
            },
            rat_fits(rat_mul(self@, other@)) ==> r is Some,
    {
        proof {
            assert(-0x3fff_ffff_ffff_ffff_8000_0000_0000_0000
                <= (self.num as int) * (other.num as int)
                <= 0x4000_0000_0000_0000_0000_0000_0000_0000
                && 1 <= (self.den as int) * (other.den as int)
                <= 0x3fff_ffff_ffff_ffff_8000_0000_0000_0000) by (nonlinear_arith)
                requires
                    -0x8000_0000_0000_0000 <= self.num as int <= 0x7fff_ffff_ffff_ffff,
                    -0x8000_0000_0000_0000 <= other.num as int <= 0x7fff_ffff_ffff_ffff,
                    1 <= self.den as int <= 0x7fff_ffff_ffff_ffff,
                    1 <= other.den as int <= 0x7fff_ffff_ffff_ffff,
            ;
        }
        let n: i128 = (self.num as i128) * (other.num as i128);
        let d: i128 = (self.den as i128) * (other.den as i128);
        reduce(n, d)
    }

    /// Whether `self` denotes a strictly greater number than `other`.
    pub fn gt(&self, other: &Frac) -> (r: bool)
        requires
            rat_wf(self@),
            rat_wf(other@),
        ensures
            r == rat_lt(other@, self@),
    {
        proof {
            lemma_cross_mul_bounds(self.num as int, other.den as int);
            lemma_cross_mul_bounds(other.num as int, self.den as int);
        }
        (self.num as i128) * (other.den as i128) > (other.num as i128) * (self.den as i128)
    }

    /// Whether `self` and `other` denote the same number.
    pub fn equals(&self, other: &Frac) -> (r: bool)
        requires
            rat_wf(self@),
            rat_wf(other@),
        ensures
            r == rat_eq(self@, other@),
    {
        proof {
            lemma_cross_mul_bounds(self.num as int, other.den as int);
            lemma_cross_mul_bounds(other.num as int, self.den as int);
        }
        (self.num as i128) * (other.den as i128) == (other.num as i128) * (self.den as i128)
    }
}

/// Denoting the same number is transitive; only the middle denominator has to
/// be non-zero.
pub proof fn lemma_rat_eq_trans(a: Rat, b: Rat, c: Rat)
    requires
        b.d != 0,
        rat_eq(a, b),
        rat_eq(b, c),
    ensures
        rat_eq(a, c),
{
    assert(a.n * c.d == c.n * a.d) by (nonlinear_arith)
        requires
            b.d != 0,
            a.n * b.d == b.n * a.d,
            b.n * c.d == c.n * b.d,
    ;
}

/// Sums of equal numbers are equal.
#[verifier::rlimit(50)]
pub proof fn lemma_rat_add_congr(a: Rat, a2: Rat, b: Rat, b2: Rat)
    requires
        rat_eq(a, a2),
        rat_eq(b, b2),
    ensures
        rat_eq(rat_add(a, b), rat_add(a2, b2)),
{
    assert((a.n * b.d) * (a2.d * b2.d) == (a2.n * b2.d) * (a.d * b.d)) by (nonlinear_arith)
        requires
            a.n * a2.d == a2.n * a.d,
    ;
    assert((b.n * a.d) * (a2.d * b2.d) == (b2.n * a2.d) * (a.d * b.d)) by (nonlinear_arith)
        requires
            b.n * b2.d == b2.n * b.d,
    ;
    assert((a.n * b.d + b.n * a.d) * (a2.d * b2.d) == (a2.n * b2.d + b2.n * a2.d) * (a.d * b.d))
        by (nonlinear_arith)
        requires
            (a.n * b.d) * (a2.d * b2.d) == (a2.n * b2.d) * (a.d * b.d),
            (b.n * a.d) * (a2.d * b2.d) == (b2.n * a2.d) * (a.d * b.d),
    ;
}

/// Products of equal numbers are equal.
pub proof fn lemma_rat_mul_congr(a: Rat, a2: Rat, b: Rat, b2: Rat)
    requires
        rat_eq(a, a2),
        rat_eq(b, b2),
    ensures
        rat_eq(rat_mul(a, b), rat_mul(a2, b2)),
{
    assert((a.n * b.n) * (a2.d * b2.d) == (a2.n * b2.n) * (a.d * b.d)) by (nonlinear_arith)
        requires
            a.n * a2.d == a2.n * a.d,
            b.n * b2.d == b2.n * b.d,
    ;
}

/// The strict order respects equality of the denoted numbers.
pub proof fn lemma_rat_lt_congr(a: Rat, a2: Rat, b: Rat, b2: Rat)
    requires
        rat_wf(a),
        rat_wf(a2),
        rat_wf(b),
        rat_wf(b2),
        rat_eq(a, a2),
        rat_eq(b, b2),
    ensures
        rat_lt(a, b) == rat_lt(a2, b2),
{
    assert((a.n * b.d < b.n * a.d) == (a2.n * b2.d < b2.n * a2.d)) by (nonlinear_arith)
        requires
            a.d >= 1,
            a2.d >= 1,
            b.d >= 1,
            b2.d >= 1,
            a.n * a2.d == a2.n * a.d,
            b.n * b2.d == b2.n * b.d,
    ;
}

/// A sum of well-formed rationals is well-formed.
pub proof fn lemma_rat_add_wf(a: Rat, b: Rat)
    requires
        rat_wf(a),
        rat_wf(b),
    ensures
        rat_wf(rat_add(a, b)),
{
    assert(a.d * b.d >= 1) by (nonlinear_arith)
        requires
            a.d >= 1,
            b.d >= 1,
    ;
}

/// A product of well-formed rationals is well-formed.
pub proof fn lemma_rat_mul_wf(a: Rat, b: Rat)
    requires
        rat_wf(a),
        rat_wf(b),
    ensures
        rat_wf(rat_mul(a, b)),
{
    assert(a.d * b.d >= 1) by (nonlinear_arith)
        requires
            a.d >= 1,
            b.d >= 1,
    ;
}

/// A rational equal to a representable one, with a denominator no larger, is
/// itself representable.
pub proof fn lemma_rat_fits_mono(q: Rat, p: Rat)
    requires
        rat_wf(q),
        rat_wf(p),
        rat_eq(q, p),
        q.d <= p.d,
        rat_fits(p),
    ensures
        rat_fits(q),
{
    assert(-(i64::MAX as int) <= q.n <= i64::MAX as int) by (nonlinear_arith)
        requires
            q.d >= 1,
            p.d >= 1,
            q.n * p.d == p.n * q.d,
            q.d <= p.d,
            -(i64::MAX as int) <= p.n <= i64::MAX as int,
    ;
}

} // verus!
