//! Exact fractions of bounded size. A fraction is a numerator over a denominator;
//! two fractions are the same number when their cross products agree. Sums, products
//! and quotients are exact, and are refused when they do not fit.
use vstd::prelude::*;

verus! {

/// The fraction `num / den`. It stands for a number where `den` is positive.
#[derive(Clone, Copy, Debug, PartialEq, Eq, Structural)]
pub struct Ratio {
    pub num: i64,
    pub den: u32,
}

/// The fraction `num / den` where both parts fit.
pub open spec fn narrowed(num: int, den: int) -> Option<Ratio> {
    if i64::MIN <= num <= i64::MAX && 0 <= den <= u32::MAX {
        Some(Ratio { num: num as i64, den: den as u32 })
    } else {
        None
    }
}

impl Ratio {
    /// The denominator is positive.
    pub open spec fn wf(self) -> bool {
        self.den >= 1
    }

    /// Both fractions are the same number.
    pub open spec fn same(self, other: Ratio) -> bool {
        self.num * other.den == other.num * self.den
    }

    /// The sum: over the common denominator where the two agree, else over the
    /// product of the denominators.
    pub open spec fn plus(self, other: Ratio) -> Option<Ratio> {
        if self.den == other.den {
            narrowed(self.num + other.num, self.den as int)
        } else {
            narrowed(self.num * other.den + other.num * self.den, self.den * other.den)
        }
    }

    /// The product with a whole number.
    pub open spec fn times(self, factor: int) -> Option<Ratio> {
        narrowed(self.num * factor, self.den as int)
    }

    /// The quotient by a whole number.
    pub open spec fn over(self, divisor: int) -> Option<Ratio> {
        narrowed(self.num as int, self.den * divisor)
    }

    /// The whole number `n`.
    pub fn whole(n: i64) -> (r: Ratio)
        ensures
            r == (Ratio { num: n, den: 1 }),
    {
        Ratio { num: n, den: 1 }
    }

    /// Whether both fractions are the same number.
    pub fn equals(&self, other: &Ratio) -> (same: bool)
        ensures
            same == self.same(*other),
    {
        let a: i128 = self.num as i128;
        let b: i128 = other.den as i128;
        let c: i128 = other.num as i128;
        let d: i128 = self.den as i128;
        assert(-0x8000_0000_0000_0000_0000_0000 <= a * b <= 0x8000_0000_0000_0000_0000_0000)
            by (nonlinear_arith)
            requires
                -0x8000_0000_0000_0000 <= a <= 0x8000_0000_0000_0000,
                0 <= b <= 0x1_0000_0000,
        ;
        assert(-0x8000_0000_0000_0000_0000_0000 <= c * d <= 0x8000_0000_0000_0000_0000_0000)
            by (nonlinear_arith)
            requires
                -0x8000_0000_0000_0000 <= c <= 0x8000_0000_0000_0000,
                0 <= d <= 0x1_0000_0000,
        ;
        a * b == c * d
    }

    /// The sum of both fractions, unless it does not fit.
    pub fn checked_add(&self, other: &Ratio) -> (sum: Option<Ratio>)
        ensures
            sum == self.plus(*other),
    {
        if self.den == other.den {
            let n: i128 = self.num as i128 + other.num as i128;
            narrow(n, self.den as u128)
        } else {
            let a: i128 = self.num as i128;
            let b: i128 = other.den as i128;
            let c: i128 = other.num as i128;
            let d: i128 = self.den as i128;
            assert(-0x8000_0000_0000_0000_0000_0000 <= a * b <= 0x8000_0000_0000_0000_0000_0000)
                by (nonlinear_arith)
                requires
                    -0x8000_0000_0000_0000 <= a <= 0x8000_0000_0000_0000,
                    0 <= b <= 0x1_0000_0000,
            ;
            assert(-0x8000_0000_0000_0000_0000_0000 <= c * d <= 0x8000_0000_0000_0000_0000_0000)
                by (nonlinear_arith)
                requires
                    -0x8000_0000_0000_0000 <= c <= 0x8000_0000_0000_0000,
                    0 <= d <= 0x1_0000_0000,
            ;
            let x: u128 = self.den as u128;
            let y: u128 = other.den as u128;
            assert(0 <= x * y <= 0x1_0000_0000_0000_0000) by (nonlinear_arith)
                requires
                    0 <= x <= 0x1_0000_0000,
                    0 <= y <= 0x1_0000_0000,
            ;
            narrow(a * b + c * d, x * y)
        }
    }

    /// The product with `factor`, unless it does not fit.
    pub fn checked_scale(&self, factor: u64) -> (product: Option<Ratio>)
        ensures
            product == self.times(factor as int),
    {
        let a: i128 = self.num as i128;
        let k: i128 = factor as i128;
        assert(-0x8000_0000_0000_0000_0000_0000_0000_0000 <= a * k
            <= 0x7fff_ffff_ffff_ffff_0000_0000_0000_0000) by (nonlinear_arith)
            requires
                -0x8000_0000_0000_0000 <= a <= 0x7fff_ffff_ffff_ffff,
                0 <= k <= 0x1_0000_0000_0000_0000,
        ;
        narrow(a * k, self.den as u128)
    }

    /// The quotient by `divisor`, unless it does not fit.
    pub fn checked_div(&self, divisor: u64) -> (quotient: Option<Ratio>)
        ensures
            quotient == self.over(divisor as int),
    {
        let d: u128 = self.den as u128;
        let k: u128 = divisor as u128;
        assert(0 <= d * k <= 0x1_0000_0000_0000_0000_0000_0000) by (nonlinear_arith)
            requires
                0 <= d <= 0x1_0000_0000,
                0 <= k <= 0x1_0000_0000_0000_0000,
        ;
        narrow(self.num as i128, d * k)
    }
}

/// The fraction `num / den` where both parts fit.
fn narrow(num: i128, den: u128) -> (r: Option<Ratio>)
    ensures
        r == narrowed(num as int, den as int),
{
    if num < -0x8000_0000_0000_0000 || num > 0x7fff_ffff_ffff_ffff || den > 0xffff_ffff {
        None
    } else {
        Some(Ratio { num: num as i64, den: den as u32 })
    }
}

/// A fraction is the same number as itself.
pub proof fn lemma_same_reflexive(a: Ratio)
    ensures
        a.same(a),
{
}

/// Being the same number does not depend on the side.
pub proof fn lemma_same_symmetric(a: Ratio, b: Ratio)
    requires
        a.same(b),
    ensures
        b.same(a),
{
}

/// Two fractions that are the same number as a third are the same number.
pub proof fn lemma_same_transitive(a: Ratio, b: Ratio, c: Ratio)
    requires
        b.wf(),
        a.same(b),
        b.same(c),
    ensures
        a.same(c),
{
    let (an, ad) = (a.num as int, a.den as int);
    let (bn, bd) = (b.num as int, b.den as int);
    let (cn, cd) = (c.num as int, c.den as int);
    assert(an * cd * bd == cn * ad * bd) by (nonlinear_arith)
        requires
            an * bd == bn * ad,
            bn * cd == cn * bd,
    ;
    assert(an * cd == cn * ad) by (nonlinear_arith)
        requires
            an * cd * bd == cn * ad * bd,
            bd >= 1,
    ;
}

/// A sum of well-formed fractions is well formed.
pub proof fn lemma_plus_wf(a: Ratio, b: Ratio)
    requires
        a.wf(),
        b.wf(),
        a.plus(b) is Some,
    ensures
        a.plus(b)->Some_0.wf(),
{
    let (ad, bd) = (a.den as int, b.den as int);
    assert(ad * bd >= 1) by (nonlinear_arith)
        requires
            ad >= 1,
            bd >= 1,
    ;
}

} // verus!
