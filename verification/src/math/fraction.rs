use vstd::prelude::*;

verus! {

/// a rational number `n / d`
#[derive(Clone, Copy, PartialEq, Eq, Structural, Debug)]
pub struct Fraction {
    pub n: i32,
    pub d: i32,
}

/// greatest common divisor (Euclid)
pub open spec fn spec_gcd(a: nat, b: nat) -> nat
    decreases b,
{
    if b == 0 {
        a
    } else {
        spec_gcd(b, a % b)
    }
}

pub open spec fn abs(x: int) -> nat {
    if x < 0 {
        (-x) as nat
    } else {
        x as nat
    }
}

/// the canonical form of a fraction: zero is always `0/1`; otherwise both
/// parts are divided by their gcd and the sign is carried by the numerator
pub open spec fn spec_simplify(f: Fraction) -> Fraction {
    if f.n == 0 {
        Fraction { n: 0, d: 1 }
    } else {
        let g = spec_gcd(abs(f.n as int), abs(f.d as int));
        let magnitude = abs(f.n as int) / g;
        let negative = (f.n < 0) != (f.d < 0);
        Fraction {
            n: (if negative { -magnitude } else { magnitude as int }) as i32,
            d: (abs(f.d as int) / g) as i32,
        }
    }
}

/// the fraction a `Fraction` literally holds may be simplified
pub open spec fn simplifiable(f: Fraction) -> bool {
    f.d != 0 && f.n != i32::MIN && f.d != i32::MIN
}

/// the unsimplified product of two fractions fits in an `i32` fraction
pub open spec fn product_fits(a: Fraction, b: Fraction) -> bool {
    &&& i32::MIN < a.n * b.n <= i32::MAX
    &&& i32::MIN < a.d * b.d <= i32::MAX
    &&& a.d != 0
    &&& b.d != 0
}

/// the product of two fractions, simplified
pub open spec fn spec_mul(a: Fraction, b: Fraction) -> Fraction {
    spec_simplify(Fraction { n: (a.n * b.n) as i32, d: (a.d * b.d) as i32 })
}

proof fn lemma_gcd_divides(a: nat, b: nat)
    ensures
        spec_gcd(a, b) == 0 <==> (a == 0 && b == 0),
        spec_gcd(a, b) > 0 ==> a % spec_gcd(a, b) == 0 && b % spec_gcd(a, b) == 0,
        spec_gcd(a, b) <= a || a == 0,
    decreases b,
{
    if b == 0 {
    } else {
        lemma_gcd_divides(b, a % b);
        let g = spec_gcd(b, a % b);
        assert(g > 0);
        assert(b % g == 0);
        assert((a % b) % g == 0);
        vstd::arithmetic::div_mod::lemma_fundamental_div_mod(a as int, b as int);
        assert(a == b * (a / b) + a % b);
        let k = b / g;
        let m = (a % b) / g;
        vstd::arithmetic::div_mod::lemma_fundamental_div_mod(b as int, g as int);
        vstd::arithmetic::div_mod::lemma_fundamental_div_mod((a % b) as int, g as int);
        assert(a == g * (k * (a / b) + m)) by (nonlinear_arith)
            requires
                a == b * (a / b) + a % b,
                b == g * k + 0,
                a % b == g * m + 0,
        ;
        vstd::arithmetic::div_mod::lemma_mod_multiples_basic((k * (a / b) + m) as int, g as int);
        assert((g * (k * (a / b) + m)) % g == 0) by (nonlinear_arith)
            requires
                ((k * (a / b) + m) * g) % g == 0,
        ;
        if a != 0 {
            assert(g <= a) by (nonlinear_arith)
                requires
                    a == g * (k * (a / b) + m),
                    a > 0,
                    g > 0,
            ;
        }
    }
}

/// greatest common divisor of two magnitudes
fn gcd(a: u32, b: u32) -> (g: u32)
    ensures
        g == spec_gcd(a as nat, b as nat),
    decreases b,
{
    if b == 0 {
        a
    } else {
        gcd(b, a % b)
    }
}

fn magnitude(x: i32) -> (m: u32)
    requires
        x != i32::MIN,
    ensures
        m == abs(x as int),
{
    if x < 0 {
        (-x) as u32
    } else {
        x as u32
    }
}

impl Fraction {
    /// an integer as a fraction over 1
    pub fn from_int(n: i32) -> (f: Fraction)
        ensures
            f == (Fraction { n: n, d: 1 }),
    {
        Fraction { n, d: 1 }
    }

    /// the fraction `n / d`, simplified
    pub fn from_pair(pair: (i32, i32)) -> (f: Fraction)
        requires
            simplifiable(Fraction { n: pair.0, d: pair.1 }),
        ensures
            f == spec_simplify(Fraction { n: pair.0, d: pair.1 }),
    {
        Fraction { n: pair.0, d: pair.1 }.simplify()
    }

    /// reduces to the canonical form (see `spec_simplify`); in particular a
    /// zero numerator always comes back with denominator 1
    pub fn simplify(&self) -> (f: Fraction)
        requires
            simplifiable(*self),
        ensures
            f == spec_simplify(*self),
    {
        if self.n == 0 {
            return Fraction { n: 0, d: 1 };
        }
        let a = magnitude(self.n);
        let b = magnitude(self.d);
        let g = gcd(a, b);
        proof {
            lemma_gcd_divides(a as nat, b as nat);
        }
        let q: u32 = a / g;
        let negative = (self.n < 0) != (self.d < 0);
        let n: i32 = if negative {
            -(q as i32)
        } else {
            q as i32
        };
        Fraction { n, d: (b / g) as i32 }
    }

    /// the product of two fractions, simplified
    pub fn mul(self, rhs: Fraction) -> (f: Fraction)
        requires
            product_fits(self, rhs),
        ensures
            f == spec_mul(self, rhs),
    {
        proof {
            assert(self.d * rhs.d != 0) by (nonlinear_arith)
                requires
                    self.d != 0,
                    rhs.d != 0,
            ;
        }
        Fraction { n: self.n * rhs.n, d: self.d * rhs.d }.simplify()
    }
}

/// Simplifying keeps the value of a fraction and leaves a positive denominator.
pub proof fn lemma_simplify_keeps_value(f: Fraction)
    requires
        simplifiable(f),
    ensures
        spec_simplify(f).n * f.d == f.n * spec_simplify(f).d,
        spec_simplify(f).d > 0,
{
    if f.n != 0 {
        let a = abs(f.n as int);
        let b = abs(f.d as int);
        lemma_gcd_divides(a, b);
        let g = spec_gcd(a, b);
        let r = spec_simplify(f);
        vstd::arithmetic::div_mod::lemma_fundamental_div_mod(a as int, g as int);
        vstd::arithmetic::div_mod::lemma_fundamental_div_mod(b as int, g as int);
        let p = a / g;
        let q = b / g;
        assert(a == g * p);
        assert(b == g * q);
        assert(q > 0) by (nonlinear_arith)
            requires
                b == g * q,
                b > 0,
                g > 0,
        ;
        assert(r.d == q);
        if (f.n < 0) != (f.d < 0) {
            assert(r.n == -p);
        } else {
            assert(r.n == p);
        }
        assert(r.n * f.d == f.n * r.d) by (nonlinear_arith)
            requires
                a == g * p,
                b == g * q,
                g > 0,
                a == abs(f.n as int),
                b == abs(f.d as int),
                r.d == q,
                (f.n < 0) != (f.d < 0) ==> r.n == -p,
                (f.n < 0) == (f.d < 0) ==> r.n == p,
        ;
    }
}

/// Zero always simplifies to the canonical `0/1`.
pub proof fn lemma_simplify_zero(f: Fraction)
    requires
        f.n == 0,
    ensures
        spec_simplify(f) == (Fraction { n: 0, d: 1 }),
{
}

/// Multiplying gives a fraction with the value of the product and a positive
/// denominator, and a zero product is always the canonical `0/1`.
pub proof fn lemma_mul_is_the_product(a: Fraction, b: Fraction)
    requires
        product_fits(a, b),
    ensures
        spec_mul(a, b).n * (a.d * b.d) == (a.n * b.n) * spec_mul(a, b).d,
        spec_mul(a, b).d > 0,
        a.n == 0 || b.n == 0 ==> spec_mul(a, b) == (Fraction { n: 0, d: 1 }),
{
    assert(a.d * b.d != 0) by (nonlinear_arith)
        requires
            a.d != 0,
            b.d != 0,
    ;
    let p = Fraction { n: (a.n * b.n) as i32, d: (a.d * b.d) as i32 };
    lemma_simplify_keeps_value(p);
    if a.n == 0 || b.n == 0 {
        assert(a.n * b.n == 0) by (nonlinear_arith)
            requires
                a.n == 0 || b.n == 0,
        ;
        lemma_simplify_zero(p);
    }
}

} // verus!
