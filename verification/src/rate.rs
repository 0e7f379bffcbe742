//! Exact rational frequencies, and the base a register composes in.
//!
//! A rate is held as a reduced fraction of hertz. The Programmable Interval
//! Timer runs at `105/88` MHz, which is `13125000/11` Hz, and no integer count
//! of hertz represents it, so nothing here rounds.
use vstd::prelude::*;
use vstd::arithmetic::div_mod::*;
use vstd::arithmetic::mul::*;
use crate::Count;

verus! {

/// The greatest common divisor, by Euclid.
pub open spec fn spec_gcd(a: nat, b: nat) -> nat
    decreases b,
{
    if b == 0 {
        a
    } else {
        spec_gcd(b, a % b)
    }
}

/// Whether `d` divides `n`.
pub open spec fn divides(d: nat, n: nat) -> bool {
    d > 0 && n % d == 0
}

/// The least common multiple of two positive numbers.
pub open spec fn spec_lcm(a: nat, b: nat) -> nat {
    (a / spec_gcd(a, b)) * b
}

/// The gcd of two numbers, not both zero, is positive.
pub proof fn lemma_gcd_positive(a: nat, b: nat)
    requires
        a > 0 || b > 0,
    ensures
        spec_gcd(a, b) > 0,
    decreases b,
{
    if b != 0 {
        lemma_gcd_positive(b, a % b);
    }
}

/// The gcd divides both of its arguments.
pub proof fn lemma_gcd_divides(a: nat, b: nat)
    requires
        a > 0 || b > 0,
    ensures
        divides(spec_gcd(a, b), a),
        divides(spec_gcd(a, b), b),
    decreases b,
{
    lemma_gcd_positive(a, b);
    if b == 0 {
        lemma_mod_self_0(a as int);
        lemma_small_mod(0, a);
    } else {
        lemma_gcd_divides(b, a % b);
        let g = spec_gcd(a, b);
        let q = a / b;
        let r = a % b;
        lemma_fundamental_div_mod(a as int, b as int);
        // a == b * q + r, and g divides both b and r.
        lemma_fundamental_div_mod(b as int, g as int);
        lemma_fundamental_div_mod(r as int, g as int);
        let kb = b / g;
        let kr = r / g;
        assert(a == g * (kb * q + kr)) by (nonlinear_arith)
            requires
                a == b * q + r,
                b == g * kb,
                r == g * kr,
        ;
        lemma_mod_multiples_basic((kb * q + kr) as int, g as int);
        lemma_mul_is_commutative(g as int, (kb * q + kr) as int);
    }
}

/// Every common divisor of `a` and `b` divides their gcd.
pub proof fn lemma_common_divisor_divides_gcd(a: nat, b: nat, d: nat)
    requires
        divides(d, a),
        divides(d, b),
    ensures
        spec_gcd(a, b) % d == 0,
    decreases b,
{
    if b != 0 {
        let q = a / b;
        let r = a % b;
        lemma_fundamental_div_mod(a as int, b as int);
        lemma_fundamental_div_mod(a as int, d as int);
        lemma_fundamental_div_mod(b as int, d as int);
        let ka = a / d;
        let kb = b / d;
        assert(r == d * (ka - kb * q)) by (nonlinear_arith)
            requires
                a == b * q + r,
                a == d * ka,
                b == d * kb,
        ;
        assert(ka - kb * q >= 0) by (nonlinear_arith)
            requires
                r == d * (ka - kb * q),
                r >= 0,
                d > 0,
        ;
        lemma_mod_multiples_basic(ka - kb * q, d as int);
        lemma_mul_is_commutative(d as int, ka - kb * q);
        lemma_common_divisor_divides_gcd(b, r, d);
    }
}

/// The gcd is the greatest of the common divisors.
pub proof fn lemma_gcd_is_greatest(a: nat, b: nat, d: nat)
    requires
        a > 0 || b > 0,
        divides(d, a),
        divides(d, b),
    ensures
        d <= spec_gcd(a, b),
{
    lemma_common_divisor_divides_gcd(a, b, d);
    lemma_gcd_positive(a, b);
    lemma_multiple_at_least(spec_gcd(a, b), d);
}

/// A positive multiple of `d` is at least `d`.
proof fn lemma_multiple_at_least(n: nat, d: nat)
    requires
        n > 0,
        d > 0,
        n % d == 0,
    ensures
        d <= n,
{
    lemma_fundamental_div_mod(n as int, d as int);
    let k = n / d;
    assert(k >= 1) by (nonlinear_arith)
        requires
            n == d * k + n % d,
            n % d == 0,
            n > 0,
            k >= 0,
    ;
    assert(d * 1 <= d * k) by (nonlinear_arith)
        requires
            k >= 1,
            d > 0,
    ;
}

/// Dividing both sides of a pair by their gcd leaves a coprime pair with the
/// same ratio.
pub proof fn lemma_reduce(a: nat, b: nat)
    requires
        a > 0,
        b > 0,
    ensures
        spec_gcd(a, b) > 0,
        a / spec_gcd(a, b) > 0,
        b / spec_gcd(a, b) > 0,
        spec_gcd(a / spec_gcd(a, b), b / spec_gcd(a, b)) == 1,
        (a / spec_gcd(a, b)) * b == (b / spec_gcd(a, b)) * a,
{
    let g = spec_gcd(a, b);
    lemma_gcd_divides(a, b);
    lemma_fundamental_div_mod(a as int, g as int);
    lemma_fundamental_div_mod(b as int, g as int);
    let x = a / g;
    let y = b / g;
    assert(x > 0 && y > 0) by (nonlinear_arith)
        requires
            a == g * x,
            b == g * y,
            a > 0,
            b > 0,
            x >= 0,
            y >= 0,
    ;
    assert(x * b == y * a) by (nonlinear_arith)
        requires
            a == g * x,
            b == g * y,
    ;
    let h = spec_gcd(x, y);
    lemma_gcd_divides(x, y);
    lemma_gcd_positive(x, y);
    // h * g divides both a and b, so it divides g, so h * g <= g and h == 1.
    lemma_fundamental_div_mod(x as int, h as int);
    lemma_fundamental_div_mod(y as int, h as int);
    let hx = x / h;
    let hy = y / h;
    assert(a == (h * g) * hx && b == (h * g) * hy) by (nonlinear_arith)
        requires
            a == g * x,
            b == g * y,
            x == h * hx,
            y == h * hy,
    ;
    assert(h * g > 0) by (nonlinear_arith)
        requires
            h > 0,
            g > 0,
    ;
    lemma_mod_multiples_basic(hx as int, (h * g) as int);
    lemma_mod_multiples_basic(hy as int, (h * g) as int);
    lemma_mul_is_commutative((h * g) as int, hx as int);
    lemma_mul_is_commutative((h * g) as int, hy as int);
    lemma_gcd_is_greatest(a, b, h * g);
    assert(h == 1) by (nonlinear_arith)
        requires
            h * g <= g,
            h > 0,
            g > 0,
    ;
}

/// The gcd of `a` and `b`, computed.
pub fn gcd(a: Count, b: Count) -> (r: Count)
    ensures
        r == spec_gcd(a as nat, b as nat),
{
    let mut x = a;
    let mut y = b;
    while y != 0
        invariant
            spec_gcd(x as nat, y as nat) == spec_gcd(a as nat, b as nat),
        decreases y,
    {
        let t = y;
        y = x % y;
        x = t;
    }
    x
}

/// The lcm is a common multiple of its two positive arguments.
pub proof fn lemma_lcm_common_multiple(a: nat, b: nat)
    requires
        a > 0,
        b > 0,
    ensures
        spec_lcm(a, b) % a == 0,
        spec_lcm(a, b) % b == 0,
        spec_lcm(a, b) >= a,
        spec_lcm(a, b) >= b,
{
    let g = spec_gcd(a, b);
    lemma_gcd_divides(a, b);
    lemma_fundamental_div_mod(a as int, g as int);
    lemma_fundamental_div_mod(b as int, g as int);
    let x = a / g;
    let y = b / g;
    assert(x * b == a * y) by (nonlinear_arith)
        requires
            a == g * x,
            b == g * y,
    ;
    assert(x >= 1 && y >= 1) by (nonlinear_arith)
        requires
            a == g * x,
            b == g * y,
            a > 0,
            b > 0,
            x >= 0,
            y >= 0,
    ;
    lemma_mod_multiples_basic(x as int, b as int);
    lemma_mod_multiples_basic(y as int, a as int);
    lemma_mul_is_commutative(a as int, y as int);
    assert(x * b >= b) by (nonlinear_arith)
        requires
            x >= 1,
            b > 0,
    ;
    assert(a * y >= a) by (nonlinear_arith)
        requires
            y >= 1,
            a > 0,
    ;
}

/// The least common multiple, or `None` on overflow.
pub fn lcm(a: Count, b: Count) -> (r: Option<Count>)
    ensures
        r is Some <==> a > 0 && b > 0 && spec_lcm(a as nat, b as nat) <= Count::MAX,
        r matches Some(m) ==> m == spec_lcm(a as nat, b as nat),
{
    if a == 0 || b == 0 {
        return None;
    }
    let g = gcd(a, b);
    proof {
        lemma_gcd_positive(a as nat, b as nat);
    }
    (a / g).checked_mul(b)
}

/// A frequency in hertz, as a reduced fraction.
#[derive(Clone, Copy, PartialEq, Eq, Structural, Debug, Hash)]
pub struct Rate {
    num: Count,
    den: Count,
}

impl Rate {
    /// The numerator, in hertz.
    pub closed spec fn spec_num(self) -> Count {
        self.num
    }

    /// The denominator.
    pub closed spec fn spec_den(self) -> Count {
        self.den
    }

    /// The reduced rate `n / d`, for positive `n` and `d`.
    pub closed spec fn reduced_of(n: nat, d: nat) -> Rate {
        Rate {
            num: (n / spec_gcd(n, d)) as Count,
            den: (d / spec_gcd(n, d)) as Count,
        }
    }

    /// The parts of a reduced rate are the parts divided by their gcd.
    pub broadcast proof fn lemma_reduced_of(n: nat, d: nat)
        ensures
            #[trigger] Rate::reduced_of(n, d).spec_num() == (n / spec_gcd(n, d)) as Count,
            Rate::reduced_of(n, d).spec_den() == (d / spec_gcd(n, d)) as Count,
    {
    }

    /// The exact product of two rates, reduced, where both parts fit.
    pub open spec fn spec_mul(self, factor: Rate) -> Option<Rate> {
        let g1 = spec_gcd(self.num() as nat, factor.den() as nat);
        let g2 = spec_gcd(factor.num() as nat, self.den() as nat);
        let n = ((self.num() as nat) / g1) * ((factor.num() as nat) / g2);
        let m = ((self.den() as nat) / g2) * ((factor.den() as nat) / g1);
        if n <= Count::MAX && m <= Count::MAX {
            Some(Rate::reduced_of(n, m))
        } else {
            None
        }
    }

    #[verifier::type_invariant]
    spec fn reduced(self) -> bool {
        &&& self.num > 0
        &&& self.den > 0
        &&& spec_gcd(self.num as nat, self.den as nat) == 1
    }

    /// A frequency of `num / den` hertz, reduced. `None` if either part is zero.
    pub fn new(num: Count, den: Count) -> (r: Option<Self>)
        ensures
            r is Some <==> num > 0 && den > 0,
            r matches Some(q) ==> q == Rate::reduced_of(num as nat, den as nat),
            r matches Some(q) ==> {
                &&& q.num() == (num as nat) / spec_gcd(num as nat, den as nat)
                &&& q.den() == (den as nat) / spec_gcd(num as nat, den as nat)
                &&& q.num() > 0 && q.den() > 0
                &&& spec_gcd(q.num() as nat, q.den() as nat) == 1
                &&& q.num() * den == q.den() * num
            },
    {
        if num == 0 || den == 0 {
            return None;
        }
        let g = gcd(num, den);
        proof {
            lemma_reduce(num as nat, den as nat);
        }
        Some(Self { num: num / g, den: den / g })
    }

    /// A whole number of hertz.
    pub fn hz(hz: Count) -> (r: Option<Self>)
        ensures
            r is Some <==> hz > 0,
            r matches Some(q) ==> q.num() == hz && q.den() == 1,
            r matches Some(q) ==> q == Rate::reduced_of(hz as nat, 1),
    {
        proof {
            assert(spec_gcd(hz as nat, 1) == 1) by {
                reveal_with_fuel(spec_gcd, 3);
                lemma_small_mod(0, 1);
                if hz > 0 {
                    lemma_mod_self_0(1);
                    lemma_fundamental_div_mod(hz as int, 1);
                }
            }
        }
        Self::new(hz, 1)
    }

    /// The numerator, in hertz.
    #[verifier::when_used_as_spec(spec_num)]
    pub fn num(self) -> (r: Count)
        ensures
            r == self.spec_num(),
            r > 0,
    {
        proof {
            use_type_invariant(&self);
        }
        self.num
    }

    /// The denominator.
    #[verifier::when_used_as_spec(spec_den)]
    pub fn den(self) -> (r: Count)
        ensures
            r == self.spec_den(),
            r > 0,
    {
        proof {
            use_type_invariant(&self);
        }
        self.den
    }

    /// This rate scaled by `factor`, exactly.
    ///
    /// The cross terms are reduced before multiplying, which keeps the product
    /// as small as it can be before the overflow check.
    pub fn checked_mul(self, factor: Self) -> (r: Option<Self>)
        ensures
            r is Some <==> ({
                let g1 = spec_gcd(self.num() as nat, factor.den() as nat);
                let g2 = spec_gcd(factor.num() as nat, self.den() as nat);
                &&& ((self.num() as nat) / g1) * ((factor.num() as nat) / g2) <= Count::MAX
                &&& ((self.den() as nat) / g2) * ((factor.den() as nat) / g1) <= Count::MAX
            }),
            r matches Some(p) ==> p.num() * (self.den() * factor.den()) == p.den() * (
            self.num() * factor.num()),
            r matches Some(p) ==> spec_gcd(p.num() as nat, p.den() as nat) == 1,
            r == self.spec_mul(factor),
    {
        proof {
            use_type_invariant(&self);
            use_type_invariant(&factor);
        }
        let g1 = gcd(self.num, factor.den);
        let g2 = gcd(factor.num, self.den);
        proof {
            lemma_gcd_divides(self.num as nat, factor.den as nat);
            lemma_gcd_divides(factor.num as nat, self.den as nat);
        }
        let a = self.num / g1;
        let b = factor.num / g2;
        let c = self.den / g2;
        let d = factor.den / g1;
        proof {
            lemma_fundamental_div_mod(self.num as int, g1 as int);
            lemma_fundamental_div_mod(factor.den as int, g1 as int);
            lemma_fundamental_div_mod(factor.num as int, g2 as int);
            lemma_fundamental_div_mod(self.den as int, g2 as int);
            assert(a > 0 && b > 0 && c > 0 && d > 0) by (nonlinear_arith)
                requires
                    self.num as int == g1 * a,
                    factor.den as int == g1 * d,
                    factor.num as int == g2 * b,
                    self.den as int == g2 * c,
                    self.num > 0,
                    factor.num > 0,
                    self.den > 0,
                    factor.den > 0,
                    a >= 0,
                    b >= 0,
                    c >= 0,
                    d >= 0,
            ;
        }
        match (a.checked_mul(b), c.checked_mul(d)) {
            (Some(n), Some(m)) => {
                proof {
                    assert(n > 0 && m > 0) by (nonlinear_arith)
                        requires
                            n as int == a * b,
                            m as int == c * d,
                            a > 0,
                            b > 0,
                            c > 0,
                            d > 0,
                    ;
                    lemma_reduce(n as nat, m as nat);
                    let g = spec_gcd(n as nat, m as nat);
                    // (n/g) * m == (m/g) * n, and n/m is the product ratio.
                    let x = (n as nat) / g;
                    let y = (m as nat) / g;
                    let k = g1 * g2;
                    assert(self.den * factor.den == k * m) by (nonlinear_arith)
                        requires
                            m as int == c * d,
                            factor.den == g1 * d,
                            self.den == g2 * c,
                            k == g1 * g2,
                    ;
                    assert(self.num * factor.num == k * n) by (nonlinear_arith)
                        requires
                            n as int == a * b,
                            self.num == g1 * a,
                            factor.num == g2 * b,
                            k == g1 * g2,
                    ;
                    assert(x * (k * m) == y * (k * n)) by (nonlinear_arith)
                        requires
                            x * m == y * n,
                    ;
                }
                Self::new(n, m)
            },
            _ => None,
        }
    }
}

/// The product of two rates is exact: its numerator over its denominator is
/// the product of the two fractions, and both parts are positive.
pub proof fn lemma_product_is_exact(a: Rate, f: Rate)
    requires
        a.num() > 0,
        a.den() > 0,
        f.num() > 0,
        f.den() > 0,
    ensures
        a.spec_mul(f) matches Some(p) ==> p.num() > 0 && p.den() > 0 && p.num() * (a.den()
            * f.den()) == p.den() * (a.num() * f.num()),
{
    let an = a.num() as nat;
    let ad = a.den() as nat;
    let fnum = f.num() as nat;
    let fd = f.den() as nat;
    let g1 = spec_gcd(an, fd);
    let g2 = spec_gcd(fnum, ad);
    lemma_gcd_divides(an, fd);
    lemma_gcd_divides(fnum, ad);
    lemma_fundamental_div_mod(an as int, g1 as int);
    lemma_fundamental_div_mod(fd as int, g1 as int);
    lemma_fundamental_div_mod(fnum as int, g2 as int);
    lemma_fundamental_div_mod(ad as int, g2 as int);
    let x = an / g1;
    let y = fnum / g2;
    let c = ad / g2;
    let d = fd / g1;
    let n = x * y;
    let m = c * d;
    if a.spec_mul(f) is Some {
        assert(x > 0 && y > 0 && c > 0 && d > 0) by (nonlinear_arith)
            requires
                an == g1 * x,
                fd == g1 * d,
                fnum == g2 * y,
                ad == g2 * c,
                an > 0,
                fnum > 0,
                ad > 0,
                fd > 0,
                x >= 0,
                y >= 0,
                c >= 0,
                d >= 0,
        ;
        assert(n > 0 && m > 0) by (nonlinear_arith)
            requires
                n == x * y,
                m == c * d,
                x > 0,
                y > 0,
                c > 0,
                d > 0,
        ;
        lemma_reduce(n, m);
        let g = spec_gcd(n, m);
        let k = g1 * g2;
        assert(ad * fd == k * m) by (nonlinear_arith)
            requires
                m == c * d,
                fd == g1 * d,
                ad == g2 * c,
                k == g1 * g2,
        ;
        assert(an * fnum == k * n) by (nonlinear_arith)
            requires
                n == x * y,
                an == g1 * x,
                fnum == g2 * y,
                k == g1 * g2,
        ;
        let px = n / g;
        let py = m / g;
        assert(px * (k * m) == py * (k * n)) by (nonlinear_arith)
            requires
                px * m == py * n,
        ;
    }
}

/// Why a set of sources has no base this core can hold.
#[derive(Clone, Copy, PartialEq, Eq, Structural, Debug)]
pub enum NoBase {
    /// No sources were declared, so there is nothing to derive a base from.
    NoSources,
    /// The least common multiple of the declared numerators exceeds `Count`.
    TooWide,
}

/// Whether every rate's numerator divides `m`.
pub open spec fn common_multiple(rates: Seq<Rate>, m: nat) -> bool {
    forall|i: int| 0 <= i < rates.len() ==> m % (#[trigger] rates[i].num() as nat) == 0
}

/// The lcm of the numerators of the first `n` rates, starting from one.
pub open spec fn lcm_of_nums(rates: Seq<Rate>, n: int) -> nat
    decreases n,
{
    if n <= 0 {
        1
    } else {
        spec_lcm(lcm_of_nums(rates, n - 1), rates[n - 1].num() as nat)
    }
}

/// Every partial lcm is positive and no larger than the next one.
proof fn lemma_lcm_of_nums_grows(rates: Seq<Rate>, n: int)
    requires
        0 <= n <= rates.len(),
        forall|i: int| 0 <= i < rates.len() ==> #[trigger] rates[i].num() > 0,
    ensures
        lcm_of_nums(rates, n) > 0,
        forall|i: int| 0 <= i <= n ==> #[trigger] lcm_of_nums(rates, i) <= lcm_of_nums(rates, n),
        forall|i: int| 0 <= i < n ==> lcm_of_nums(rates, n) % (#[trigger] rates[i].num() as nat) == 0,
    decreases n,
{
    if n > 0 {
        lemma_lcm_of_nums_grows(rates, n - 1);
        let p = lcm_of_nums(rates, n - 1);
        let x = rates[n - 1].num() as nat;
        lemma_lcm_common_multiple(p, x);
        assert forall|i: int| 0 <= i < n implies lcm_of_nums(rates, n) % (
        #[trigger] rates[i].num() as nat) == 0 by {
            if i < n - 1 {
                // rates[i] divides p, and p divides the new lcm.
                lemma_divides_transitive(rates[i].num() as nat, p, lcm_of_nums(rates, n));
            }
        }
    }
}

/// Scaling both arguments scales their gcd.
proof fn lemma_gcd_scale(a: nat, b: nat, m: nat)
    requires
        m > 0,
    ensures
        spec_gcd(m * a, m * b) == m * spec_gcd(a, b),
    decreases b,
{
    if b == 0 {
        assert(m * b == 0) by (nonlinear_arith)
            requires
                b == 0,
        ;
    } else {
        let q = a / b;
        let r = a % b;
        lemma_fundamental_div_mod(a as int, b as int);
        assert(m * a == q * (m * b) + m * r && 0 <= m * r < m * b) by (nonlinear_arith)
            requires
                a == b * q + r,
                0 <= r < b,
                m > 0,
        ;
        assert(m * b > 0) by (nonlinear_arith)
            requires
                m > 0,
                b > 0,
        ;
        lemma_fundamental_div_mod_converse((m * a) as int, (m * b) as int, q as int, (m * r) as int);
        lemma_gcd_scale(b, r, m);
    }
}

/// The lcm divides every common multiple of its two positive arguments.
pub proof fn lemma_lcm_divides_common_multiple(a: nat, b: nat, m: nat)
    requires
        a > 0,
        b > 0,
        m > 0,
        m % a == 0,
        m % b == 0,
    ensures
        m % spec_lcm(a, b) == 0,
{
    let g = spec_gcd(a, b);
    lemma_gcd_divides(a, b);
    lemma_fundamental_div_mod(a as int, g as int);
    lemma_fundamental_div_mod(m as int, a as int);
    lemma_fundamental_div_mod(m as int, b as int);
    let x = a / g;
    let s = m / a;
    let t = m / b;
    let l = x * b;
    // a * b divides both m * a and m * b, so it divides their gcd, m * g.
    assert(m * a == (a * b) * t && m * b == (a * b) * s) by (nonlinear_arith)
        requires
            m == a * s,
            m == b * t,
    ;
    assert(a * b > 0) by (nonlinear_arith)
        requires
            a > 0,
            b > 0,
    ;
    assert(t >= 0 && s >= 0) by (nonlinear_arith)
        requires
            m == a * s + 0,
            m == b * t + 0,
            m > 0,
            a > 0,
            b > 0,
    ;
    lemma_mod_multiples_basic(t as int, (a * b) as int);
    lemma_mod_multiples_basic(s as int, (a * b) as int);
    lemma_mul_is_commutative((a * b) as int, t as int);
    lemma_mul_is_commutative((a * b) as int, s as int);
    assert(m * a > 0 && m * b > 0) by (nonlinear_arith)
        requires
            m > 0,
            a > 0,
            b > 0,
    ;
    lemma_common_divisor_divides_gcd(m * a, m * b, a * b);
    lemma_gcd_scale(a, b, m);
    lemma_fundamental_div_mod((m * g) as int, (a * b) as int);
    let k = (m * g) / (a * b);
    assert(g > 0);
    assert(m == l * k) by (nonlinear_arith)
        requires
            m * g == (a * b) * k,
            a == g * x,
            l == x * b,
            g > 0,
    ;
    assert(l > 0) by (nonlinear_arith)
        requires
            a == g * x,
            a > 0,
            b > 0,
            l == x * b,
            x >= 0,
    ;
    assert(k >= 0) by (nonlinear_arith)
        requires
            m == l * k,
            m > 0,
            l > 0,
    ;
    lemma_mod_multiples_basic(k as int, l as int);
    lemma_mul_is_commutative(l as int, k as int);
}

/// The lcm of the first `n` numerators divides every positive common
/// multiple of them.
proof fn lemma_lcm_of_nums_least(rates: Seq<Rate>, n: int, m: nat)
    requires
        0 <= n <= rates.len(),
        m > 0,
        forall|i: int| 0 <= i < rates.len() ==> #[trigger] rates[i].num() > 0,
        forall|i: int| 0 <= i < n ==> m % (#[trigger] rates[i].num() as nat) == 0,
    ensures
        m % lcm_of_nums(rates, n) == 0,
    decreases n,
{
    if n <= 0 {
        assert(m % 1 == 0);
    } else {
        lemma_lcm_of_nums_least(rates, n - 1, m);
        lemma_lcm_of_nums_grows(rates, n - 1);
        lemma_lcm_divides_common_multiple(
            lcm_of_nums(rates, n - 1),
            rates[n - 1].num() as nat,
            m,
        );
    }
}

/// Divisibility is transitive.
pub proof fn lemma_divides_transitive(a: nat, b: nat, c: nat)
    requires
        a > 0,
        b > 0,
        b % a == 0,
        c % b == 0,
    ensures
        c % a == 0,
{
    lemma_fundamental_div_mod(b as int, a as int);
    lemma_fundamental_div_mod(c as int, b as int);
    let k = b / a;
    let l = c / b;
    assert(c == a * (k * l)) by (nonlinear_arith)
        requires
            b == a * k,
            c == b * l,
    ;
    assert(k * l >= 0) by (nonlinear_arith)
        requires
            k >= 0,
            l >= 0,
    ;
    lemma_mod_multiples_basic((k * l) as int, a as int);
    lemma_mul_is_commutative(a as int, (k * l) as int);
}

/// The frequency a register composes in.
///
/// Every declared source's period is a whole number of base ticks, so
/// composition across sources is exact integer arithmetic.
#[derive(Clone, Copy, PartialEq, Eq, Structural, Debug, Hash)]
pub struct Base {
    hz: Count,
}

impl Base {
    /// The base frequency, in hertz.
    pub closed spec fn spec_hz(self) -> Count {
        self.hz
    }

    #[verifier::type_invariant]
    spec fn positive(self) -> bool {
        self.hz > 0
    }

    /// The coarsest base in which every rate's period is a whole number of
    /// ticks: the least common multiple of the numerators.
    pub fn derive(rates: &[Rate]) -> (r: Result<Self, NoBase>)
        ensures
            rates@.len() == 0 ==> r == Err::<Self, NoBase>(NoBase::NoSources),
            rates@.len() > 0 ==> (r is Ok <==> lcm_of_nums(rates@, rates@.len() as int)
                <= Count::MAX),
            rates@.len() > 0 && r is Err ==> r == Err::<Self, NoBase>(NoBase::TooWide),
            r matches Ok(b) ==> b.hz() == lcm_of_nums(rates@, rates@.len() as int) && forall|
                i: int,
            | 0 <= i < rates@.len() ==> (b.hz() as nat) % (#[trigger] rates@[i].num() as nat)
                == 0,
            r matches Ok(b) ==> forall|m: nat|
                0 < m && #[trigger] common_multiple(rates@, m) ==> b.hz() <= m,
    {
        let mut acc: Count = 1;
        if rates.len() == 0 {
            return Err(NoBase::NoSources);
        }
        // Every numerator is positive; the rates say so one at a time.
        let mut k: usize = 0;
        while k < rates.len()
            invariant
                0 <= k <= rates@.len(),
                forall|j: int| 0 <= j < k ==> #[trigger] rates@[j].num() > 0,
            decreases rates@.len() - k,
        {
            let _ = rates[k].num();
            k = k + 1;
        }
        proof {
            lemma_lcm_of_nums_grows(rates@, rates@.len() as int);
        }
        let mut i: usize = 0;
        while i < rates.len()
            invariant
                0 <= i <= rates@.len(),
                acc == lcm_of_nums(rates@, i as int),
                forall|j: int| 0 <= j < rates@.len() ==> #[trigger] rates@[j].num() > 0,
                forall|j: int|
                    0 <= j <= rates@.len() ==> #[trigger] lcm_of_nums(rates@, j) <= lcm_of_nums(
                        rates@,
                        rates@.len() as int,
                    ),
            decreases rates@.len() - i,
        {
            proof {
                lemma_lcm_of_nums_grows(rates@, i as int);
            }
            let n = rates[i].num();
            match lcm(acc, n) {
                Some(m) => {
                    acc = m;
                },
                None => {
                    proof {
                        assert(lcm_of_nums(rates@, (i + 1) as int) > Count::MAX);
                        assert(lcm_of_nums(rates@, (i + 1) as int) <= lcm_of_nums(
                            rates@,
                            rates@.len() as int,
                        ));
                    }
                    return Err(NoBase::TooWide);
                },
            }
            i = i + 1;
        }
        proof {
            lemma_lcm_of_nums_grows(rates@, rates@.len() as int);
            assert forall|m: nat| 0 < m && #[trigger] common_multiple(rates@, m) implies acc
                <= m by {
                lemma_lcm_of_nums_least(rates@, rates@.len() as int, m);
                lemma_multiple_at_least(m, acc as nat);
            }
        }
        Ok(Self { hz: acc })
    }

    /// The base frequency, in hertz.
    #[verifier::when_used_as_spec(spec_hz)]
    pub fn hz(self) -> (r: Count)
        ensures
            r == self.spec_hz(),
            r > 0,
    {
        proof {
            use_type_invariant(&self);
        }
        self.hz
    }

    /// How many base ticks one period of `rate` lasts, exactly.
    ///
    /// `None` when this base is not a whole multiple of the rate's numerator,
    /// or when the result exceeds `Count`.
    pub fn ticks_per_period(self, rate: Rate) -> (r: Option<Count>)
        ensures
            r is Some <==> rate.den() * self.hz() <= Count::MAX && (rate.den() * self.hz()) % (
            rate.num() as int) == 0,
            r matches Some(t) ==> t == (rate.den() * self.hz()) / (rate.num() as int) && t
                * rate.num() == rate.den() * self.hz(),
    {
        let den = rate.den();
        let num = rate.num();
        let numer = match den.checked_mul(self.hz()) {
            Some(v) => v,
            None => return None,
        };
        if numer % num != 0 {
            return None;
        }
        proof {
            lemma_fundamental_div_mod(numer as int, num as int);
            lemma_mul_is_commutative(num as int, (numer / num) as int);
        }
        Some(numer / num)
    }

    /// The span this base can represent in `Count` base ticks, in whole seconds.
    pub fn representable_seconds(self) -> (r: Count)
        ensures
            r == Count::MAX / self.hz(),
    {
        Count::MAX / self.hz()
    }
}

} // verus!
