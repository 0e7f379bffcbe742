//! Integer intervals, and arithmetic that refuses rather than wraps.
use vstd::prelude::*;
use crate::Count;

verus! {

/// A closed interval of `Count`, with `lo <= hi` held as an invariant.
///
/// Every number in the model is an interval. An exact value is a point, where
/// `lo == hi`. Arithmetic here is conservative, so the result contains the
/// result of every point-valued evaluation within the inputs, and it returns
/// `None` rather than wrapping where it would overflow.
#[derive(Clone, Copy, PartialEq, Eq, Structural, Debug, Hash)]
pub struct Interval {
    lo: Count,
    hi: Count,
}

/// The least multiple of `g` that is at least `v`.
pub open spec fn ceil_multiple(v: int, g: int) -> int
    recommends g > 0,
{
    if v % g == 0 { v } else { v + (g - v % g) }
}

impl Interval {
    /// The lower endpoint.
    pub closed spec fn spec_lo(self) -> Count {
        self.lo
    }

    /// The upper endpoint.
    pub closed spec fn spec_hi(self) -> Count {
        self.hi
    }

    /// The interval with the given endpoints.
    pub closed spec fn from_ends(lo: Count, hi: Count) -> Interval {
        Interval { lo, hi }
    }

    /// The endpoints of an interval built from its endpoints are those endpoints.
    pub broadcast proof fn lemma_from_ends(lo: Count, hi: Count)
        ensures
            #![trigger Interval::from_ends(lo, hi)]
            Interval::from_ends(lo, hi).spec_lo() == lo,
            Interval::from_ends(lo, hi).spec_hi() == hi,
    {
    }

    /// An interval is determined by its endpoints.
    pub broadcast proof fn lemma_ends_determine(iv: Interval)
        ensures
            #[trigger] Interval::from_ends(iv.spec_lo(), iv.spec_hi()) == iv,
    {
    }

    #[verifier::type_invariant]
    spec fn ordered(self) -> bool {
        self.lo <= self.hi
    }

    /// An interval from `lo` to `hi`, or `None` if they are the wrong way round.
    pub fn new(lo: Count, hi: Count) -> (r: Option<Self>)
        ensures
            r is Some <==> lo <= hi,
            r matches Some(iv) ==> iv.spec_lo() == lo && iv.spec_hi() == hi,
            r matches Some(iv) ==> iv == Interval::from_ends(lo, hi),
    {
        if lo <= hi {
            Some(Self { lo, hi })
        } else {
            None
        }
    }

    /// An exact value.
    pub fn point(v: Count) -> (r: Self)
        ensures
            r.spec_lo() == v,
            r.spec_hi() == v,
            r == Interval::from_ends(v, v),
    {
        Self { lo: v, hi: v }
    }

    /// The lower endpoint.
    #[verifier::when_used_as_spec(spec_lo)]
    pub fn lo(self) -> (r: Count)
        ensures
            r == self.spec_lo(),
            r <= self.spec_hi(),
    {
        proof {
            use_type_invariant(&self);
        }
        self.lo
    }

    /// The upper endpoint.
    #[verifier::when_used_as_spec(spec_hi)]
    pub fn hi(self) -> (r: Count)
        ensures
            r == self.spec_hi(),
            self.spec_lo() <= r,
    {
        proof {
            use_type_invariant(&self);
        }
        self.hi
    }

    /// Whether this interval is a single value.
    pub fn is_exact(self) -> (r: bool)
        ensures
            r == (self.lo() == self.hi()),
    {
        self.lo == self.hi
    }

    /// Whether `v` lies within the interval.
    pub open spec fn spec_contains(self, v: int) -> bool {
        self.lo() <= v <= self.hi()
    }

    /// Whether `v` lies within the interval.
    pub fn contains(self, v: Count) -> (r: bool)
        ensures
            r == self.spec_contains(v as int),
    {
        self.lo <= v && v <= self.hi
    }

    /// Sum, or `None` on overflow.
    pub fn checked_add(self, other: Self) -> (r: Option<Self>)
        ensures
            r is Some <==> self.hi() + other.hi() <= Count::MAX,
            r matches Some(s) ==> s.lo() == self.lo() + other.lo() && s.hi() == self.hi()
                + other.hi(),
            r matches Some(s) ==> s == Interval::from_ends(
                (self.lo() + other.lo()) as Count,
                (self.hi() + other.hi()) as Count,
            ),
    {
        proof {
            use_type_invariant(&self);
            use_type_invariant(&other);
        }
        match (self.lo.checked_add(other.lo), self.hi.checked_add(other.hi)) {
            (Some(lo), Some(hi)) => Some(Self { lo, hi }),
            _ => None,
        }
    }

    /// Product, or `None` on overflow.
    ///
    /// Both operands are non-negative, so the endpoints of the product are the
    /// products of the endpoints and no cross-term can be smaller or larger.
    pub fn checked_mul(self, other: Self) -> (r: Option<Self>)
        ensures
            r is Some <==> self.hi() * other.hi() <= Count::MAX,
            r matches Some(p) ==> p.lo() == self.lo() * other.lo() && p.hi() == self.hi()
                * other.hi(),
            r matches Some(p) ==> p == Interval::from_ends(
                (self.lo() * other.lo()) as Count,
                (self.hi() * other.hi()) as Count,
            ),
    {
        proof {
            use_type_invariant(&self);
            use_type_invariant(&other);
            lemma_mul_le(self.lo as int, self.hi as int, other.lo as int, other.hi as int);
        }
        match (self.lo.checked_mul(other.lo), self.hi.checked_mul(other.hi)) {
            (Some(lo), Some(hi)) => Some(Self { lo, hi }),
            _ => None,
        }
    }

    /// The pointwise maximum, which is the cost of the more expensive branch.
    pub fn max(self, other: Self) -> (r: Self)
        ensures
            r.lo() == (if self.lo() >= other.lo() { self.lo() } else { other.lo() }),
            r.hi() == (if self.hi() >= other.hi() { self.hi() } else { other.hi() }),
            r == Interval::from_ends(
                if self.lo() >= other.lo() { self.lo() } else { other.lo() },
                if self.hi() >= other.hi() { self.hi() } else { other.hi() },
            ),
    {
        proof {
            use_type_invariant(&self);
            use_type_invariant(&other);
        }
        Self {
            lo: if self.lo >= other.lo { self.lo } else { other.lo },
            hi: if self.hi >= other.hi { self.hi } else { other.hi },
        }
    }

    /// Round each endpoint up to the next multiple of `g`, or `None` if `g` is
    /// zero or the rounding overflows.
    ///
    /// Rounding up is monotone, so mapping the endpoints maps the interval.
    pub fn checked_round_up_to_multiple(self, g: Count) -> (r: Option<Self>)
        ensures
            r is Some <==> g > 0 && ceil_multiple(self.hi() as int, g as int) <= Count::MAX,
            r matches Some(c) ==> c.lo() == ceil_multiple(self.lo() as int, g as int)
                && c.hi() == ceil_multiple(self.hi() as int, g as int),
            r matches Some(c) ==> c == Interval::from_ends(
                ceil_multiple(self.lo() as int, g as int) as Count,
                ceil_multiple(self.hi() as int, g as int) as Count,
            ),
    {
        proof {
            use_type_invariant(&self);
            if g > 0 {
                lemma_ceil_monotone(self.lo as int, self.hi as int, g as int);
            }
        }
        match (ceil_to_multiple(self.lo, g), ceil_to_multiple(self.hi, g)) {
            (Some(lo), Some(hi)) => Some(Self { lo, hi }),
            _ => None,
        }
    }
}

/// The least multiple of `g` that is at least `v`. `None` if `g` is zero or the
/// result overflows.
fn ceil_to_multiple(v: Count, g: Count) -> (r: Option<Count>)
    ensures
        r is Some <==> g > 0 && ceil_multiple(v as int, g as int) <= Count::MAX,
        r matches Some(c) ==> c == ceil_multiple(v as int, g as int),
{
    if g == 0 {
        return None;
    }
    let rem = v % g;
    if rem == 0 {
        return Some(v);
    }
    v.checked_add(g - rem)
}

proof fn lemma_mul_le(a: int, b: int, c: int, d: int)
    requires
        0 <= a <= b,
        0 <= c <= d,
    ensures
        a * c <= b * d,
{
    assert(a * c <= b * c) by (nonlinear_arith)
        requires
            0 <= a <= b,
            0 <= c,
    ;
    assert(b * c <= b * d) by (nonlinear_arith)
        requires
            0 <= b,
            0 <= c <= d,
    ;
}

/// The ceiling to a multiple is monotone.
proof fn lemma_ceil_monotone(a: int, b: int, g: int)
    requires
        0 <= a <= b,
        g > 0,
    ensures
        ceil_multiple(a, g) <= ceil_multiple(b, g),
{
    lemma_ceil_least(a, g);
    lemma_ceil_least(b, g);
    let cb = ceil_multiple(b, g);
    // cb is a multiple of g at least a, and ceil_multiple(a, g) is the least one.
    lemma_ceil_is_least_multiple(a, g, cb);
}

/// The ceiling is a multiple of `g`, at least `v`, and less than `v + g`.
pub proof fn lemma_ceil_least(v: int, g: int)
    requires
        v >= 0,
        g > 0,
    ensures
        ceil_multiple(v, g) % g == 0,
        v <= ceil_multiple(v, g) < v + g,
{
    vstd::arithmetic::div_mod::lemma_fundamental_div_mod(v, g);
    if v % g != 0 {
        let q = v / g;
        assert(v + (g - v % g) == (q + 1) * g) by (nonlinear_arith)
            requires
                v == g * q + v % g,
        ;
        vstd::arithmetic::div_mod::lemma_mod_multiples_basic(q + 1, g);
    }
}

/// Every multiple of `g` that is at least `v` is at least the ceiling.
pub proof fn lemma_ceil_is_least_multiple(v: int, g: int, m: int)
    requires
        v >= 0,
        g > 0,
        m >= v,
        m % g == 0,
    ensures
        ceil_multiple(v, g) <= m,
{
    vstd::arithmetic::div_mod::lemma_fundamental_div_mod(v, g);
    vstd::arithmetic::div_mod::lemma_fundamental_div_mod(m, g);
    let q = v / g;
    let k = m / g;
    if v % g != 0 {
        // v lies strictly between q*g and (q+1)*g, so a multiple at least v is at least (q+1)*g.
        assert(m == g * k);
        assert(v > g * q);
        if k <= q {
            assert(g * k <= g * q) by (nonlinear_arith)
                requires
                    k <= q,
                    g > 0,
            ;
            assert(false);
        }
        assert(g * (q + 1) <= g * k) by (nonlinear_arith)
            requires
                q + 1 <= k,
                g > 0,
        ;
        assert(v + (g - v % g) == g * (q + 1)) by (nonlinear_arith)
            requires
                v == g * q + v % g,
        ;
    }
}

/// Interval soundness for addition: the sum contains the sum of every pair of
/// points drawn from the operands.
pub proof fn lemma_add_contains(a: Interval, b: Interval, s: Interval, x: int, y: int)
    requires
        a.spec_contains(x),
        b.spec_contains(y),
        s.lo() == a.lo() + b.lo(),
        s.hi() == a.hi() + b.hi(),
    ensures
        s.spec_contains(x + y),
{
}

/// Interval soundness for multiplication: the product contains the product of
/// every pair of points drawn from the operands.
pub proof fn lemma_mul_contains(a: Interval, b: Interval, p: Interval, x: int, y: int)
    requires
        a.spec_contains(x),
        b.spec_contains(y),
        p.lo() == a.lo() * b.lo(),
        p.hi() == a.hi() * b.hi(),
    ensures
        p.spec_contains(x * y),
{
    lemma_mul_le(a.lo() as int, x, b.lo() as int, y);
    lemma_mul_le(x, a.hi() as int, y, b.hi() as int);
}

/// A rounded interval is the least whole-tick cover of each endpoint: each
/// endpoint rounds to a multiple of the granularity at least as large, and no
/// smaller multiple would do.
pub proof fn lemma_round_up_is_least(iv: Interval, g: Count, r: Interval, m: int)
    requires
        g > 0,
        r.lo() == ceil_multiple(iv.lo() as int, g as int),
        r.hi() == ceil_multiple(iv.hi() as int, g as int),
    ensures
        (r.lo() as int) % (g as int) == 0,
        (r.hi() as int) % (g as int) == 0,
        iv.lo() <= r.lo() < iv.lo() + g,
        iv.hi() <= r.hi() < iv.hi() + g,
        m >= iv.hi() && m % (g as int) == 0 ==> r.hi() <= m,
        m >= iv.lo() && m % (g as int) == 0 ==> r.lo() <= m,
{
    lemma_ceil_least(iv.lo() as int, g as int);
    lemma_ceil_least(iv.hi() as int, g as int);
    if m >= iv.hi() && m % (g as int) == 0 {
        lemma_ceil_is_least_multiple(iv.hi() as int, g as int, m);
    }
    if m >= iv.lo() && m % (g as int) == 0 {
        lemma_ceil_is_least_multiple(iv.lo() as int, g as int, m);
    }
}

/// The facts that let a caller reason about intervals built from endpoints.
pub broadcast group group_interval {
    Interval::lemma_from_ends,
    Interval::lemma_ends_determine,
}

} // verus!
