//! A number with a unit and a provenance, and the arithmetic that refuses.
use vstd::prelude::*;
use vstd::arithmetic::div_mod::*;
use vstd::arithmetic::mul::*;
use crate::interval::{ceil_multiple, group_interval, Interval};
use crate::provenance::{rank, weaker, Provenance};
use crate::rate::Base;
use crate::source::{Source, SourceId, Span};
use crate::Count;

verus! {

broadcast use group_interval;

/// What a number counts.
///
/// `Ticks` and `Cycles` name the clock they were counted against rather than
/// carrying a rate, so two differently-clocked counts cannot be added and a
/// rate never enters the model as a bare integer.
#[derive(Clone, Copy, PartialEq, Eq, Structural, Debug, Hash)]
pub enum Unit {
    /// Loop passes. The safe default, with no conversion to time.
    Iterations,
    /// Peripheral accesses. Also no conversion to time.
    BusReads,
    /// Ticks of a declared clock.
    Ticks(SourceId),
    /// Cycles of a declared clock.
    Cycles(SourceId),
    /// Ticks of the register's derived base, in which composition across
    /// clocks is exact.
    Base,
    /// Nanoseconds.
    Nanos,
}

/// Whether a unit can reach a time at all.
pub open spec fn temporal(u: Unit) -> bool {
    match u {
        Unit::Ticks(_) | Unit::Cycles(_) | Unit::Base | Unit::Nanos => true,
        _ => false,
    }
}

impl Unit {
    /// Whether this unit can reach a time at all.
    ///
    /// Iterations and bus reads cannot, by construction. A loop pass is not a
    /// duration, and no conversion exists to make it one.
    pub fn is_temporal(self) -> (r: bool)
        ensures
            r == temporal(self),
    {
        match self {
            Unit::Ticks(_) | Unit::Cycles(_) | Unit::Base | Unit::Nanos => true,
            _ => false,
        }
    }
}

/// Why an operation could not be carried out.
#[derive(Clone, Copy, PartialEq, Eq, Structural, Debug)]
pub enum Refusal {
    /// Two quantities in different units, with no declared conversion.
    UnitMismatch { left: Unit, right: Unit },
    /// A count in a unit that has no path to a time.
    NotTemporal(Unit),
    /// The quantity does not belong to the clock it was offered against.
    WrongSource { expected: SourceId, found: Unit },
    /// The clock is not trustworthy across the whole window.
    SourceInvalid(SourceId),
    /// The clock's period is not a whole number of base ticks.
    NotInBase(SourceId),
    /// A tolerance of a million parts per million or more is not a tolerance.
    ToleranceTooWide(u32),
    /// The arithmetic left the width the core holds.
    Overflow,
}

/// An interval, a unit, and a provenance. The model holds no bare integers.
#[derive(Clone, Copy, PartialEq, Eq, Structural, Debug)]
pub struct Quantity {
    iv: Interval,
    unit: Unit,
    prov: Provenance,
}

impl Quantity {
    /// The quantity with these parts.
    pub closed spec fn of(iv: Interval, unit: Unit, prov: Provenance) -> Quantity {
        Quantity { iv, unit, prov }
    }

    /// The interval part.
    pub closed spec fn spec_interval(self) -> Interval {
        self.iv
    }

    /// The unit part.
    pub closed spec fn spec_unit(self) -> Unit {
        self.unit
    }

    /// The provenance part.
    pub closed spec fn spec_provenance(self) -> Provenance {
        self.prov
    }

    /// The parts of a quantity built from parts are those parts.
    pub broadcast proof fn lemma_of(iv: Interval, unit: Unit, prov: Provenance)
        ensures
            #![trigger Quantity::of(iv, unit, prov)]
            Quantity::of(iv, unit, prov).spec_interval() == iv,
            Quantity::of(iv, unit, prov).spec_unit() == unit,
            Quantity::of(iv, unit, prov).spec_provenance() == prov,
    {
    }

    /// A quantity is determined by its parts.
    pub broadcast proof fn lemma_parts_determine(q: Quantity)
        ensures
            #[trigger] Quantity::of(q.spec_interval(), q.spec_unit(), q.spec_provenance()) == q,
    {
    }

    /// A quantity from its parts.
    pub fn new(iv: Interval, unit: Unit, prov: Provenance) -> (r: Self)
        ensures
            r == Quantity::of(iv, unit, prov),
    {
        Self { iv, unit, prov }
    }

    /// The interval part.
    #[verifier::when_used_as_spec(spec_interval)]
    pub fn interval(self) -> (r: Interval)
        ensures
            r == self.spec_interval(),
    {
        self.iv
    }

    /// The unit part.
    #[verifier::when_used_as_spec(spec_unit)]
    pub fn unit(self) -> (r: Unit)
        ensures
            r == self.spec_unit(),
    {
        self.unit
    }

    /// The provenance part.
    #[verifier::when_used_as_spec(spec_provenance)]
    pub fn provenance(self) -> (r: Provenance)
        ensures
            r == self.spec_provenance(),
    {
        self.prov
    }

    /// The lower end of the interval.
    pub open spec fn lo(self) -> Count {
        self.interval().lo()
    }

    /// The upper end of the interval.
    pub open spec fn hi(self) -> Count {
        self.interval().hi()
    }

    /// Sequential composition. Waits in sequence sum.
    pub fn checked_add(self, other: Self) -> (r: Result<Self, Refusal>)
        ensures
            r == sum_of(self, other),
    {
        if self.unit != other.unit {
            return Err(Refusal::UnitMismatch { left: self.unit, right: other.unit });
        }
        let iv = match self.iv.checked_add(other.iv) {
            Some(iv) => iv,
            None => return Err(Refusal::Overflow),
        };
        Ok(Self { iv, unit: self.unit, prov: self.prov.join(other.prov) })
    }

    /// Branching. Alternatives take the more expensive one.
    pub fn checked_max(self, other: Self) -> (r: Result<Self, Refusal>)
        ensures
            r == max_of(self, other),
    {
        if self.unit != other.unit {
            return Err(Refusal::UnitMismatch { left: self.unit, right: other.unit });
        }
        Ok(Self { iv: self.iv.max(other.iv), unit: self.unit, prov: self.prov.join(other.prov) })
    }

    /// Repetition. A loop body repeated a declared number of times.
    pub fn checked_repeat(self, times: Interval, times_prov: Provenance) -> (r: Result<
        Self,
        Refusal,
    >)
        ensures
            r == repeat_of(self, times, times_prov),
    {
        let iv = match self.iv.checked_mul(times) {
            Some(iv) => iv,
            None => return Err(Refusal::Overflow),
        };
        Ok(Self { iv, unit: self.unit, prov: self.prov.join(times_prov) })
    }

    /// Convert a count of this clock's ticks into base ticks, exactly.
    ///
    /// The window is required because a clock is trustworthy over a span. A
    /// conversion across a span the clock is valid for only part of is refused
    /// rather than taken against a stale rate. A tolerance widens the result
    /// outward and never narrows it.
    pub fn to_base(self, src: &Source, base: Base, window: Span) -> (r: Result<Self, Refusal>)
        ensures
            r == to_base_of(self, *src, base, window),
            r matches Ok(q) ==> {
                let p = (src.nominal.den() * base.hz()) / (src.nominal.num() as int);
                &&& q.lo() <= self.lo() * p
                &&& self.lo() * p <= self.hi() * p
                &&& self.hi() * p <= q.hi()
            },
    {
        match self.unit {
            Unit::Ticks(id) | Unit::Cycles(id) => {
                if id != src.id {
                    return Err(Refusal::WrongSource { expected: src.id, found: self.unit });
                }
            },
            _ => {
                return Err(Refusal::WrongSource { expected: src.id, found: self.unit });
            },
        }
        if !src.valid.covers(window) {
            return Err(Refusal::SourceInvalid(src.id));
        }
        if src.tolerance_ppm >= 1_000_000 {
            return Err(Refusal::ToleranceTooWide(src.tolerance_ppm));
        }
        let per_period = match base.ticks_per_period(src.nominal) {
            Some(p) => p,
            None => return Err(Refusal::NotInBase(src.id)),
        };
        // A slower clock has a longer period, so the tolerance maps outward:
        // the low end takes the fastest permitted clock and the high end the
        // slowest. With no tolerance declared this is exact.
        let lo_per: Count;
        let hi_per: Count;
        if src.tolerance_ppm == 0 {
            lo_per = per_period;
            hi_per = per_period;
        } else {
            let ppm = src.tolerance_ppm as Count;
            let m: Count = 1_000_000;
            let scaled = match per_period.checked_mul(m) {
                Some(s) => s,
                None => return Err(Refusal::Overflow),
            };
            lo_per = div_floor(scaled, m + ppm);
            hi_per = div_ceil(scaled, m - ppm);
        }
        proof {
            lemma_per_period_bounds(per_period as int, src.tolerance_ppm as int);
        }
        let lo_in = self.iv.lo();
        let hi_in = self.iv.hi();
        let lo = match lo_in.checked_mul(lo_per) {
            Some(v) => v,
            None => return Err(Refusal::Overflow),
        };
        let hi = match hi_in.checked_mul(hi_per) {
            Some(v) => v,
            None => return Err(Refusal::Overflow),
        };
        proof {
            lemma_mul_ordered(lo_in as int, hi_in as int, lo_per as int, hi_per as int);
            lemma_mul_ordered(lo_in as int, lo_in as int, lo_per as int, per_period as int);
            lemma_mul_ordered(lo_in as int, hi_in as int, per_period as int, per_period as int);
            lemma_mul_ordered(hi_in as int, hi_in as int, per_period as int, hi_per as int);
        }
        let iv = match Interval::new(lo, hi) {
            Some(iv) => iv,
            None => return Err(Refusal::Overflow),
        };
        // The rate's provenance reaches every time derived from it.
        Ok(Self { iv, unit: Unit::Base, prov: self.prov.join(src.nominal_prov) })
    }

    /// Convert base ticks into nanoseconds, rounding outward.
    ///
    /// This is a presentation step. Composition happens in base ticks, and the
    /// division that loses exactness is deferred to here.
    pub fn base_to_nanos(self, base: Base) -> (r: Result<Self, Refusal>)
        ensures
            r == nanos_of(self, base),
            r matches Ok(q) ==> q.lo() * base.hz() <= self.lo() * NANOS_PER_SEC && self.hi()
                * NANOS_PER_SEC <= q.hi() * base.hz(),
    {
        if self.unit != Unit::Base {
            return Err(Refusal::UnitMismatch { left: self.unit, right: Unit::Base });
        }
        let b = base.hz();
        let lo_in = self.iv.lo();
        let hi_in = self.iv.hi();
        let lo_scaled = match lo_in.checked_mul(NANOS_PER_SEC) {
            Some(v) => v,
            None => return Err(Refusal::Overflow),
        };
        let hi_scaled = match hi_in.checked_mul(NANOS_PER_SEC) {
            Some(v) => v,
            None => return Err(Refusal::Overflow),
        };
        let lo = div_floor(lo_scaled, b);
        let hi = div_ceil(hi_scaled, b);
        proof {
            lemma_floor_le_ceil(lo_scaled as int, hi_scaled as int, b as int);
            lemma_div_rounding(lo_scaled as int, b as int);
            lemma_div_rounding(hi_scaled as int, b as int);
        }
        let iv = match Interval::new(lo, hi) {
            Some(iv) => iv,
            None => return Err(Refusal::Overflow),
        };
        Ok(Self { iv, unit: Unit::Nanos, prov: self.prov })
    }
}

/// The facts that let a caller reason about quantities built from parts.
pub broadcast group group_quantity {
    Quantity::lemma_of,
    Quantity::lemma_parts_determine,
}

/// Nanoseconds in a second.
pub const NANOS_PER_SEC: Count = 1_000_000_000;

/// Parts per million in unity.
pub const PPM: Count = 1_000_000;

/// The sum of two quantities: refused across units or on overflow, and
/// otherwise the endpoint sums at the weaker provenance.
pub open spec fn sum_of(a: Quantity, b: Quantity) -> Result<Quantity, Refusal> {
    if a.unit() != b.unit() {
        Err(Refusal::UnitMismatch { left: a.unit(), right: b.unit() })
    } else if a.hi() + b.hi() > Count::MAX {
        Err(Refusal::Overflow)
    } else {
        Ok(
            Quantity::of(
                Interval::from_ends((a.lo() + b.lo()) as Count, (a.hi() + b.hi()) as Count),
                a.unit(),
                weaker(a.provenance(), b.provenance()),
            ),
        )
    }
}

/// The pointwise maximum of two quantities, refused across units.
pub open spec fn max_of(a: Quantity, b: Quantity) -> Result<Quantity, Refusal> {
    if a.unit() != b.unit() {
        Err(Refusal::UnitMismatch { left: a.unit(), right: b.unit() })
    } else {
        Ok(
            Quantity::of(
                Interval::from_ends(
                    if a.lo() >= b.lo() { a.lo() } else { b.lo() },
                    if a.hi() >= b.hi() { a.hi() } else { b.hi() },
                ),
                a.unit(),
                weaker(a.provenance(), b.provenance()),
            ),
        )
    }
}

/// A quantity repeated a number of times drawn from `times`.
pub open spec fn repeat_of(q: Quantity, times: Interval, times_prov: Provenance) -> Result<
    Quantity,
    Refusal,
> {
    if q.hi() * times.hi() > Count::MAX {
        Err(Refusal::Overflow)
    } else {
        Ok(
            Quantity::of(
                Interval::from_ends((q.lo() * times.lo()) as Count, (q.hi() * times.hi()) as Count),
                q.unit(),
                weaker(q.provenance(), times_prov),
            ),
        )
    }
}

/// The least integer at least `a / b`.
pub open spec fn ceil_div(a: int, b: int) -> int {
    if a % b == 0 {
        a / b
    } else {
        a / b + 1
    }
}

/// Whether `u` counts the clock `id`.
pub open spec fn counts_clock(u: Unit, id: SourceId) -> bool {
    match u {
        Unit::Ticks(i) => i == id,
        Unit::Cycles(i) => i == id,
        _ => false,
    }
}

/// Base ticks per period of the clock at its fastest permitted rate.
pub open spec fn fast_period(p: int, ppm: int) -> int {
    if ppm == 0 {
        p
    } else {
        (p * PPM) / (PPM + ppm)
    }
}

/// Base ticks per period of the clock at its slowest permitted rate.
pub open spec fn slow_period(p: int, ppm: int) -> int {
    if ppm == 0 {
        p
    } else {
        ceil_div(p * PPM, PPM - ppm)
    }
}

/// A count of a clock's ticks, in base ticks, as `Quantity::to_base` computes it.
pub open spec fn to_base_of(q: Quantity, src: Source, base: Base, window: Span) -> Result<
    Quantity,
    Refusal,
> {
    let ppm = src.tolerance_ppm as int;
    let numer = src.nominal.den() * base.hz();
    let p = numer / (src.nominal.num() as int);
    if !counts_clock(q.unit(), src.id) {
        Err(Refusal::WrongSource { expected: src.id, found: q.unit() })
    } else if !src.valid.covers(window) {
        Err(Refusal::SourceInvalid(src.id))
    } else if ppm >= PPM {
        Err(Refusal::ToleranceTooWide(src.tolerance_ppm))
    } else if numer > Count::MAX || numer % (src.nominal.num() as int) != 0 {
        Err(Refusal::NotInBase(src.id))
    } else if ppm != 0 && p * PPM > Count::MAX {
        Err(Refusal::Overflow)
    } else if q.lo() * fast_period(p, ppm) > Count::MAX || q.hi() * slow_period(p, ppm)
        > Count::MAX {
        Err(Refusal::Overflow)
    } else {
        Ok(
            Quantity::of(
                Interval::from_ends(
                    (q.lo() * fast_period(p, ppm)) as Count,
                    (q.hi() * slow_period(p, ppm)) as Count,
                ),
                Unit::Base,
                weaker(q.provenance(), src.nominal_prov),
            ),
        )
    }
}

/// Base ticks in nanoseconds, rounded outward, as `Quantity::base_to_nanos`
/// computes it.
pub open spec fn nanos_of(q: Quantity, base: Base) -> Result<Quantity, Refusal> {
    if q.unit() != Unit::Base {
        Err(Refusal::UnitMismatch { left: q.unit(), right: Unit::Base })
    } else if q.lo() * NANOS_PER_SEC > Count::MAX || q.hi() * NANOS_PER_SEC > Count::MAX {
        Err(Refusal::Overflow)
    } else {
        Ok(
            Quantity::of(
                Interval::from_ends(
                    ((q.lo() * NANOS_PER_SEC) / (base.hz() as int)) as Count,
                    ceil_div(q.hi() * NANOS_PER_SEC, base.hz() as int) as Count,
                ),
                Unit::Nanos,
                q.provenance(),
            ),
        )
    }
}

fn div_floor(a: Count, b: Count) -> (r: Count)
    requires
        b > 0,
    ensures
        r == a / b,
{
    a / b
}

/// Ceiling division without the overflow that `(a + b - 1) / b` invites.
fn div_ceil(a: Count, b: Count) -> (r: Count)
    requires
        b > 0,
    ensures
        r == ceil_div(a as int, b as int),
        r <= a || a == 0,
{
    let q = a / b;
    if a % b == 0 {
        proof {
            lemma_div_rounding(a as int, b as int);
        }
        q
    } else {
        proof {
            lemma_div_rounding(a as int, b as int);
        }
        q + 1
    }
}

/// Floor and ceiling division bracket the quotient, and the ceiling does not
/// exceed the dividend.
proof fn lemma_div_rounding(a: int, b: int)
    requires
        a >= 0,
        b > 0,
    ensures
        (a / b) * b <= a,
        a <= ceil_div(a, b) * b,
        ceil_div(a, b) <= a || a == 0,
        a / b >= 0,
{
    lemma_fundamental_div_mod(a, b);
    lemma_mod_bound(a, b);
    lemma_div_pos_is_pos(a, b);
    if a % b == 0 {
        assert(a == (a / b) * b) by (nonlinear_arith)
            requires
                a == b * (a / b) + a % b,
                a % b == 0,
        ;
        assert(a / b <= a) by (nonlinear_arith)
            requires
                a == b * (a / b),
                b >= 1,
                a / b >= 0,
        ;
    } else {
        // b > 1 here, so a / b < a.
        assert((a / b + 1) * b >= a) by (nonlinear_arith)
            requires
                a == b * (a / b) + a % b,
                a % b < b,
        ;
        assert((a / b) * b + b >= a) by (nonlinear_arith)
            requires
                a == b * (a / b) + a % b,
                a % b < b,
        ;
        if a > 0 {
            assert(a / b + 1 <= a) by (nonlinear_arith)
                requires
                    a == b * (a / b) + a % b,
                    0 < a % b < b,
                    a / b >= 0,
                    b > 0,
            ;
        }
    }
    assert((a / b) * b <= a) by (nonlinear_arith)
        requires
            a == b * (a / b) + a % b,
            a % b >= 0,
    ;
}

proof fn lemma_floor_le_ceil(x: int, y: int, b: int)
    requires
        0 <= x <= y,
        b > 0,
    ensures
        x / b <= ceil_div(y, b),
{
    lemma_div_is_ordered(x, y, b);
}

proof fn lemma_mul_ordered(a: int, b: int, c: int, d: int)
    requires
        0 <= a <= b,
        0 <= c <= d,
    ensures
        a * c <= b * d,
{
    assert(a * c <= b * c) by (nonlinear_arith)
        requires
            0 <= a <= b,
            0 <= c,
    ;
    assert(b * c <= b * d) by (nonlinear_arith)
        requires
            0 <= b,
            0 <= c <= d,
    ;
}

/// A tolerance moves the per-period count outward: the fast period is no more
/// than the exact one, and the slow period no less.
pub proof fn lemma_per_period_bounds(p: int, ppm: int)
    requires
        p >= 0,
        0 <= ppm < PPM,
    ensures
        0 <= fast_period(p, ppm) <= p <= slow_period(p, ppm),
{
    if ppm != 0 {
        let m = PPM as int;
        assert(p * m >= 0) by (nonlinear_arith)
            requires
                p >= 0,
                m > 0,
        ;
        lemma_div_by_multiple(p, m);
        lemma_mul_is_commutative(p, m);
        lemma_div_is_ordered_by_denominator(p * m, m, m + ppm);
        lemma_div_is_ordered_by_denominator(p * m, m - ppm, m);
        lemma_div_pos_is_pos(p * m, m + ppm);
    }
}

/// A combination is no stronger than its weakest input: the sum, the maximum
/// and the repetition of quantities each carry a provenance ranked no higher
/// than anything they were made from.
pub proof fn lemma_combination_is_no_stronger(
    a: Quantity,
    b: Quantity,
    times: Interval,
    times_prov: Provenance,
)
    ensures
        sum_of(a, b) matches Ok(s) ==> rank(s.provenance()) <= rank(a.provenance()) && rank(
            s.provenance(),
        ) <= rank(b.provenance()),
        max_of(a, b) matches Ok(m) ==> rank(m.provenance()) <= rank(a.provenance()) && rank(
            m.provenance(),
        ) <= rank(b.provenance()),
        repeat_of(a, times, times_prov) matches Ok(r) ==> rank(r.provenance()) <= rank(
            a.provenance(),
        ) && rank(r.provenance()) <= rank(times_prov),
{
}

/// Quantities in different units never combine: a sum or a maximum across
/// units is refused, and the refusal names both units.
pub proof fn lemma_units_never_mix(a: Quantity, b: Quantity)
    requires
        a.unit() != b.unit(),
    ensures
        sum_of(a, b) == Err::<Quantity, Refusal>(
            Refusal::UnitMismatch { left: a.unit(), right: b.unit() },
        ),
        max_of(a, b) == Err::<Quantity, Refusal>(
            Refusal::UnitMismatch { left: a.unit(), right: b.unit() },
        ),
{
}

} // verus!
