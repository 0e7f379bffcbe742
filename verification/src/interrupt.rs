//! Declared interrupts, and what a blackout window does to them.
//!
//! **Latency** asks whether the blackout outlasts a deadline. **Overrun** asks
//! whether more arrivals land during the blackout than the buffer holds. Both
//! can be unanswerable, and that is a verdict rather than an error.
use vstd::prelude::*;
use crate::interval::{group_interval, Interval};
use crate::provenance::{rank, weaker, Provenance};
use crate::quantity::{group_quantity, temporal, Quantity, Unit};
use crate::source::SourceId;
use crate::Count;

verus! {

broadcast use {group_interval, group_quantity};

/// A declared interrupt, by index into the register's interrupt table.
#[derive(Clone, Copy, PartialEq, Eq, Structural, Debug, Hash)]
pub struct InterruptId(pub u16);

/// How often an interrupt can arrive.
#[derive(Clone, Copy, Debug)]
pub enum Arrival {
    /// Periodic, clocked by a declared source.
    Periodic { source: SourceId, period: Quantity },
    /// Bounded only: no two arrivals land closer together than this.
    MinInterarrival(Quantity),
}

/// The shortest gap between two arrivals.
pub open spec fn gap_of(a: Arrival) -> Quantity {
    match a {
        Arrival::Periodic { period, .. } => period,
        Arrival::MinInterarrival(q) => q,
    }
}

impl Arrival {
    /// The shortest gap between two arrivals, which is what a blackout has to
    /// be measured against.
    pub fn shortest_gap(&self) -> (r: Quantity)
        ensures
            r == gap_of(*self),
    {
        match self {
            Arrival::Periodic { period, .. } => *period,
            Arrival::MinInterarrival(q) => *q,
        }
    }

    /// The clock this arrival is counted against, where it has one.
    pub fn source(&self) -> (r: Option<SourceId>)
        ensures
            r == (match *self {
                Arrival::Periodic { source, .. } => Some(source),
                Arrival::MinInterarrival(_) => None,
            }),
    {
        match self {
            Arrival::Periodic { source, .. } => Some(*source),
            Arrival::MinInterarrival(_) => None,
        }
    }
}

/// What becomes of an arrival the buffer had no room for.
#[derive(Clone, Copy, PartialEq, Eq, Structural, Debug, Hash)]
pub enum Consequence {
    /// Lost with no record kept.
    LostSilently,
    /// Lost, and the loss recorded somewhere a reader can find it.
    LostAndLogged,
    /// The source retries, so the arrival is delayed rather than lost.
    Retried,
}

/// A declared interrupt.
#[derive(Clone, Copy, Debug)]
pub struct Interrupt {
    pub id: InterruptId,
    pub arrival: Arrival,
    /// How long the handler runs. Declared rather than derived.
    pub cost: Quantity,
    /// Priority, numbered the way the hardware numbers it: a lower number
    /// preempts a higher one.
    pub priority: u8,
    /// The latency this interrupt can absorb before it has missed.
    pub deadline: Option<Quantity>,
    /// How many arrivals can queue before one is lost.
    pub depth: u32,
    /// What a dropped arrival costs.
    pub on_drop: Consequence,
}

impl Interrupt {
    /// Whether this interrupt preempts `other`.
    pub fn preempts(&self, other: &Interrupt) -> (r: bool)
        ensures
            r == (self.priority < other.priority),
    {
        self.priority < other.priority
    }
}

/// What a comparison was missing.
#[derive(Clone, Copy, PartialEq, Eq, Structural, Debug)]
pub enum Missing {
    /// The blackout is counted in something that has no path to a time at all.
    NoPathToTime(Unit),
    /// Both sides reach a time, and no declared conversion connects them.
    NoConversion { from: Unit, to: Unit },
    /// The interrupt declares no deadline, so there is no latency to judge.
    NoDeadline,
    /// An arrival gap of zero bounds nothing.
    UnboundedArrivals,
    /// The arithmetic left the width the core holds.
    Overflow,
}

/// The result of one comparison.
#[derive(Clone, Copy, PartialEq, Eq, Structural, Debug)]
pub enum Verdict {
    /// The bound holds across the whole declared range.
    Met,
    /// The bound can be breached.
    Missed,
    /// The comparison cannot be made, and this names what is missing.
    Unanswerable(Missing),
}

impl Verdict {
    /// Whether the comparison was made.
    pub fn is_answerable(self) -> (r: bool)
        ensures
            r == !(self is Unanswerable),
    {
        !matches!(self, Verdict::Unanswerable(_))
    }
}

/// A verdict, what it rests on, and what was measured to reach it.
#[derive(Clone, Copy, PartialEq, Eq, Structural, Debug)]
pub struct Judgement {
    pub verdict: Verdict,
    /// The weakest provenance among everything the verdict derives from.
    pub provenance: Provenance,
    /// The arrival count for an overrun judgement, or the blackout for a
    /// latency one. Absent where the comparison could not be made.
    pub measured: Option<Quantity>,
}

impl Judgement {
    fn withheld(missing: Missing, provenance: Provenance) -> (r: Self)
        ensures
            r == (Judgement { verdict: Verdict::Unanswerable(missing), provenance, measured: None }),
    {
        Self { verdict: Verdict::Unanswerable(missing), provenance, measured: None }
    }
}

/// Why two units will not meet: a unit with no path to a time is a different
/// finding from two temporal units with no conversion between them.
pub open spec fn mismatch_of(from: Unit, to: Unit) -> Missing {
    if temporal(from) {
        Missing::NoConversion { from, to }
    } else {
        Missing::NoPathToTime(from)
    }
}

/// Why two units will not meet.
pub(crate) fn mismatch(from: Unit, to: Unit) -> (r: Missing)
    ensures
        r == mismatch_of(from, to),
{
    if from.is_temporal() {
        Missing::NoConversion { from, to }
    } else {
        Missing::NoPathToTime(from)
    }
}

/// How many arrivals can land inside a blackout: at most `floor(b / gap) + 1`
/// for the longest blackout against the shortest gap, and at least the
/// shortest blackout over the longest gap.
pub open spec fn arrivals_of(blackout: Quantity, gap: Quantity) -> Result<Quantity, Missing> {
    if blackout.unit() != gap.unit() {
        Err(mismatch_of(blackout.unit(), gap.unit()))
    } else if gap.lo() == 0 {
        Err(Missing::UnboundedArrivals)
    } else if blackout.hi() / gap.lo() + 1 > Count::MAX {
        Err(Missing::Overflow)
    } else {
        let most = (blackout.hi() / gap.lo() + 1) as Count;
        let fewest = (blackout.lo() / gap.hi()) as Count;
        Ok(
            Quantity::of(
                Interval::from_ends(if fewest <= most { fewest } else { most }, most),
                Unit::Iterations,
                weaker(blackout.provenance(), gap.provenance()),
            ),
        )
    }
}

/// How many arrivals can land inside a window.
///
/// A window of length `b` admits at most `floor(b / gap) + 1` arrivals, because
/// one can land at the instant the window opens and the rest follow no faster
/// than the shortest gap.
pub fn arrivals_during(blackout: Quantity, gap: Quantity) -> (r: Result<Quantity, Missing>)
    ensures
        r == arrivals_of(blackout, gap),
{
    if blackout.unit() != gap.unit() {
        return Err(mismatch(blackout.unit(), gap.unit()));
    }
    let gap_lo = gap.interval().lo();
    let gap_hi = gap.interval().hi();
    if gap_lo == 0 {
        return Err(Missing::UnboundedArrivals);
    }
    let per = blackout.interval().hi() / gap_lo;
    let most = match per.checked_add(1) {
        Some(m) => m,
        None => return Err(Missing::Overflow),
    };
    // The fewest is the shortest blackout against the longest gap, and it can
    // be none at all where the window closes before a second arrival is due.
    let fewest = blackout.interval().lo() / gap_hi;
    let low = if fewest <= most {
        fewest
    } else {
        most
    };
    let iv = match Interval::new(low, most) {
        Some(iv) => iv,
        None => return Err(Missing::Overflow),
    };
    Ok(Quantity::new(iv, Unit::Iterations, blackout.provenance().join(gap.provenance())))
}

/// The latency judgement on a blackout, as `Interrupt::latency` makes it.
pub open spec fn latency_of(irq: Interrupt, blackout: Quantity) -> Judgement {
    match irq.deadline {
        None => Judgement {
            verdict: Verdict::Unanswerable(Missing::NoDeadline),
            provenance: blackout.provenance(),
            measured: None,
        },
        Some(deadline) => if blackout.unit() != deadline.unit() {
            Judgement {
                verdict: Verdict::Unanswerable(mismatch_of(blackout.unit(), deadline.unit())),
                provenance: weaker(blackout.provenance(), deadline.provenance()),
                measured: None,
            }
        } else {
            Judgement {
                verdict: if blackout.hi() > deadline.lo() {
                    Verdict::Missed
                } else {
                    Verdict::Met
                },
                provenance: weaker(blackout.provenance(), deadline.provenance()),
                measured: Some(blackout),
            }
        },
    }
}

/// The overrun judgement on a blackout, as `Interrupt::overrun` makes it.
pub open spec fn overrun_of(irq: Interrupt, blackout: Quantity) -> Judgement {
    let gap = gap_of(irq.arrival);
    match arrivals_of(blackout, gap) {
        Err(missing) => Judgement {
            verdict: Verdict::Unanswerable(missing),
            provenance: weaker(blackout.provenance(), gap.provenance()),
            measured: None,
        },
        Ok(arrivals) => Judgement {
            verdict: if arrivals.hi() > irq.depth {
                Verdict::Missed
            } else {
                Verdict::Met
            },
            provenance: arrivals.provenance(),
            measured: Some(arrivals),
        },
    }
}

impl Interrupt {
    /// Whether this blackout can outlast the declared deadline.
    ///
    /// The comparison is made against the tightest end of the deadline and the
    /// longest end of the blackout, so a deadline that can be breached is
    /// reported as breached.
    pub fn latency(&self, blackout: Quantity) -> (r: Judgement)
        ensures
            r == latency_of(*self, blackout),
    {
        let deadline = match self.deadline {
            Some(d) => d,
            None => return Judgement::withheld(Missing::NoDeadline, blackout.provenance()),
        };
        if blackout.unit() != deadline.unit() {
            return Judgement::withheld(
                mismatch(blackout.unit(), deadline.unit()),
                blackout.provenance().join(deadline.provenance()),
            );
        }
        let provenance = blackout.provenance().join(deadline.provenance());
        let verdict = if blackout.interval().hi() > deadline.interval().lo() {
            Verdict::Missed
        } else {
            Verdict::Met
        };
        Judgement { verdict, provenance, measured: Some(blackout) }
    }

    /// Whether this blackout can deliver more arrivals than the buffer holds.
    pub fn overrun(&self, blackout: Quantity) -> (r: Judgement)
        ensures
            r == overrun_of(*self, blackout),
    {
        let gap = self.arrival.shortest_gap();
        match arrivals_during(blackout, gap) {
            Err(missing) => Judgement::withheld(
                missing,
                blackout.provenance().join(gap.provenance()),
            ),
            Ok(arrivals) => {
                let verdict = if arrivals.interval().hi() > self.depth as Count {
                    Verdict::Missed
                } else {
                    Verdict::Met
                };
                Judgement { verdict, provenance: arrivals.provenance(), measured: Some(arrivals) }
            },
        }
    }
}

/// What a run of comparisons found.
///
/// The withheld count is reported alongside the rest so that an exclusion never
/// reads as a clean sweep.
#[derive(Clone, Copy, PartialEq, Eq, Structural, Debug, Default)]
pub struct Sweep {
    pub met: u32,
    pub missed: u32,
    pub withheld: u32,
}

/// Whether the count a judgement lands in has room for one more.
pub open spec fn sweep_has_room(s: Sweep, j: Judgement) -> bool {
    match j.verdict {
        Verdict::Met => s.met < u32::MAX,
        Verdict::Missed => s.missed < u32::MAX,
        Verdict::Unanswerable(_) => s.withheld < u32::MAX,
    }
}

impl Sweep {
    /// Count one judgement under its verdict.
    pub fn record(&mut self, j: Judgement)
        requires
            sweep_has_room(*old(self), j),
        ensures
            *final(self) == (match j.verdict {
                Verdict::Met => Sweep { met: (old(self).met + 1) as u32, ..*old(self) },
                Verdict::Missed => Sweep { missed: (old(self).missed + 1) as u32, ..*old(self) },
                Verdict::Unanswerable(_) => Sweep {
                    withheld: (old(self).withheld + 1) as u32,
                    ..*old(self)
                },
            }),
    {
        match j.verdict {
            Verdict::Met => self.met = self.met + 1,
            Verdict::Missed => self.missed = self.missed + 1,
            Verdict::Unanswerable(_) => self.withheld = self.withheld + 1,
        }
    }

    /// Whether every comparison in the run was made.
    pub fn is_complete(&self) -> (r: bool)
        ensures
            r == (self.withheld == 0),
    {
        self.withheld == 0
    }
}

/// Whether `x` lies in the range `q` declares.
pub open spec fn within(q: Quantity, x: int) -> bool {
    q.lo() <= x <= q.hi()
}

/// A latency judgement compares every blackout the declaration allows with
/// every deadline it allows: it is met exactly when no blackout in the range
/// outlasts any deadline in the range, and missed exactly when some blackout
/// can outlast some deadline.
pub proof fn lemma_latency_met_iff_every_blackout_fits(irq: Interrupt, blackout: Quantity)
    requires
        irq.deadline is Some,
        blackout.unit() == irq.deadline->Some_0.unit(),
        blackout.lo() <= blackout.hi(),
        irq.deadline->Some_0.lo() <= irq.deadline->Some_0.hi(),
    ensures
        ({
            let d = irq.deadline->Some_0;
            &&& latency_of(irq, blackout).verdict is Met <==> forall|x: int, y: int|
                #[trigger] within(blackout, x) && #[trigger] within(d, y) ==> x <= y
            &&& latency_of(irq, blackout).verdict is Missed <==> exists|x: int, y: int|
                #[trigger] within(blackout, x) && #[trigger] within(d, y) && x > y
            &&& latency_of(irq, blackout).measured == Some(blackout)
        }),
{
    let d = irq.deadline->Some_0;
    assert(within(blackout, blackout.hi() as int) && within(d, d.lo() as int));
}

/// The most arrivals a blackout admits is counted over its longest end against
/// the shortest gap: exactly the number of gap-spaced instants, the first at
/// the opening, that fit in the longest blackout. The fewest never exceeds the
/// most, and is otherwise the number of whole longest gaps the shortest
/// blackout spans.
pub proof fn lemma_arrivals_cover_the_longest_blackout(blackout: Quantity, gap: Quantity)
    ensures
        arrivals_of(blackout, gap) is Ok <==> blackout.unit() == gap.unit() && gap.lo() > 0
            && blackout.hi() / gap.lo() < Count::MAX,
        arrivals_of(blackout, gap) matches Ok(a) ==> {
            &&& a.unit() == Unit::Iterations
            &&& a.hi() >= 1
            &&& (a.hi() - 1) * gap.lo() <= blackout.hi()
            &&& blackout.hi() < a.hi() * gap.lo()
            &&& a.lo() <= a.hi()
            &&& a.lo() * gap.hi() <= blackout.lo()
            &&& gap.hi() > 0 ==> a.lo() == a.hi() || blackout.lo() < (a.lo() + 1) * gap.hi()
        },
{
    if arrivals_of(blackout, gap) is Ok {
        let g = gap.lo() as int;
        let b = blackout.hi() as int;
        let q = b / g;
        assert(q * g <= b < (q + 1) * g) by (nonlinear_arith)
            requires
                g > 0,
                b >= 0,
                q == b / g,
        ;
        let a = arrivals_of(blackout, gap)->Ok_0;
        assert(a.hi() == q + 1);
        assert((a.hi() - 1) * g == q * g);
        if gap.hi() > 0 {
            let f = blackout.lo() / gap.hi();
            assert(f * gap.hi() <= blackout.lo() < (f + 1) * gap.hi()) by (nonlinear_arith)
                requires
                    gap.hi() > 0,
                    f == blackout.lo() / gap.hi(),
            ;
            assert(a.lo() * gap.hi() <= f * gap.hi()) by (nonlinear_arith)
                requires
                    a.lo() <= f,
            ;
        } else {
            assert(a.lo() * gap.hi() == 0) by (nonlinear_arith)
                requires
                    gap.hi() == 0,
            ;
        }
    }
}

/// A buffer overruns exactly when the longest blackout spans as many shortest
/// gaps as the buffer holds arrivals: with `depth` slots, a blackout of at
/// least `depth * gap` admits `depth + 1` arrivals, and a shorter one does not.
pub proof fn lemma_overrun_iff_blackout_spans_the_buffer(irq: Interrupt, blackout: Quantity)
    ensures
        ({
            let g = gap_of(irq.arrival);
            &&& overrun_of(irq, blackout).verdict is Missed <==> arrivals_of(blackout, g) is Ok
                && irq.depth * g.lo() <= blackout.hi()
            &&& overrun_of(irq, blackout).verdict is Met <==> arrivals_of(blackout, g) is Ok
                && blackout.hi() < irq.depth * g.lo()
        }),
{
    let g = gap_of(irq.arrival);
    lemma_arrivals_cover_the_longest_blackout(blackout, g);
    if arrivals_of(blackout, g) is Ok {
        let a = arrivals_of(blackout, g)->Ok_0;
        let n = a.hi() as int;
        let gl = g.lo() as int;
        let b = blackout.hi() as int;
        let dp = irq.depth as int;
        assert(n > dp <==> dp * gl <= b) by (nonlinear_arith)
            requires
                gl > 0,
                dp >= 0,
                (n - 1) * gl <= b,
                b < n * gl,
        {
            if n > dp {
                assert(dp * gl <= (n - 1) * gl);
            } else {
                assert(dp * gl >= n * gl);
            }
        }
    }
}

/// A blackout counted in something with no path to a time is never judged,
/// against a deadline or a gap that is itself a time.
pub proof fn lemma_untimed_blackout_never_judged(irq: Interrupt, blackout: Quantity)
    requires
        !temporal(blackout.unit()),
        irq.deadline matches Some(d) ==> temporal(d.unit()),
        temporal(gap_of(irq.arrival).unit()),
    ensures
        latency_of(irq, blackout).verdict is Unanswerable,
        overrun_of(irq, blackout).verdict is Unanswerable,
{
}

/// A verdict carries the weakest provenance among the declarations it rests
/// on: it is never stronger than the blackout, nor than the arrival gap for an
/// overrun, nor than the deadline for a latency it judged.
pub proof fn lemma_verdict_no_stronger_than_inputs(irq: Interrupt, blackout: Quantity)
    ensures
        rank(overrun_of(irq, blackout).provenance) <= rank(blackout.provenance()),
        rank(overrun_of(irq, blackout).provenance) <= rank(gap_of(irq.arrival).provenance()),
        rank(latency_of(irq, blackout).provenance) <= rank(blackout.provenance()),
        irq.deadline matches Some(d) ==> rank(latency_of(irq, blackout).provenance) <= rank(
            d.provenance(),
        ),
{
}

/// Priority is a strict order: nothing preempts itself, and no two interrupts
/// preempt each other.
pub proof fn lemma_preemption_strict(a: Interrupt, b: Interrupt)
    ensures
        !(a.priority < a.priority),
        !(a.priority < b.priority && b.priority < a.priority),
{
}

} // verus!
