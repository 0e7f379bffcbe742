//! Whether a declared set of interrupts keeps up.
//!
//! **Utilisation** is `Σ C/T` over the set, in parts per million. A set
//! demanding more than all of the time it has cannot be rescued by any
//! ordering. **Response time** is the fixed point of
//! `R = C + B + Σ over higher priorities of ceil(R / T) * C`, where the
//! blocking term `B` is an interrupts-off window.
use vstd::prelude::*;
use crate::interrupt::{gap_of, mismatch, mismatch_of, Interrupt, InterruptId, Missing};
use crate::interval::{group_interval, Interval};
use crate::provenance::{weaker, Provenance};
use crate::quantity::{ceil_div, group_quantity, Quantity, Unit};
use crate::Count;

verus! {

broadcast use {group_interval, group_quantity};

/// Utilisation is carried in parts per million, so it stays exact integer
/// arithmetic. Unity is a million.
pub const FULLY_UTILISED: Count = 1_000_000;

/// A bound on the recurrence. A response time that has not settled by here is
/// not going to, and the set is reported as unable to keep up.
pub open spec fn max_rounds() -> nat {
    64
}

/// What the analysis concluded about one interrupt.
#[derive(Clone, Copy, PartialEq, Eq, Structural, Debug)]
pub enum Schedulability {
    /// The response time settled inside the deadline.
    Keeps {
        /// The worst-case response time the recurrence settled on.
        response: Quantity,
        /// How much deadline was left over.
        margin: Quantity,
        /// Rounds the recurrence took to settle.
        rounds: u32,
    },
    /// The response time passed the deadline, or never settled at all.
    Misses { response: Quantity, rounds: u32 },
    /// The set demands more time than exists, so no ordering rescues it.
    Oversubscribed { utilisation_ppm: Count },
    /// The comparison could not be made, and this names what was missing.
    Unanswerable(Missing),
}

impl Schedulability {
    /// Whether the comparison was made.
    pub fn is_answerable(self) -> (r: bool)
        ensures
            r == !(self is Unanswerable),
    {
        !matches!(self, Schedulability::Unanswerable(_))
    }

    /// Whether the interrupt keeps up.
    pub fn keeps_up(self) -> (r: bool)
        ensures
            r == (self is Keeps),
    {
        matches!(self, Schedulability::Keeps { .. })
    }
}

/// A verdict and the provenance it rests on.
#[derive(Clone, Copy, PartialEq, Eq, Structural, Debug)]
pub struct Analysis {
    pub verdict: Schedulability,
    pub provenance: Provenance,
}

/// A declared set of interrupts, judged together.
#[derive(Debug)]
pub struct Schedule {
    interrupts: Vec<Interrupt>,
}

impl View for Schedule {
    type V = Seq<Interrupt>;

    closed spec fn view(&self) -> Seq<Interrupt> {
        self.interrupts@
    }
}

impl Default for Schedule {
    fn default() -> (r: Self)
        ensures
            r@ == Seq::<Interrupt>::empty(),
    {
        Self { interrupts: Vec::new() }
    }
}

/// The first declared interrupt with this identifier.
pub open spec fn find_irq(s: Seq<Interrupt>, id: InterruptId) -> Option<Interrupt>
    decreases s.len(),
{
    if s.len() == 0 {
        None
    } else if s[0].id == id {
        Some(s[0])
    } else {
        find_irq(s.drop_first(), id)
    }
}

/// The utilisation of the interrupts in `s`, on top of `total` at provenance
/// `prov`: each contributes its longest cost over its shortest gap, in parts
/// per million, rounded down.
pub open spec fn util_of(s: Seq<Interrupt>, total: Count, prov: Provenance) -> Result<
    (Count, Provenance),
    Missing,
>
    decreases s.len(),
{
    if s.len() == 0 {
        Ok((total, prov))
    } else {
        let irq = s[0];
        let period = gap_of(irq.arrival);
        if period.unit() != irq.cost.unit() {
            Err(mismatch_of(irq.cost.unit(), period.unit()))
        } else if period.lo() == 0 {
            Err(Missing::UnboundedArrivals)
        } else if irq.cost.hi() * FULLY_UTILISED > Count::MAX {
            Err(Missing::Overflow)
        } else {
            let share = (irq.cost.hi() * FULLY_UTILISED) / (period.lo() as int);
            if total + share > Count::MAX {
                Err(Missing::Overflow)
            } else {
                util_of(
                    s.drop_first(),
                    (total + share) as Count,
                    weaker(weaker(prov, irq.cost.provenance()), period.provenance()),
                )
            }
        }
    }
}

/// The interrupts in `s` that preempt `irq`, in declaration order.
pub open spec fn higher_list(s: Seq<Interrupt>, irq: Interrupt) -> Seq<Interrupt>
    decreases s.len(),
{
    if s.len() == 0 {
        Seq::empty()
    } else {
        let j = s.last();
        higher_list(s.drop_last(), irq) + if j.priority < irq.priority && j.id != irq.id {
            seq![j]
        } else {
            Seq::empty()
        }
    }
}

/// Whether every preempting interrupt is costed and spaced in `unit`, and the
/// provenance accumulated over them; or the first mismatch and the provenance
/// reached before it.
pub open spec fn units_of(hs: Seq<Interrupt>, unit: Unit, prov: Provenance) -> Result<
    Provenance,
    (Missing, Provenance),
>
    decreases hs.len(),
{
    if hs.len() == 0 {
        Ok(prov)
    } else {
        let j = hs[0];
        if j.cost.unit() != unit || gap_of(j.arrival).unit() != unit {
            Err((mismatch_of(j.cost.unit(), unit), prov))
        } else {
            units_of(
                hs.drop_first(),
                unit,
                weaker(weaker(prov, j.cost.provenance()), gap_of(j.arrival).provenance()),
            )
        }
    }
}

/// One round of the recurrence.
#[derive(Clone, Copy, PartialEq, Eq, Structural, Debug)]
pub enum Round {
    /// A preempting interrupt can arrive arbitrarily fast.
    Unbounded,
    /// The interference left the width the core holds.
    Overflowed,
    /// The next estimate of the response time.
    Next(Count),
}

/// One round of the recurrence at estimate `r`: `next` plus `ceil(r / T) * C`
/// for each preempting interrupt in turn.
pub open spec fn round_of(hs: Seq<Interrupt>, r: Count, next: Count) -> Round
    decreases hs.len(),
{
    if hs.len() == 0 {
        Round::Next(next)
    } else {
        let j = hs[0];
        let period = gap_of(j.arrival).lo();
        if period == 0 {
            Round::Unbounded
        } else {
            let v = ceil_div(r as int, period as int) * j.cost.hi();
            if v > Count::MAX || next + v > Count::MAX {
                Round::Overflowed
            } else {
                round_of(hs.drop_first(), r, (next + v) as Count)
            }
        }
    }
}

/// A response from `lo` to `hi` in `unit`.
pub open spec fn span_q(lo: Count, hi: Count, unit: Unit, prov: Provenance) -> Quantity {
    Quantity::of(Interval::from_ends(lo, hi), unit, prov)
}

/// The recurrence from estimate `r` at round `round`.
pub open spec fn iterate_of(
    hs: Seq<Interrupt>,
    base: Count,
    limit: Count,
    deadline_hi: Count,
    r: Count,
    round: nat,
    unit: Unit,
    prov: Provenance,
) -> Schedulability
    decreases max_rounds() + 1 - round,
{
    if round > max_rounds() || round == 0 {
        Schedulability::Misses { response: span_q(base, r, unit, prov), rounds: 64 }
    } else {
        match round_of(hs, r, base) {
            Round::Unbounded => Schedulability::Unanswerable(Missing::UnboundedArrivals),
            Round::Overflowed => Schedulability::Misses {
                response: span_q(base, Count::MAX, unit, prov),
                rounds: round as u32,
            },
            Round::Next(next) => if next > limit {
                Schedulability::Misses {
                    response: span_q(base, next, unit, prov),
                    rounds: round as u32,
                }
            } else if next == r {
                Schedulability::Keeps {
                    response: span_q(base, r, unit, prov),
                    margin: span_q(
                        (limit - r) as Count,
                        (deadline_hi - r) as Count,
                        unit,
                        prov,
                    ),
                    rounds: round as u32,
                }
            } else {
                iterate_of(hs, base, limit, deadline_hi, next, round + 1, unit, prov)
            },
        }
    }
}

/// The analysis `Schedule::response_time` makes.
pub open spec fn response_of(s: Seq<Interrupt>, target: InterruptId, blocking: Quantity) -> Analysis {
    match find_irq(s, target) {
        None => Analysis {
            verdict: Schedulability::Unanswerable(Missing::NoDeadline),
            provenance: blocking.provenance(),
        },
        Some(irq) => {
            let unit = irq.cost.unit();
            let p0 = weaker(irq.cost.provenance(), blocking.provenance());
            if blocking.unit() != unit {
                Analysis {
                    verdict: Schedulability::Unanswerable(mismatch_of(blocking.unit(), unit)),
                    provenance: p0,
                }
            } else {
                match util_of(s, 0, Provenance::Derived) {
                    Err(m) => Analysis { verdict: Schedulability::Unanswerable(m), provenance: p0 },
                    Ok(found) => {
                        let p1 = weaker(p0, found.1);
                        if found.0 > FULLY_UTILISED {
                            Analysis {
                                verdict: Schedulability::Oversubscribed { utilisation_ppm: found.0 },
                                provenance: p1,
                            }
                        } else {
                            match irq.deadline {
                                None => Analysis {
                                    verdict: Schedulability::Unanswerable(Missing::NoDeadline),
                                    provenance: p1,
                                },
                                Some(d) => if d.unit() != unit {
                                    Analysis {
                                        verdict: Schedulability::Unanswerable(
                                            mismatch_of(unit, d.unit()),
                                        ),
                                        provenance: p1,
                                    }
                                } else {
                                    let p2 = weaker(p1, d.provenance());
                                    let hs = higher_list(s, irq);
                                    match units_of(hs, unit, p2) {
                                        Err(fault) => Analysis {
                                            verdict: Schedulability::Unanswerable(fault.0),
                                            provenance: fault.1,
                                        },
                                        Ok(p3) => if irq.cost.hi() + blocking.hi() > Count::MAX {
                                            Analysis {
                                                verdict: Schedulability::Unanswerable(
                                                    Missing::Overflow,
                                                ),
                                                provenance: p3,
                                            }
                                        } else {
                                            let base = (irq.cost.hi() + blocking.hi()) as Count;
                                            Analysis {
                                                verdict: iterate_of(
                                                    hs,
                                                    base,
                                                    d.lo(),
                                                    d.hi(),
                                                    base,
                                                    1,
                                                    unit,
                                                    p3,
                                                ),
                                                provenance: p3,
                                            }
                                        },
                                    }
                                },
                            }
                        }
                    },
                }
            }
        },
    }
}

/// The interference the interrupts in `hs` put into a window of `r`:
/// `Σ ceil(r / T) * C`, each at its shortest gap and its longest cost.
pub open spec fn interference(hs: Seq<Interrupt>, r: int) -> int
    decreases hs.len(),
{
    if hs.len() == 0 {
        0
    } else {
        ceil_div(r, gap_of(hs[0].arrival).lo() as int) * hs[0].cost.hi() + interference(
            hs.drop_first(),
            r,
        )
    }
}

/// Whether `r` solves the recurrence `R = base + Σ ceil(R / T) * C`.
pub open spec fn settles(hs: Seq<Interrupt>, base: int, r: int) -> bool {
    r == base + interference(hs, r)
}

/// Whether every interrupt in `hs` has a positive shortest gap.
pub open spec fn bounded_arrivals(hs: Seq<Interrupt>) -> bool {
    forall|k: int| 0 <= k < hs.len() ==> gap_of(#[trigger] hs[k].arrival).lo() > 0
}

/// A round that completes adds exactly the interference.
proof fn lemma_round_is_interference(hs: Seq<Interrupt>, r: Count, next: Count)
    ensures
        round_of(hs, r, next) matches Round::Next(n) ==> n == next + interference(hs, r as int)
            && bounded_arrivals(hs),
    decreases hs.len(),
{
    if hs.len() > 0 {
        let j = hs[0];
        let period = gap_of(j.arrival).lo();
        if period != 0 {
            let v = ceil_div(r as int, period as int) * j.cost.hi();
            if v <= Count::MAX && next + v <= Count::MAX {
                lemma_round_is_interference(hs.drop_first(), r, (next + v) as Count);
                if round_of(hs, r, next) is Next {
                    assert forall|k: int| 0 <= k < hs.len() implies gap_of(
                        #[trigger] hs[k].arrival,
                    ).lo() > 0 by {
                        if k > 0 {
                            assert(hs[k] == hs.drop_first()[k - 1]);
                        }
                    }
                }
            }
        }
    }
}

/// A longer window admits no fewer releases.
proof fn lemma_ceil_div_monotone(a: int, b: int, t: int)
    requires
        0 <= a <= b,
        t > 0,
    ensures
        0 <= ceil_div(a, t) <= ceil_div(b, t),
{
    vstd::arithmetic::div_mod::lemma_div_is_ordered(a, b, t);
    vstd::arithmetic::div_mod::lemma_fundamental_div_mod(a, t);
    vstd::arithmetic::div_mod::lemma_fundamental_div_mod(b, t);
    vstd::arithmetic::div_mod::lemma_div_pos_is_pos(a, t);
    if a / t == b / t && a % t != 0 {
        assert(b % t != 0);
    }
}

/// Interference never falls as the window grows.
proof fn lemma_interference_monotone(hs: Seq<Interrupt>, a: int, b: int)
    requires
        0 <= a <= b,
        bounded_arrivals(hs),
    ensures
        0 <= interference(hs, a) <= interference(hs, b),
    decreases hs.len(),
{
    if hs.len() > 0 {
        let t = gap_of(hs[0].arrival).lo() as int;
        assert(gap_of(hs[0].arrival).lo() > 0);
        assert(bounded_arrivals(hs.drop_first())) by {
            assert forall|k: int| 0 <= k < hs.drop_first().len() implies gap_of(
                #[trigger] hs.drop_first()[k].arrival,
            ).lo() > 0 by {
                assert(hs.drop_first()[k] == hs[k + 1]);
            }
        }
        lemma_interference_monotone(hs.drop_first(), a, b);
        lemma_ceil_div_monotone(a, b, t);
        let c = hs[0].cost.hi() as int;
        let x = ceil_div(a, t);
        let y = ceil_div(b, t);
        assert(0 <= x * c <= y * c) by (nonlinear_arith)
            requires
                0 <= x <= y,
                c >= 0,
        ;
    }
}

/// The recurrence, started at or below a solution, reports a response no
/// larger than that solution, and what it reports is itself a solution.
proof fn lemma_iteration_stays_below(
    hs: Seq<Interrupt>,
    base: Count,
    limit: Count,
    deadline_hi: Count,
    r: Count,
    round: nat,
    unit: Unit,
    prov: Provenance,
    f: int,
)
    requires
        iterate_of(hs, base, limit, deadline_hi, r, round, unit, prov) is Keeps,
    ensures
        iterate_of(hs, base, limit, deadline_hi, r, round, unit, prov) matches
            Schedulability::Keeps { response, .. } && ((r <= f && settles(hs, base as int, f))
            ==> response.hi() <= f) && settles(hs, base as int, response.hi() as int)
            && response.lo() == base,
    decreases max_rounds() + 1 - round,
{
    lemma_round_is_interference(hs, r, base);
    if round <= max_rounds() && round != 0 {
        match round_of(hs, r, base) {
            Round::Next(next) => {
                if r <= f {
                    lemma_interference_monotone(hs, r as int, f);
                }
                if next <= limit && next != r {
                    lemma_iteration_stays_below(
                        hs,
                        base,
                        limit,
                        deadline_hi,
                        next,
                        round + 1,
                        unit,
                        prov,
                        f,
                    );
                }
            },
            _ => {},
        }
    }
}

/// The interference on `irq` comes from exactly the other interrupts that
/// preempt it, those with a strictly lower priority number, kept in
/// declaration order: an interrupt at the same priority never interferes.
pub proof fn lemma_interference_from_strictly_higher_priorities(s: Seq<Interrupt>, irq: Interrupt)
    ensures
        higher_list(s, irq) == s.filter(|j: Interrupt| j.priority < irq.priority && j.id != irq.id),
        forall|j: Interrupt|
            #[trigger] higher_list(s, irq).contains(j) <==> s.contains(j) && j.priority
                < irq.priority && j.id != irq.id,
    decreases s.len(),
{
    reveal(Seq::filter);
    let pred = |j: Interrupt| j.priority < irq.priority && j.id != irq.id;
    if s.len() > 0 {
        lemma_interference_from_strictly_higher_priorities(s.drop_last(), irq);
        let j = s.last();
        if pred(j) {
            assert(s.drop_last().filter(pred) + seq![j] =~= s.drop_last().filter(pred).push(j));
        } else {
            assert(s.drop_last().filter(pred) + Seq::<Interrupt>::empty() =~= s.drop_last().filter(
                pred,
            ));
        }
    }
    assert(higher_list(s, irq) == s.filter(pred));
    assert forall|j: Interrupt| #[trigger] higher_list(s, irq).contains(j) <==> s.contains(j)
        && pred(j) by {
        if higher_list(s, irq).contains(j) {
            s.lemma_filter_contains_rev(pred, j);
            let i = choose|i: int| 0 <= i < s.filter(pred).len() && s.filter(pred)[i] == j;
            s.lemma_filter_pred(pred, i);
        }
        if s.contains(j) && pred(j) {
            let i = choose|i: int| 0 <= i < s.len() && s[i] == j;
            s.lemma_filter_contains(pred, i);
        }
    }
}

/// An interrupt that nothing preempts suffers no interference: where it keeps
/// up, its worst response is its base response, its own cost plus the
/// blocking, with nothing added by interrupts at its own or lower priority.
pub proof fn lemma_unpreempted_response_is_its_base(
    s: Seq<Interrupt>,
    target: InterruptId,
    blocking: Quantity,
)
    ensures
        response_of(s, target, blocking).verdict matches Schedulability::Keeps { response, .. }
            ==> (forall|k: int|
            0 <= k < s.len() ==> !(#[trigger] s[k].priority < find_irq(s, target)->Some_0.priority
                && s[k].id != find_irq(s, target)->Some_0.id)) ==> response.hi() == response.lo(),
{
    if response_of(s, target, blocking).verdict is Keeps {
        let irq = find_irq(s, target)->Some_0;
        let hs = higher_list(s, irq);
        lemma_response_is_least(s, target, blocking, 0);
        lemma_interference_from_strictly_higher_priorities(s, irq);
        if forall|k: int|
            0 <= k < s.len() ==> !(#[trigger] s[k].priority < irq.priority && s[k].id != irq.id) {
            if hs.len() > 0 {
                assert(hs.contains(hs[0]));
                let k = choose|k: int| 0 <= k < s.len() && s[k] == hs[0];
                assert(!(s[k].priority < irq.priority && s[k].id != irq.id));
            }
            assert(hs.len() == 0);
        }
    }
}

/// A response that keeps up is the least solution of the recurrence
/// `R = C + B + Σ over higher priorities of ceil(R / T) * C` at or above
/// `C + B`: it solves it, and no solution from `C + B` on is smaller.
pub proof fn lemma_response_is_least(s: Seq<Interrupt>, target: InterruptId, blocking: Quantity, f: int)
    requires
        response_of(s, target, blocking).verdict is Keeps,
    ensures
        response_of(s, target, blocking).verdict matches Schedulability::Keeps { response, .. }
            && {
            let hs = higher_list(s, find_irq(s, target)->Some_0);
            &&& settles(hs, response.lo() as int, response.hi() as int)
            &&& (response.lo() <= f && settles(hs, response.lo() as int, f)) ==> response.hi() <= f
        },
{
    let irq = find_irq(s, target)->Some_0;
    let hs = higher_list(s, irq);
    let base = (irq.cost.hi() + blocking.hi()) as Count;
    let d = irq.deadline->Some_0;
    let p3 = units_of(hs, irq.cost.unit(), weaker(
        weaker(weaker(irq.cost.provenance(), blocking.provenance()), util_of(s, 0, Provenance::Derived)->Ok_0.1),
        d.provenance(),
    ))->Ok_0;
    let it = iterate_of(hs, base, d.lo(), d.hi(), base, 1, irq.cost.unit(), p3);
    assert(response_of(s, target, blocking).verdict == it);
    lemma_iteration_stays_below(hs, base, d.lo(), d.hi(), base, 1, irq.cost.unit(), p3, f);
}

/// One round of the recurrence, computed.
fn one_round(hs: &Vec<Interrupt>, r: Count, base: Count) -> (out: Round)
    ensures
        out == round_of(hs@, r, base),
        out matches Round::Next(n) ==> n >= base,
{
    let mut next = base;
    let mut i: usize = 0;
    assert(hs@.subrange(0, hs@.len() as int) =~= hs@);
    while i < hs.len()
        invariant
            0 <= i <= hs@.len(),
            next >= base,
            round_of(hs@, r, base) == round_of(hs@.subrange(i as int, hs@.len() as int), r, next),
        decreases hs@.len() - i,
    {
        let ghost rest = hs@.subrange(i as int, hs@.len() as int);
        assert(rest[0] == hs@[i as int]);
        assert(rest.drop_first() =~= hs@.subrange(i + 1, hs@.len() as int));
        let j = hs[i];
        let period = j.arrival.shortest_gap().interval().lo();
        if period == 0 {
            return Round::Unbounded;
        }
        // ceil(r / period) releases of j land inside a window of r.
        proof {
            if r % period != 0 {
                assert(period >= 2);
                vstd::arithmetic::div_mod::lemma_div_is_ordered_by_denominator(
                    r as int,
                    2,
                    period as int,
                );
            }
        }
        let releases = if r % period != 0 {
            r / period + 1
        } else {
            r / period
        };
        let cost = j.cost.interval().hi();
        let v = match releases.checked_mul(cost) {
            Some(v) => v,
            None => return Round::Overflowed,
        };
        next = match next.checked_add(v) {
            Some(n) => n,
            None => return Round::Overflowed,
        };
        i = i + 1;
    }
    proof {
        lemma_round_grows(hs@, r, base);
    }
    Round::Next(next)
}

/// A round only adds to the estimate it starts from.
proof fn lemma_round_grows(hs: Seq<Interrupt>, r: Count, next: Count)
    ensures
        round_of(hs, r, next) matches Round::Next(n) ==> n >= next,
    decreases hs.len(),
{
    if hs.len() > 0 {
        let j = hs[0];
        let period = gap_of(j.arrival).lo();
        if period != 0 {
            let v = ceil_div(r as int, period as int) * j.cost.hi();
            if v <= Count::MAX && next + v <= Count::MAX {
                assert(v >= 0) by (nonlinear_arith)
                    requires
                        v == ceil_div(r as int, period as int) * j.cost.hi(),
                        ceil_div(r as int, period as int) >= 0,
                        j.cost.hi() >= 0,
                ;
                lemma_round_grows(hs.drop_first(), r, (next + v) as Count);
            }
        }
    }
}

impl Schedule {
    /// A schedule over the given interrupts.
    pub fn new(interrupts: Vec<Interrupt>) -> (r: Self)
        ensures
            r@ == interrupts@,
    {
        Self { interrupts }
    }

    /// The first declared interrupt with this identifier.
    pub fn get(&self, id: InterruptId) -> (r: Option<&Interrupt>)
        ensures
            r is None <==> find_irq(self@, id) is None,
            r matches Some(i) ==> find_irq(self@, id) == Some(*i),
    {
        let mut i: usize = 0;
        assert(self.interrupts@.subrange(0, self.interrupts@.len() as int) =~= self.interrupts@);
        while i < self.interrupts.len()
            invariant
                0 <= i <= self.interrupts@.len(),
                find_irq(self.interrupts@, id) == find_irq(
                    self.interrupts@.subrange(i as int, self.interrupts@.len() as int),
                    id,
                ),
            decreases self.interrupts@.len() - i,
        {
            let ghost rest = self.interrupts@.subrange(i as int, self.interrupts@.len() as int);
            assert(rest[0] == self.interrupts@[i as int]);
            if self.interrupts[i].id == id {
                return Some(&self.interrupts[i]);
            }
            assert(rest.drop_first() =~= self.interrupts@.subrange(
                i + 1,
                self.interrupts@.len() as int,
            ));
            i = i + 1;
        }
        None
    }

    /// The share of available time the declared set demands, in parts per
    /// million, and the provenance it rests on.
    ///
    /// Every cost and every period must share a unit, because a ratio across
    /// units means nothing.
    pub fn utilisation_ppm(&self) -> (r: Result<(Count, Provenance), Missing>)
        ensures
            r == util_of(self@, 0, Provenance::Derived),
    {
        let mut total: Count = 0;
        let mut prov = Provenance::Derived;
        let mut i: usize = 0;
        assert(self.interrupts@.subrange(0, self.interrupts@.len() as int) =~= self.interrupts@);
        while i < self.interrupts.len()
            invariant
                0 <= i <= self.interrupts@.len(),
                util_of(self.interrupts@, 0, Provenance::Derived) == util_of(
                    self.interrupts@.subrange(i as int, self.interrupts@.len() as int),
                    total,
                    prov,
                ),
            decreases self.interrupts@.len() - i,
        {
            let ghost rest = self.interrupts@.subrange(i as int, self.interrupts@.len() as int);
            assert(rest[0] == self.interrupts@[i as int]);
            assert(rest.drop_first() =~= self.interrupts@.subrange(
                i + 1,
                self.interrupts@.len() as int,
            ));
            let irq = self.interrupts[i];
            let period = irq.arrival.shortest_gap();
            if period.unit() != irq.cost.unit() {
                return Err(mismatch(irq.cost.unit(), period.unit()));
            }
            let period_lo = period.interval().lo();
            if period_lo == 0 {
                return Err(Missing::UnboundedArrivals);
            }
            // Worst case: the longest cost against the shortest period.
            let scaled = match irq.cost.interval().hi().checked_mul(FULLY_UTILISED) {
                Some(v) => v,
                None => return Err(Missing::Overflow),
            };
            let share = scaled / period_lo;
            total = match total.checked_add(share) {
                Some(t) => t,
                None => return Err(Missing::Overflow),
            };
            prov = prov.join(irq.cost.provenance()).join(period.provenance());
            i = i + 1;
        }
        Ok((total, prov))
    }

    fn higher(&self, irq: &Interrupt) -> (r: Vec<Interrupt>)
        ensures
            r@ == higher_list(self@, *irq),
    {
        let mut out: Vec<Interrupt> = Vec::new();
        let mut i: usize = 0;
        while i < self.interrupts.len()
            invariant
                0 <= i <= self.interrupts@.len(),
                out@ == higher_list(self.interrupts@.subrange(0, i as int), *irq),
            decreases self.interrupts@.len() - i,
        {
            let j = self.interrupts[i];
            assert(self.interrupts@.subrange(0, i + 1).drop_last() =~= self.interrupts@.subrange(
                0,
                i as int,
            ));
            if j.preempts(irq) && j.id != irq.id {
                out.push(j);
            }
            i = i + 1;
        }
        assert(self.interrupts@.subrange(0, self.interrupts@.len() as int) =~= self.interrupts@);
        out
    }

    /// The worst-case response time of one interrupt, given the longest window
    /// in which it can be held off.
    ///
    /// The blocking term is a blackout window: a span where interrupts are off
    /// is a span where even the highest priority cannot run. Where the
    /// interrupt keeps up, its response is a fixed point of the recurrence and
    /// lies within the tightest end of its deadline.
    pub fn response_time(&self, target: InterruptId, blocking: Quantity) -> (r: Analysis)
        ensures
            r == response_of(self@, target, blocking),
            r.verdict matches Schedulability::Keeps { response, margin, .. } ==> {
                let irq = find_irq(self@, target)->Some_0;
                let d = irq.deadline->Some_0;
                &&& find_irq(self@, target) is Some
                &&& irq.deadline is Some
                &&& response.lo() == irq.cost.hi() + blocking.hi()
                &&& response.hi() <= d.lo()
                &&& round_of(higher_list(self@, irq), response.hi(), response.lo()) == Round::Next(
                    response.hi(),
                )
                &&& margin.lo() == d.lo() - response.hi()
                &&& margin.hi() == d.hi() - response.hi()
            },
            r.verdict matches Schedulability::Oversubscribed { utilisation_ppm } ==> {
                &&& utilisation_ppm > FULLY_UTILISED
                &&& util_of(self@, 0, Provenance::Derived) matches Ok(found) && found.0
                    == utilisation_ppm
            },
            r.verdict is Keeps ==> settles(
                higher_list(self@, find_irq(self@, target)->Some_0),
                r.verdict->Keeps_response.lo() as int,
                r.verdict->Keeps_response.hi() as int,
            ),
            r.verdict is Keeps ==> forall|f: int|
                r.verdict->Keeps_response.lo() <= f && #[trigger] settles(
                    higher_list(self@, find_irq(self@, target)->Some_0),
                    r.verdict->Keeps_response.lo() as int,
                    f,
                ) ==> r.verdict->Keeps_response.hi() <= f,
    {
        let r = self.analyse(target, blocking);
        proof {
            if r.verdict is Keeps {
                let resp = r.verdict->Keeps_response;
                let hs = higher_list(self@, find_irq(self@, target)->Some_0);
                lemma_response_is_least(self@, target, blocking, 0);
                assert forall|f: int|
                    resp.lo() <= f && #[trigger] settles(hs, resp.lo() as int, f) implies resp.hi()
                    <= f by {
                    lemma_response_is_least(self@, target, blocking, f);
                }
            }
        }
        r
    }

    /// The analysis behind `response_time`.
    #[verifier::loop_isolation(false)]
    fn analyse(&self, target: InterruptId, blocking: Quantity) -> (r: Analysis)
        ensures
            r == response_of(self@, target, blocking),
            r.verdict matches Schedulability::Keeps { response, margin, .. } ==> {
                let irq = find_irq(self@, target)->Some_0;
                let d = irq.deadline->Some_0;
                &&& find_irq(self@, target) is Some
                &&& irq.deadline is Some
                &&& response.lo() == irq.cost.hi() + blocking.hi()
                &&& response.hi() <= d.lo()
                &&& round_of(higher_list(self@, irq), response.hi(), response.lo()) == Round::Next(
                    response.hi(),
                )
                &&& margin.lo() == d.lo() - response.hi()
                &&& margin.hi() == d.hi() - response.hi()
            },
            r.verdict matches Schedulability::Oversubscribed { utilisation_ppm } ==> {
                &&& utilisation_ppm > FULLY_UTILISED
                &&& util_of(self@, 0, Provenance::Derived) matches Ok(found) && found.0
                    == utilisation_ppm
            },
    {
        let irq = match self.get(target) {
            Some(i) => *i,
            None => {
                return Analysis {
                    verdict: Schedulability::Unanswerable(Missing::NoDeadline),
                    provenance: blocking.provenance(),
                };
            },
        };
        let unit = irq.cost.unit();
        let mut prov = irq.cost.provenance().join(blocking.provenance());
        if blocking.unit() != unit {
            return Analysis {
                verdict: Schedulability::Unanswerable(mismatch(blocking.unit(), unit)),
                provenance: prov,
            };
        }
        // The cheap check first: a set demanding more than all of the time it
        // has cannot be rescued by any ordering.
        match self.utilisation_ppm() {
            Err(missing) => {
                return Analysis { verdict: Schedulability::Unanswerable(missing), provenance: prov };
            },
            Ok((u, up)) => {
                prov = prov.join(up);
                if u > FULLY_UTILISED {
                    return Analysis {
                        verdict: Schedulability::Oversubscribed { utilisation_ppm: u },
                        provenance: prov,
                    };
                }
            },
        }
        let deadline = match irq.deadline {
            Some(d) => d,
            None => {
                return Analysis {
                    verdict: Schedulability::Unanswerable(Missing::NoDeadline),
                    provenance: prov,
                };
            },
        };
        if deadline.unit() != unit {
            return Analysis {
                verdict: Schedulability::Unanswerable(mismatch(unit, deadline.unit())),
                provenance: prov,
            };
        }
        prov = prov.join(deadline.provenance());
        // Higher priority means a lower number, the way the hardware numbers it.
        let higher = self.higher(&irq);
        let ghost hs = higher@;
        let mut k: usize = 0;
        assert(hs.subrange(0, hs.len() as int) =~= hs);
        let ghost p2 = prov;
        while k < higher.len()
            invariant
                0 <= k <= hs.len(),
                hs == higher@,
                units_of(hs, unit, p2) == units_of(
                    hs.subrange(k as int, hs.len() as int),
                    unit,
                    prov,
                ),
            decreases hs.len() - k,
        {
            let ghost rest = hs.subrange(k as int, hs.len() as int);
            assert(rest[0] == hs[k as int]);
            assert(rest.drop_first() =~= hs.subrange(k + 1, hs.len() as int));
            let j = higher[k];
            let gap = j.arrival.shortest_gap();
            if j.cost.unit() != unit || gap.unit() != unit {
                return Analysis {
                    verdict: Schedulability::Unanswerable(mismatch(j.cost.unit(), unit)),
                    provenance: prov,
                };
            }
            prov = prov.join(j.cost.provenance()).join(gap.provenance());
            k = k + 1;
        }
        let base = match irq.cost.interval().hi().checked_add(blocking.interval().hi()) {
            Some(v) => v,
            None => {
                return Analysis {
                    verdict: Schedulability::Unanswerable(Missing::Overflow),
                    provenance: prov,
                };
            },
        };
        let limit = deadline.interval().lo();
        let deadline_hi = deadline.interval().hi();
        let mut r = base;
        let mut round: u32 = 1;
        while round <= 64
            invariant
                1 <= round <= 65,
                r >= base,
                limit <= deadline_hi,
                iterate_of(hs, base, limit, deadline_hi, base, 1, unit, prov) == iterate_of(
                    hs,
                    base,
                    limit,
                    deadline_hi,
                    r,
                    round as nat,
                    unit,
                    prov,
                ),
                hs == higher@,
            decreases 65 - round,
        {
            let next = match one_round(&higher, r, base) {
                Round::Unbounded => {
                    return Analysis {
                        verdict: Schedulability::Unanswerable(Missing::UnboundedArrivals),
                        provenance: prov,
                    };
                },
                Round::Overflowed => {
                    // A response already past the width cannot be rescued.
                    let response = Quantity::new(
                        Interval::new(base, Count::MAX).unwrap(),
                        unit,
                        prov,
                    );
                    return Analysis {
                        verdict: Schedulability::Misses { response, rounds: round },
                        provenance: prov,
                    };
                },
                Round::Next(n) => n,
            };
            if next > limit {
                // A response already past its deadline cannot be rescued by a
                // further round, so the iteration stops here.
                let response = Quantity::new(Interval::new(base, next).unwrap(), unit, prov);
                return Analysis {
                    verdict: Schedulability::Misses { response, rounds: round },
                    provenance: prov,
                };
            }
            if next == r {
                let response = Quantity::new(Interval::new(base, r).unwrap(), unit, prov);
                let margin = Quantity::new(
                    Interval::new(limit - r, deadline_hi - r).unwrap(),
                    unit,
                    prov,
                );
                return Analysis {
                    verdict: Schedulability::Keeps { response, margin, rounds: round },
                    provenance: prov,
                };
            }
            r = next;
            round = round + 1;
        }
        // It never settled: a set that cannot keep up.
        let response = Quantity::new(Interval::new(base, r).unwrap(), unit, prov);
        Analysis { verdict: Schedulability::Misses { response, rounds: 64 }, provenance: prov }
    }
}

} // verus!
