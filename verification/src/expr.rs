//! Composition, and the input at which the worst case is attained.
//!
//! A wait costs what it costs because of something outside the part: how long
//! the peripheral takes to answer. That is one parameter, and every wait in a
//! composition sees the same world, so a cost is a function of it rather than a
//! constant. The expensive case can sit one step inside the boundary, where a
//! sweep of the extremes will not find it, so the worst case is searched for.
use vstd::prelude::*;
use crate::interval::{group_interval, Interval};
use crate::provenance::Provenance;
use crate::quantity::{group_quantity, repeat_of, sum_of, Quantity, Refusal, Unit};
use crate::Count;

verus! {

broadcast use {group_interval, group_quantity};

/// A declared wait, by index into the register's wait table.
#[derive(Clone, Copy, PartialEq, Eq, Structural, Debug, Hash)]
pub struct WaitId(pub u16);

/// What happens when a wait uses up its budget.
#[derive(Clone, Copy, PartialEq, Eq, Structural, Debug, Hash)]
pub enum Exhaustion {
    /// The wait returns a failure its caller can act on.
    ReportsError,
    /// The wait stops the program.
    Asserts,
    /// The wait gives up and carries on as though it had succeeded.
    SilentlyContinues,
}

/// The width of the counter a budget is held in.
#[derive(Clone, Copy, PartialEq, Eq, Structural, Debug, Hash)]
pub enum Counter {
    U8,
    U16,
    U32,
    U64,
}

/// The largest value a counter holds.
pub open spec fn counter_limit(c: Counter) -> Count {
    match c {
        Counter::U8 => 0xff,
        Counter::U16 => 0xffff,
        Counter::U32 => 0xffff_ffff,
        Counter::U64 => 0xffff_ffff_ffff_ffff,
    }
}

impl Counter {
    /// The largest value this counter holds.
    pub fn holds(self) -> (r: Count)
        ensures
            r == counter_limit(self),
    {
        match self {
            Counter::U8 => u8::MAX as Count,
            Counter::U16 => u16::MAX as Count,
            Counter::U32 => u32::MAX as Count,
            Counter::U64 => u64::MAX as Count,
        }
    }
}

/// How a wait's counter moves, and what the loop test sees when it does.
#[derive(Clone, Copy, PartialEq, Eq, Structural, Debug, Hash)]
pub enum Measure {
    /// Decremented and then tested, so the loop stops at zero.
    PreDecrement,
    /// Tested and then decremented, so the counter passes through zero
    /// untested and wraps to its maximum.
    PostDecrement,
    /// The counter rises to a limit.
    Increment { limit: Count },
}

/// Whether a wait's measure is well-founded.
#[derive(Clone, Copy, PartialEq, Eq, Structural, Debug)]
pub enum Termination {
    /// The measure decreases on every pass and the test sees it.
    WellFounded,
    /// The measure passes its test untested and wraps.
    Wraps,
    /// The counter rises to a limit it never reaches.
    NeverReaches,
}

/// Whether a budget fits the counter that holds it.
#[derive(Clone, Copy, PartialEq, Eq, Structural, Debug)]
pub enum CounterFit {
    Fits {
        /// How much room is left.
        headroom: Count,
    },
    /// The budget is larger than the counter, so the bound means nothing.
    Overruns { budget: Count, holds: Count },
}

/// A polling wait: it asks, and either gets an answer or runs out of budget.
#[derive(Clone, Copy, Debug)]
pub struct Wait {
    pub id: WaitId,
    /// The most iterations this wait will make before giving up.
    pub budget: Count,
    /// The counter the budget is held in.
    pub counter: Counter,
    /// How the counter moves, and what the test sees.
    pub measure: Measure,
    /// What one iteration costs.
    pub cost_per_iter: Quantity,
    pub on_exhaustion: Exhaustion,
}

/// Whether a measure terminates, and how it fails to.
pub open spec fn termination_of(m: Measure) -> Termination {
    match m {
        Measure::PreDecrement => Termination::WellFounded,
        Measure::PostDecrement => Termination::Wraps,
        Measure::Increment { limit } => if limit == 0 {
            Termination::NeverReaches
        } else {
            Termination::WellFounded
        },
    }
}

impl Wait {
    /// Whether this wait's measure is well-founded.
    pub fn termination(&self) -> (r: Termination)
        ensures
            r == termination_of(self.measure),
    {
        match self.measure {
            Measure::PreDecrement => Termination::WellFounded,
            // The test is made before the decrement, so zero is never the
            // tested value: the counter runs past it and wraps.
            Measure::PostDecrement => Termination::Wraps,
            Measure::Increment { limit } => {
                if limit == 0 {
                    Termination::NeverReaches
                } else {
                    Termination::WellFounded
                }
            },
        }
    }

    /// Whether the declared budget fits the counter holding it.
    pub fn counter_fit(&self) -> (r: CounterFit)
        ensures
            self.budget <= counter_limit(self.counter) ==> r == (CounterFit::Fits {
                headroom: (counter_limit(self.counter) - self.budget) as Count,
            }),
            self.budget > counter_limit(self.counter) ==> r == (CounterFit::Overruns {
                budget: self.budget,
                holds: counter_limit(self.counter),
            }),
    {
        let holds = self.counter.holds();
        if self.budget <= holds {
            CounterFit::Fits { headroom: holds - self.budget }
        } else {
            CounterFit::Overruns { budget: self.budget, holds }
        }
    }
}

/// How a composition is built.
#[derive(Debug)]
pub enum Expr {
    Leaf(Wait),
    /// One after another, stopping where one fails.
    Sequence(Vec<Expr>),
    /// A retry loop. It stops early where the body fails.
    Repeat { body: Box<Expr>, times: Count },
    /// A branch. Only one arm runs, so the cost is the dearest of them.
    Alt(Vec<Expr>),
    /// A guard, and what runs only if the guard succeeds.
    ShortCircuit { guard: Box<Expr>, then: Box<Expr> },
}

/// The mathematical shape of a composition.
pub enum ExprView {
    Leaf(Wait),
    Sequence(Seq<ExprView>),
    Repeat { body: Box<ExprView>, times: Count },
    Alt(Seq<ExprView>),
    ShortCircuit { guard: Box<ExprView>, then: Box<ExprView> },
}

/// The view of one composition.
pub open spec fn expr_view(e: Expr) -> ExprView
    decreases e,
{
    match e {
        Expr::Leaf(w) => ExprView::Leaf(w),
        Expr::Sequence(v) => ExprView::Sequence(views(v@)),
        Expr::Repeat { body, times } => ExprView::Repeat { body: Box::new(expr_view(*body)), times },
        Expr::Alt(v) => ExprView::Alt(views(v@)),
        Expr::ShortCircuit { guard, then } => ExprView::ShortCircuit {
            guard: Box::new(expr_view(*guard)),
            then: Box::new(expr_view(*then)),
        },
    }
}

/// The views of a list of compositions.
pub open spec fn views(s: Seq<Expr>) -> Seq<ExprView>
    decreases s,
{
    if s.len() == 0 {
        Seq::empty()
    } else {
        seq![expr_view(s[0])] + views(s.subrange(1, s.len() as int))
    }
}

impl View for Expr {
    type V = ExprView;

    open spec fn view(&self) -> ExprView {
        expr_view(*self)
    }
}

/// The views of a list are the view of each member.
pub proof fn lemma_views(s: Seq<Expr>)
    ensures
        views(s).len() == s.len(),
        forall|i: int| 0 <= i < s.len() ==> #[trigger] views(s)[i] == expr_view(s[i]),
    decreases s.len(),
{
    if s.len() > 0 {
        let rest = s.subrange(1, s.len() as int);
        lemma_views(rest);
        assert forall|i: int| 0 <= i < s.len() implies #[trigger] views(s)[i] == expr_view(s[i]) by {
            if i > 0 {
                assert(rest[i - 1] == s[i]);
            }
        }
    }
}


impl Clone for Expr {
    /// A copy with the same shape and the same waits.
    fn clone(&self) -> (r: Self)
        ensures
            r@ == self@,
        decreases self,
    {
        match self {
            Expr::Leaf(w) => Expr::Leaf(*w),
            Expr::Sequence(v) => Expr::Sequence(clone_list(v)),
            Expr::Repeat { body, times } => Expr::Repeat {
                body: Box::new((**body).clone()),
                times: *times,
            },
            Expr::Alt(v) => Expr::Alt(clone_list(v)),
            Expr::ShortCircuit { guard, then } => Expr::ShortCircuit {
                guard: Box::new((**guard).clone()),
                then: Box::new((**then).clone()),
            },
        }
    }
}

fn clone_list(v: &Vec<Expr>) -> (r: Vec<Expr>)
    ensures
        views(r@) == views(v@),
    decreases v,
{
    let mut out: Vec<Expr> = Vec::new();
    let mut i: usize = 0;
    while i < v.len()
        invariant
            0 <= i <= v@.len(),
            out@.len() == i,
            forall|j: int| 0 <= j < i ==> #[trigger] expr_view(out@[j]) == expr_view(v@[j]),
        decreases v@.len() - i,
    {
        let c = v[i].clone();
        out.push(c);
        i = i + 1;
    }
    proof {
        lemma_views(out@);
        lemma_views(v@);
        assert(views(out@) =~= views(v@));
    }
    out
}

/// What one evaluation cost, and whether it got its answer.
#[derive(Clone, Copy, PartialEq, Eq, Structural, Debug)]
pub struct Outcome {
    pub cost: Quantity,
    /// Whether every part that ran got its answer within budget.
    pub succeeded: bool,
}

/// A zero cost in `unit`, as certain as anything can be.
pub open spec fn zero_of(unit: Unit) -> Quantity {
    Quantity::of(Interval::from_ends(0, 0), unit, Provenance::Derived)
}

/// The smaller of two counts.
pub open spec fn min_count(a: Count, b: Count) -> Count {
    if a <= b {
        a
    } else {
        b
    }
}

/// One wait at one latency: it polls until it gets an answer or runs out of
/// budget, and it succeeds exactly when the answer comes inside the budget.
pub open spec fn leaf_of(w: Wait, latency: Count, unit: Unit) -> Result<Outcome, Refusal> {
    if w.cost_per_iter.unit() != unit {
        Err(Refusal::UnitMismatch { left: w.cost_per_iter.unit(), right: unit })
    } else {
        let n = min_count(latency, w.budget);
        match repeat_of(w.cost_per_iter, Interval::from_ends(n, n), Provenance::Derived) {
            Err(x) => Err(x),
            Ok(c) => Ok(Outcome { cost: c, succeeded: latency < w.budget }),
        }
    }
}

/// A body evaluated to `body`, run up to `k` more times on top of `total`,
/// stopping at the first failure.
pub open spec fn repeat_acc(body: Result<Outcome, Refusal>, k: nat, total: Quantity) -> Result<
    Outcome,
    Refusal,
>
    decreases k,
{
    if k == 0 {
        Ok(Outcome { cost: total, succeeded: true })
    } else {
        match body {
            Err(x) => Err(x),
            Ok(o) => match sum_of(total, o.cost) {
                Err(x) => Err(x),
                Ok(t) => if !o.succeeded {
                    Ok(Outcome { cost: t, succeeded: false })
                } else {
                    repeat_acc(body, (k - 1) as nat, t)
                },
            },
        }
    }
}

/// The cost of a composition at one latency, in `unit`.
pub open spec fn eval_of(e: ExprView, latency: Count, unit: Unit) -> Result<Outcome, Refusal>
    decreases e,
{
    match e {
        ExprView::Leaf(w) => leaf_of(w, latency, unit),
        ExprView::Sequence(parts) => seq_of(parts, zero_of(unit), latency, unit),
        ExprView::Repeat { body, times } => repeat_acc(
            eval_of(*body, latency, unit),
            times as nat,
            zero_of(unit),
        ),
        ExprView::Alt(arms) => alt_of(arms, zero_of(unit), true, latency, unit),
        ExprView::ShortCircuit { guard, then } => match eval_of(*guard, latency, unit) {
            Err(x) => Err(x),
            Ok(g) => if !g.succeeded {
                Ok(Outcome { cost: g.cost, succeeded: false })
            } else {
                match eval_of(*then, latency, unit) {
                    Err(x) => Err(x),
                    Ok(t) => match sum_of(g.cost, t.cost) {
                        Err(x) => Err(x),
                        Ok(c) => Ok(Outcome { cost: c, succeeded: t.succeeded }),
                    },
                }
            },
        },
    }
}

/// Parts run one after another on top of `total`, unwinding at the first
/// failure.
pub open spec fn seq_of(parts: Seq<ExprView>, total: Quantity, latency: Count, unit: Unit) -> Result<
    Outcome,
    Refusal,
>
    decreases parts,
{
    if parts.len() == 0 {
        Ok(Outcome { cost: total, succeeded: true })
    } else {
        match eval_of(parts[0], latency, unit) {
            Err(x) => Err(x),
            Ok(o) => match sum_of(total, o.cost) {
                Err(x) => Err(x),
                Ok(t) => if !o.succeeded {
                    Ok(Outcome { cost: t, succeeded: false })
                } else {
                    seq_of(parts.subrange(1, parts.len() as int), t, latency, unit)
                },
            },
        }
    }
}

/// The dearest of the arms, by the top of its interval, where `worst` is the
/// dearest so far; the first of equally dear arms is kept.
pub open spec fn alt_of(
    arms: Seq<ExprView>,
    worst: Quantity,
    succeeded: bool,
    latency: Count,
    unit: Unit,
) -> Result<Outcome, Refusal>
    decreases arms,
{
    if arms.len() == 0 {
        Ok(Outcome { cost: worst, succeeded })
    } else {
        match eval_of(arms[0], latency, unit) {
            Err(x) => Err(x),
            Ok(o) => if o.cost.hi() > worst.hi() {
                alt_of(arms.subrange(1, arms.len() as int), o.cost, o.succeeded, latency, unit)
            } else {
                alt_of(arms.subrange(1, arms.len() as int), worst, succeeded, latency, unit)
            },
        }
    }
}

fn zero(unit: Unit) -> (r: Quantity)
    ensures
        r == zero_of(unit),
{
    Quantity::new(Interval::point(0), unit, Provenance::Derived)
}

impl Expr {
    /// The cost at one latency, where `latency` is how many iterations the
    /// outside world takes to answer.
    pub fn eval(&self, latency: Count, unit: Unit) -> (r: Result<Outcome, Refusal>)
        ensures
            r == eval_of(self@, latency, unit),
        decreases self,
    {
        match self {
            Expr::Leaf(w) => {
                if w.cost_per_iter.unit() != unit {
                    return Err(Refusal::UnitMismatch { left: w.cost_per_iter.unit(), right: unit });
                }
                // It polls until it gets an answer or runs out of budget.
                let iterations = if latency <= w.budget {
                    latency
                } else {
                    w.budget
                };
                let cost = match w.cost_per_iter.checked_repeat(
                    Interval::point(iterations),
                    Provenance::Derived,
                ) {
                    Ok(c) => c,
                    Err(x) => return Err(x),
                };
                Ok(Outcome { cost, succeeded: latency < w.budget })
            },
            Expr::Sequence(parts) => {
                let ghost pv = views(parts@);
                proof {
                    lemma_views(parts@);
                    assert(pv.subrange(0, pv.len() as int) =~= pv);
                }
                let mut total = zero(unit);
                let mut i: usize = 0;
                while i < parts.len()
                    invariant
                        *self == Expr::Sequence(*parts),
                        0 <= i <= parts@.len(),
                        pv == views(parts@),
                        pv.len() == parts@.len(),
                        forall|j: int| 0 <= j < parts@.len() ==> #[trigger] pv[j] == expr_view(parts@[j]),
                        seq_of(pv, zero_of(unit), latency, unit) == seq_of(
                            pv.subrange(i as int, pv.len() as int),
                            total,
                            latency,
                            unit,
                        ),
                    decreases parts@.len() - i,
                {
                    let ghost rest = pv.subrange(i as int, pv.len() as int);
                    assert(rest[0] == pv[i as int]);
                    assert(rest.subrange(1, rest.len() as int) =~= pv.subrange(
                        i + 1,
                        pv.len() as int,
                    ));
                    proof {
                        assert(decreases_to!(*self => parts@[i as int]));
                    }
                    let o = match parts[i].eval(latency, unit) {
                        Ok(o) => o,
                        Err(x) => return Err(x),
                    };
                    total = match total.checked_add(o.cost) {
                        Ok(t) => t,
                        Err(x) => return Err(x),
                    };
                    if !o.succeeded {
                        // It unwinds here, so nothing after this runs.
                        return Ok(Outcome { cost: total, succeeded: false });
                    }
                    i = i + 1;
                }
                Ok(Outcome { cost: total, succeeded: true })
            },
            Expr::Repeat { body, times } => {
                let ghost b = eval_of((**body)@, latency, unit);
                let mut total = zero(unit);
                let mut k: Count = 0;
                while k < *times
                    invariant
                        *self == (Expr::Repeat { body: *body, times: *times }),
                        k <= *times,
                        b == eval_of((**body)@, latency, unit),
                        repeat_acc(b, *times as nat, zero_of(unit)) == repeat_acc(
                            b,
                            (*times - k) as nat,
                            total,
                        ),
                    decreases *times - k,
                {
                    let o = match body.eval(latency, unit) {
                        Ok(o) => o,
                        Err(x) => return Err(x),
                    };
                    total = match total.checked_add(o.cost) {
                        Ok(t) => t,
                        Err(x) => return Err(x),
                    };
                    if !o.succeeded {
                        return Ok(Outcome { cost: total, succeeded: false });
                    }
                    k = k + 1;
                }
                Ok(Outcome { cost: total, succeeded: true })
            },
            Expr::Alt(arms) => {
                let ghost av = views(arms@);
                proof {
                    lemma_views(arms@);
                    assert(av.subrange(0, av.len() as int) =~= av);
                }
                let mut worst = zero(unit);
                let mut succeeded = true;
                let mut i: usize = 0;
                while i < arms.len()
                    invariant
                        *self == Expr::Alt(*arms),
                        0 <= i <= arms@.len(),
                        av == views(arms@),
                        av.len() == arms@.len(),
                        forall|j: int| 0 <= j < arms@.len() ==> #[trigger] av[j] == expr_view(arms@[j]),
                        alt_of(av, zero_of(unit), true, latency, unit) == alt_of(
                            av.subrange(i as int, av.len() as int),
                            worst,
                            succeeded,
                            latency,
                            unit,
                        ),
                    decreases arms@.len() - i,
                {
                    let ghost rest = av.subrange(i as int, av.len() as int);
                    assert(rest[0] == av[i as int]);
                    assert(rest.subrange(1, rest.len() as int) =~= av.subrange(
                        i + 1,
                        av.len() as int,
                    ));
                    proof {
                        assert(decreases_to!(*self => arms@[i as int]));
                    }
                    let o = match arms[i].eval(latency, unit) {
                        Ok(o) => o,
                        Err(x) => return Err(x),
                    };
                    if o.cost.interval().hi() > worst.interval().hi() {
                        worst = o.cost;
                        succeeded = o.succeeded;
                    }
                    i = i + 1;
                }
                Ok(Outcome { cost: worst, succeeded })
            },
            Expr::ShortCircuit { guard, then } => {
                let g = match guard.eval(latency, unit) {
                    Ok(g) => g,
                    Err(x) => return Err(x),
                };
                if !g.succeeded {
                    // The `then` never runs.
                    return Ok(Outcome { cost: g.cost, succeeded: false });
                }
                let t = match then.eval(latency, unit) {
                    Ok(t) => t,
                    Err(x) => return Err(x),
                };
                match g.cost.checked_add(t.cost) {
                    Ok(c) => Ok(Outcome { cost: c, succeeded: t.succeeded }),
                    Err(x) => Err(x),
                }
            },
        }
    }
}

/// Whether a composition's cost can fall as the world gets slower.
#[derive(Clone, Copy, PartialEq, Eq, Structural, Debug)]
pub enum Shape {
    /// Cost never falls as latency rises, so the worst case is at the top of
    /// the domain and there is nothing to search for.
    Monotone,
    /// Something stops early, so cost can fall and the maximum has to be
    /// searched for.
    EarlyExit,
}

/// The worst case, and the input that produces it.
#[derive(Clone, Copy, PartialEq, Eq, Structural, Debug)]
pub struct Attainment {
    pub cost: Quantity,
    /// The latency at which the worst case occurs.
    pub witness: Count,
    /// Whether the worst case lies strictly inside the domain.
    pub interior: bool,
    /// How the answer was reached.
    pub shape: Shape,
}

/// The shape of a composition: a leaf is monotone, a branch is monotone when
/// every arm is, and anything that can stop early is not.
pub open spec fn shape_of(e: ExprView) -> Shape
    decreases e,
{
    match e {
        ExprView::Leaf(_) => Shape::Monotone,
        ExprView::Alt(arms) => if all_monotone(arms) {
            Shape::Monotone
        } else {
            Shape::EarlyExit
        },
        _ => Shape::EarlyExit,
    }
}

/// Whether every arm is monotone.
pub open spec fn all_monotone(arms: Seq<ExprView>) -> bool
    decreases arms,
{
    if arms.len() == 0 {
        true
    } else {
        shape_of(arms[0]) == Shape::Monotone && all_monotone(arms.subrange(1, arms.len() as int))
    }
}

/// The larger of two counts.
pub open spec fn max_count(a: Count, b: Count) -> Count {
    if a >= b {
        a
    } else {
        b
    }
}

/// The largest budget anywhere in a composition.
pub open spec fn widest_of(e: ExprView) -> Count
    decreases e,
{
    match e {
        ExprView::Leaf(w) => w.budget,
        ExprView::Sequence(parts) => widest_list(parts),
        ExprView::Alt(parts) => widest_list(parts),
        ExprView::Repeat { body, .. } => widest_of(*body),
        ExprView::ShortCircuit { guard, then } => max_count(widest_of(*guard), widest_of(*then)),
    }
}

/// The largest budget in any of the parts, or zero where there are none.
pub open spec fn widest_list(parts: Seq<ExprView>) -> Count
    decreases parts,
{
    if parts.len() == 0 {
        0
    } else {
        max_count(widest_of(parts[0]), widest_list(parts.subrange(1, parts.len() as int)))
    }
}

/// One past the widest budget, where nothing ever answers; saturating.
pub open spec fn top_of(e: ExprView) -> Count {
    if widest_of(e) == Count::MAX {
        Count::MAX
    } else {
        (widest_of(e) + 1) as Count
    }
}

/// The search over latencies `next + 1 ..= top`, keeping the first latency at
/// which the dearest cost so far was reached.
pub open spec fn search_of(
    e: ExprView,
    unit: Unit,
    next: Count,
    top: Count,
    best: Quantity,
    witness: Count,
) -> Result<(Quantity, Count), Refusal>
    decreases top - next,
{
    if next >= top {
        Ok((best, witness))
    } else {
        let l = (next + 1) as Count;
        match eval_of(e, l, unit) {
            Err(x) => Err(x),
            Ok(o) => if o.cost.hi() > best.hi() {
                search_of(e, unit, l, top, o.cost, l)
            } else {
                search_of(e, unit, l, top, best, witness)
            },
        }
    }
}

/// The worst case as `Expr::attain` finds it.
pub open spec fn attain_of(e: ExprView, unit: Unit) -> Result<Attainment, Refusal> {
    let ceiling = widest_of(e);
    let shape = shape_of(e);
    let top = top_of(e);
    if shape == Shape::Monotone {
        match eval_of(e, top, unit) {
            Err(x) => Err(x),
            Ok(o) => Ok(Attainment { cost: o.cost, witness: top, interior: false, shape }),
        }
    } else {
        match eval_of(e, 0, unit) {
            Err(x) => Err(x),
            Ok(o) => match search_of(e, unit, 0, top, o.cost, 0) {
                Err(x) => Err(x),
                Ok(found) => Ok(
                    Attainment {
                        cost: found.0,
                        witness: found.1,
                        interior: found.1 > 0 && found.1 <= ceiling,
                        shape,
                    },
                ),
            },
        }
    }
}

/// Where the shape says monotone, the cost really cannot fall: at a lower
/// latency the evaluation still succeeds in producing a cost, and the top of
/// that cost is no higher.
pub proof fn lemma_monotone(e: ExprView, l1: Count, l2: Count, unit: Unit)
    requires
        l1 <= l2,
        shape_of(e) == Shape::Monotone,
        eval_of(e, l2, unit) is Ok,
    ensures
        eval_of(e, l1, unit) is Ok,
        eval_of(e, l1, unit)->Ok_0.cost.hi() <= eval_of(e, l2, unit)->Ok_0.cost.hi(),
    decreases e,
{
    match e {
        ExprView::Leaf(w) => {
            let c = w.cost_per_iter;
            let n1 = min_count(l1, w.budget);
            let n2 = min_count(l2, w.budget);
            assert(c.hi() * n1 <= c.hi() * n2) by (nonlinear_arith)
                requires
                    n1 <= n2,
                    c.hi() >= 0,
            ;
        },
        ExprView::Alt(arms) => {
            lemma_alt_monotone(arms, zero_of(unit), true, zero_of(unit), true, l1, l2, unit);
        },
        _ => {},
    }
}

/// A branch over monotone arms, started from a smaller running worst, stays
/// below the same branch at a higher latency.
proof fn lemma_alt_monotone(
    arms: Seq<ExprView>,
    w1: Quantity,
    s1: bool,
    w2: Quantity,
    s2: bool,
    l1: Count,
    l2: Count,
    unit: Unit,
)
    requires
        l1 <= l2,
        all_monotone(arms),
        w1.hi() <= w2.hi(),
        alt_of(arms, w2, s2, l2, unit) is Ok,
    ensures
        alt_of(arms, w1, s1, l1, unit) is Ok,
        alt_of(arms, w1, s1, l1, unit)->Ok_0.cost.hi() <= alt_of(arms, w2, s2, l2, unit)->Ok_0.cost.hi(),
    decreases arms,
{
    if arms.len() > 0 {
        let rest = arms.subrange(1, arms.len() as int);
        lemma_monotone(arms[0], l1, l2, unit);
        let o1 = eval_of(arms[0], l1, unit)->Ok_0;
        let o2 = eval_of(arms[0], l2, unit)->Ok_0;
        let nw1 = if o1.cost.hi() > w1.hi() { o1.cost } else { w1 };
        let ns1 = if o1.cost.hi() > w1.hi() { o1.succeeded } else { s1 };
        let nw2 = if o2.cost.hi() > w2.hi() { o2.cost } else { w2 };
        let ns2 = if o2.cost.hi() > w2.hi() { o2.succeeded } else { s2 };
        lemma_alt_monotone(rest, nw1, ns1, nw2, ns2, l1, l2, unit);
    }
}

impl Expr {
    /// Whether this composition's cost can fall as latency rises.
    ///
    /// Conservative in the safe direction: anything that might stop early is
    /// reported as stopping early.
    pub fn shape(&self) -> (r: Shape)
        ensures
            r == shape_of(self@),
        decreases self,
    {
        match self {
            Expr::Leaf(_) => Shape::Monotone,
            Expr::Alt(arms) => {
                let ghost av = views(arms@);
                proof {
                    lemma_views(arms@);
                    assert(av.subrange(0, av.len() as int) =~= av);
                }
                let mut i: usize = 0;
                while i < arms.len()
                    invariant
                        *self == Expr::Alt(*arms),
                        0 <= i <= arms@.len(),
                        av == views(arms@),
                        av.len() == arms@.len(),
                        forall|j: int| 0 <= j < arms@.len() ==> #[trigger] av[j] == expr_view(arms@[j]),
                        all_monotone(av) == all_monotone(av.subrange(i as int, av.len() as int)),
                    decreases arms@.len() - i,
                {
                    let ghost rest = av.subrange(i as int, av.len() as int);
                    assert(rest[0] == av[i as int]);
                    assert(rest.subrange(1, rest.len() as int) =~= av.subrange(
                        i + 1,
                        av.len() as int,
                    ));
                    proof {
                        assert(decreases_to!(*self => arms@[i as int]));
                    }
                    if arms[i].shape() != Shape::Monotone {
                        return Shape::EarlyExit;
                    }
                    i = i + 1;
                }
                Shape::Monotone
            },
            Expr::Sequence(_) | Expr::Repeat { .. } | Expr::ShortCircuit { .. } => Shape::EarlyExit,
        }
    }

    /// The largest budget anywhere in this composition, which bounds the
    /// latencies worth trying: past it, every wait has already given up.
    pub fn widest_budget(&self) -> (r: Count)
        ensures
            r == widest_of(self@),
        decreases self,
    {
        match self {
            Expr::Leaf(w) => w.budget,
            Expr::Sequence(parts) => widest_in(parts),
            Expr::Alt(parts) => widest_in(parts),
            Expr::Repeat { body, .. } => body.widest_budget(),
            Expr::ShortCircuit { guard, then } => {
                let g = guard.widest_budget();
                let t = then.widest_budget();
                if g >= t {
                    g
                } else {
                    t
                }
            },
        }
    }

    /// The worst case over every latency the composition can distinguish, and
    /// the latency that attains it.
    ///
    /// Monotonicity is never assumed. Where the shape establishes it, the worst
    /// case is the top of the domain; otherwise the domain, bounded by the
    /// widest budget rather than by any cost, is searched.
    pub fn attain(&self, unit: Unit) -> (r: Result<Attainment, Refusal>)
        ensures
            r == attain_of(self@, unit),
            r matches Ok(a) ==> eval_of(self@, a.witness, unit) matches Ok(o) && o.cost == a.cost,
            r matches Ok(a) ==> forall|l: Count|
                l <= top_of(self@) ==> (#[trigger] eval_of(self@, l, unit) matches Ok(o) && o.cost.hi()
                    <= a.cost.hi()),
    {
        let ceiling = self.widest_budget();
        let shape = self.shape();
        let top = ceiling.saturating_add(1);
        if shape == Shape::Monotone {
            let o = match self.eval(top, unit) {
                Ok(o) => o,
                Err(x) => return Err(x),
            };
            proof {
                assert forall|l: Count| l <= top_of(self@) implies (#[trigger] eval_of(
                    self@,
                    l,
                    unit,
                ) matches Ok(p) && p.cost.hi() <= o.cost.hi()) by {
                    lemma_monotone(self@, l, top, unit);
                }
            }
            return Ok(Attainment { cost: o.cost, witness: top, interior: false, shape });
        }
        let first = match self.eval(0, unit) {
            Ok(o) => o,
            Err(x) => return Err(x),
        };
        let mut best = first.cost;
        let mut witness: Count = 0;
        let mut next: Count = 0;
        while next < top
            invariant
                next <= top,
                top == top_of(self@),
                shape == shape_of(self@),
                shape != Shape::Monotone,
                ceiling == widest_of(self@),
                eval_of(self@, 0, unit) == Ok::<Outcome, Refusal>(first),
                search_of(self@, unit, 0, top, first.cost, 0) == search_of(
                    self@,
                    unit,
                    next,
                    top,
                    best,
                    witness,
                ),
                witness <= next,
                eval_of(self@, witness, unit) matches Ok(o) && o.cost == best,
                forall|l: Count| l <= next ==> (#[trigger] eval_of(self@, l, unit) matches Ok(o)
                    && o.cost.hi() <= best.hi()),
            decreases top - next,
        {
            let latency = next + 1;
            let here = match self.eval(latency, unit) {
                Ok(o) => o.cost,
                Err(x) => {
                    assert(search_of(self@, unit, next, top, best, witness) == Err::<
                        (Quantity, Count),
                        Refusal,
                    >(x));
                    return Err(x);
                },
            };
            if here.interval().hi() > best.interval().hi() {
                best = here;
                witness = latency;
            }
            next = latency;
        }
        Ok(
            Attainment {
                cost: best,
                witness,
                interior: witness > 0 && witness <= ceiling,
                shape,
            },
        )
    }
}

/// The largest budget in any of the parts, or zero where there are none.
fn widest_in(parts: &Vec<Expr>) -> (r: Count)
    ensures
        r == widest_list(views(parts@)),
    decreases parts,
{
    let ghost pv = views(parts@);
    proof {
        lemma_views(parts@);
    }
    let mut widest: Count = 0;
    let mut i: usize = parts.len();
    assert(pv.subrange(pv.len() as int, pv.len() as int) =~= Seq::<ExprView>::empty());
    while i > 0
        invariant
            0 <= i <= parts@.len(),
            pv == views(parts@),
            pv.len() == parts@.len(),
            forall|j: int| 0 <= j < parts@.len() ==> #[trigger] pv[j] == expr_view(parts@[j]),
            widest == widest_list(pv.subrange(i as int, pv.len() as int)),
        decreases i,
    {
        let ghost rest = pv.subrange(i - 1, pv.len() as int);
        assert(rest[0] == pv[i - 1]);
        assert(rest.subrange(1, rest.len() as int) =~= pv.subrange(i as int, pv.len() as int));
        proof {
            assert(decreases_to!(*parts => parts@[i - 1]));
        }
        let b = parts[i - 1].widest_budget();
        if b >= widest {
            widest = b;
        }
        i = i - 1;
    }
    assert(pv.subrange(0, pv.len() as int) =~= pv);
    widest
}

/// The top of arm `k`'s cost at one latency, where that arm evaluates.
pub open spec fn arm_top(arms: Seq<ExprView>, k: int, latency: Count, unit: Unit) -> Count {
    eval_of(arms[k], latency, unit)->Ok_0.cost.hi()
}

/// Whether arm `k` is the first of the dearest arms: none costs more at the
/// top, and every arm before it costs strictly less.
pub open spec fn first_dearest(arms: Seq<ExprView>, k: int, latency: Count, unit: Unit) -> bool {
    &&& 0 <= k < arms.len()
    &&& forall|j: int| 0 <= j < arms.len() ==> #[trigger] arm_top(arms, j, latency, unit)
        <= arm_top(arms, k, latency, unit)
    &&& forall|j: int| 0 <= j < k ==> #[trigger] arm_top(arms, j, latency, unit) < arm_top(
        arms,
        k,
        latency,
        unit,
    )
}

proof fn lemma_alt_picks_dearest(
    arms: Seq<ExprView>,
    worst: Quantity,
    succeeded: bool,
    latency: Count,
    unit: Unit,
)
    ensures
        alt_of(arms, worst, succeeded, latency, unit) is Ok <==> forall|k: int|
            0 <= k < arms.len() ==> #[trigger] eval_of(arms[k], latency, unit) is Ok,
        alt_of(arms, worst, succeeded, latency, unit) matches Ok(o) ==> {
            &&& (forall|k: int|
                0 <= k < arms.len() ==> #[trigger] arm_top(arms, k, latency, unit) <= worst.hi())
                ==> o.cost == worst && o.succeeded == succeeded
            &&& (exists|k: int|
                0 <= k < arms.len() && #[trigger] arm_top(arms, k, latency, unit) > worst.hi())
                ==> exists|k: int|
                #[trigger] first_dearest(arms, k, latency, unit) && arm_top(arms, k, latency, unit)
                    > worst.hi() && o.cost == eval_of(arms[k], latency, unit)->Ok_0.cost
                    && o.succeeded == eval_of(arms[k], latency, unit)->Ok_0.succeeded
        },
    decreases arms.len(),
{
    if arms.len() > 0 {
        let rest = arms.subrange(1, arms.len() as int);
        assert forall|k: int| 0 <= k < rest.len() implies rest[k] == arms[k + 1]
            && #[trigger] arm_top(rest, k, latency, unit) == arm_top(arms, k + 1, latency, unit) by {}
        match eval_of(arms[0], latency, unit) {
            Err(_) => {},
            Ok(o0) => {
                let (w2, s2) = if o0.cost.hi() > worst.hi() {
                    (o0.cost, o0.succeeded)
                } else {
                    (worst, succeeded)
                };
                lemma_alt_picks_dearest(rest, w2, s2, latency, unit);
                assert(alt_of(arms, worst, succeeded, latency, unit) == alt_of(
                    rest,
                    w2,
                    s2,
                    latency,
                    unit,
                ));
                assert((forall|k: int|
                    0 <= k < arms.len() ==> #[trigger] eval_of(arms[k], latency, unit) is Ok) <==> (
                forall|k: int| 0 <= k < rest.len() ==> #[trigger] eval_of(rest[k], latency, unit) is Ok))
                    by {
                    if forall|k: int|
                        0 <= k < rest.len() ==> #[trigger] eval_of(rest[k], latency, unit) is Ok {
                        assert forall|k: int| 0 <= k < arms.len() implies #[trigger] eval_of(
                            arms[k],
                            latency,
                            unit,
                        ) is Ok by {
                            if k > 0 {
                                assert(rest[k - 1] == arms[k]);
                            }
                        }
                    }
                }
                if alt_of(arms, worst, succeeded, latency, unit) is Ok {
                    let o = alt_of(arms, worst, succeeded, latency, unit)->Ok_0;
                    assert(arm_top(arms, 0, latency, unit) == o0.cost.hi());
                    if exists|k: int|
                        0 <= k < rest.len() && #[trigger] arm_top(rest, k, latency, unit) > w2.hi() {
                        let k = choose|k: int|
                            #[trigger] first_dearest(rest, k, latency, unit) && arm_top(
                                rest,
                                k,
                                latency,
                                unit,
                            ) > w2.hi() && o.cost == eval_of(rest[k], latency, unit)->Ok_0.cost
                                && o.succeeded == eval_of(rest[k], latency, unit)->Ok_0.succeeded;
                        assert(first_dearest(arms, k + 1, latency, unit)) by {
                            assert forall|j: int| 0 <= j < arms.len() implies #[trigger] arm_top(
                                arms,
                                j,
                                latency,
                                unit,
                            ) <= arm_top(arms, k + 1, latency, unit) by {
                                if j > 0 {
                                    assert(arm_top(rest, j - 1, latency, unit) == arm_top(
                                        arms,
                                        j,
                                        latency,
                                        unit,
                                    ));
                                }
                            }
                            assert forall|j: int| 0 <= j < k + 1 implies #[trigger] arm_top(
                                arms,
                                j,
                                latency,
                                unit,
                            ) < arm_top(arms, k + 1, latency, unit) by {
                                if j > 0 {
                                    assert(arm_top(rest, j - 1, latency, unit) == arm_top(
                                        arms,
                                        j,
                                        latency,
                                        unit,
                                    ));
                                }
                            }
                        }
                        assert(arm_top(arms, k + 1, latency, unit) > worst.hi());
                    } else {
                        assert forall|k: int| 0 <= k < rest.len() implies #[trigger] arm_top(
                            rest,
                            k,
                            latency,
                            unit,
                        ) <= w2.hi() by {}
                        if o0.cost.hi() > worst.hi() {
                            assert(first_dearest(arms, 0, latency, unit)) by {
                                assert forall|j: int| 0 <= j < arms.len() implies #[trigger] arm_top(
                                    arms,
                                    j,
                                    latency,
                                    unit,
                                ) <= arm_top(arms, 0, latency, unit) by {
                                    if j > 0 {
                                        assert(arm_top(rest, j - 1, latency, unit) == arm_top(
                                            arms,
                                            j,
                                            latency,
                                            unit,
                                        ));
                                    }
                                }
                            }
                        } else {
                            assert forall|k: int| 0 <= k < arms.len() implies #[trigger] arm_top(
                                arms,
                                k,
                                latency,
                                unit,
                            ) <= worst.hi() by {
                                if k > 0 {
                                    assert(arm_top(rest, k - 1, latency, unit) == arm_top(
                                        arms,
                                        k,
                                        latency,
                                        unit,
                                    ));
                                }
                            }
                        }
                    }
                }
            },
        }
    }
}

/// A branch evaluates exactly when every arm does, and then it reports the
/// first of its dearest arms: the cost and the success of that arm, so a
/// branch whose dearest arm gave up has failed. Only where every arm costs
/// nothing at all does it report a free success.
pub proof fn lemma_branch_reports_its_dearest_arm(
    arms: Seq<ExprView>,
    latency: Count,
    unit: Unit,
)
    ensures
        eval_of(ExprView::Alt(arms), latency, unit) is Ok <==> forall|k: int|
            0 <= k < arms.len() ==> #[trigger] eval_of(arms[k], latency, unit) is Ok,
        eval_of(ExprView::Alt(arms), latency, unit) matches Ok(o) ==> {
            &&& (forall|k: int| 0 <= k < arms.len() ==> #[trigger] arm_top(arms, k, latency, unit)
                == 0) ==> o.cost == zero_of(unit) && o.succeeded
            &&& (exists|k: int| 0 <= k < arms.len() && #[trigger] arm_top(arms, k, latency, unit)
                > 0) ==> exists|k: int|
                #[trigger] first_dearest(arms, k, latency, unit) && o.cost == eval_of(
                    arms[k],
                    latency,
                    unit,
                )->Ok_0.cost && o.succeeded == eval_of(arms[k], latency, unit)->Ok_0.succeeded
        },
{
    lemma_alt_picks_dearest(arms, zero_of(unit), true, latency, unit);
    assert(zero_of(unit).hi() == 0);
}

/// The sum of the tops of the first `n` parts' costs.
pub open spec fn tops_upto(parts: Seq<ExprView>, n: int, latency: Count, unit: Unit) -> int
    decreases n,
{
    if n <= 0 {
        0
    } else {
        tops_upto(parts, n - 1, latency, unit) + arm_top(parts, n - 1, latency, unit)
    }
}

/// Whether the first `m` parts all evaluate and all get their answers.
pub open spec fn all_succeed_upto(parts: Seq<ExprView>, m: int, latency: Count, unit: Unit) -> bool {
    forall|k: int|
        0 <= k < m ==> (#[trigger] eval_of(parts[k], latency, unit) matches Ok(p) && p.succeeded)
}

proof fn lemma_tops_shift(parts: Seq<ExprView>, n: int, latency: Count, unit: Unit)
    requires
        0 <= n < parts.len(),
    ensures
        tops_upto(parts, n + 1, latency, unit) == arm_top(parts, 0, latency, unit) + tops_upto(
            parts.subrange(1, parts.len() as int),
            n,
            latency,
            unit,
        ),
    decreases n,
{
    let rest = parts.subrange(1, parts.len() as int);
    assert(tops_upto(parts, n + 1, latency, unit) == tops_upto(parts, n, latency, unit) + arm_top(
        parts,
        n,
        latency,
        unit,
    ));
    if n > 0 {
        lemma_tops_shift(parts, n - 1, latency, unit);
        assert(rest[n - 1] == parts[n]);
        assert(arm_top(rest, n - 1, latency, unit) == arm_top(parts, n, latency, unit));
        assert(tops_upto(rest, n, latency, unit) == tops_upto(rest, n - 1, latency, unit) + arm_top(
            rest,
            n - 1,
            latency,
            unit,
        ));
    } else {
        assert(tops_upto(parts, 0, latency, unit) == 0);
        assert(tops_upto(rest, 0, latency, unit) == 0);
    }
}

proof fn lemma_seq_unwinds(parts: Seq<ExprView>, total: Quantity, latency: Count, unit: Unit)
    ensures
        seq_of(parts, total, latency, unit) matches Ok(o) ==> {
            &&& o.succeeded ==> all_succeed_upto(parts, parts.len() as int, latency, unit)
                && o.cost.hi() == total.hi() + tops_upto(parts, parts.len() as int, latency, unit)
            &&& !o.succeeded ==> exists|m: int|
                0 <= m < parts.len() && #[trigger] all_succeed_upto(parts, m, latency, unit)
                    && (eval_of(parts[m], latency, unit) matches Ok(p) && !p.succeeded)
                    && o.cost.hi() == total.hi() + tops_upto(parts, m + 1, latency, unit)
        },
    decreases parts.len(),
{
    if parts.len() > 0 {
        let rest = parts.subrange(1, parts.len() as int);
        match eval_of(parts[0], latency, unit) {
            Err(_) => {},
            Ok(o0) => match sum_of(total, o0.cost) {
                Err(_) => {},
                Ok(t) => {
                    assert(t.hi() == total.hi() + o0.cost.hi());
                    assert(arm_top(parts, 0, latency, unit) == o0.cost.hi());
                    assert(tops_upto(parts, 0, latency, unit) == 0);
                    assert(tops_upto(parts, 1, latency, unit) == o0.cost.hi());
                    if !o0.succeeded {
                        assert(all_succeed_upto(parts, 0, latency, unit));
                    } else {
                        lemma_seq_unwinds(rest, t, latency, unit);
                        if seq_of(rest, t, latency, unit) is Ok {
                            let o = seq_of(rest, t, latency, unit)->Ok_0;
                            if o.succeeded {
                                lemma_tops_shift(parts, rest.len() as int, latency, unit);
                                assert forall|k: int| 0 <= k < parts.len() implies (#[trigger] eval_of(
                                    parts[k],
                                    latency,
                                    unit,
                                ) matches Ok(p) && p.succeeded) by {
                                    if k > 0 {
                                        assert(rest[k - 1] == parts[k]);
                                        assert(eval_of(rest[k - 1], latency, unit) matches Ok(p)
                                            && p.succeeded);
                                    }
                                }
                            } else {
                                let m = choose|m: int|
                                    0 <= m < rest.len() && #[trigger] all_succeed_upto(
                                        rest,
                                        m,
                                        latency,
                                        unit,
                                    ) && (eval_of(rest[m], latency, unit) matches Ok(p)
                                        && !p.succeeded) && o.cost.hi() == t.hi() + tops_upto(
                                        rest,
                                        m + 1,
                                        latency,
                                        unit,
                                    );
                                lemma_tops_shift(parts, m + 1, latency, unit);
                                assert(rest[m] == parts[m + 1]);
                                assert(all_succeed_upto(parts, m + 1, latency, unit)) by {
                                    assert forall|k: int| 0 <= k < m + 1 implies (#[trigger] eval_of(
                                        parts[k],
                                        latency,
                                        unit,
                                    ) matches Ok(p) && p.succeeded) by {
                                        if k > 0 {
                                            assert(rest[k - 1] == parts[k]);
                                            assert(eval_of(rest[k - 1], latency, unit) matches Ok(p)
                                                && p.succeeded);
                                        }
                                    }
                                }
                            }
                        }
                    }
                },
            },
        }
    }
}

/// A sequence runs its parts in order and unwinds at the first failure. It
/// succeeds exactly when every part got its answer, and then it costs the sum
/// of all its parts; otherwise some part gave up after every part before it
/// succeeded, the sequence has failed, and it costs the parts up to and
/// including that one and nothing after.
pub proof fn lemma_sequence_unwinds_at_first_failure(
    parts: Seq<ExprView>,
    latency: Count,
    unit: Unit,
)
    ensures
        eval_of(ExprView::Sequence(parts), latency, unit) matches Ok(o) ==> {
            &&& o.succeeded ==> all_succeed_upto(parts, parts.len() as int, latency, unit)
                && o.cost.hi() == tops_upto(parts, parts.len() as int, latency, unit)
            &&& !o.succeeded ==> exists|m: int|
                0 <= m < parts.len() && #[trigger] all_succeed_upto(parts, m, latency, unit)
                    && (eval_of(parts[m], latency, unit) matches Ok(p) && !p.succeeded)
                    && o.cost.hi() == tops_upto(parts, m + 1, latency, unit)
        },
{
    lemma_seq_unwinds(parts, zero_of(unit), latency, unit);
    assert(zero_of(unit).hi() == 0);
}

proof fn lemma_repeat_acc(body: Result<Outcome, Refusal>, k: nat, total: Quantity)
    ensures
        repeat_acc(body, k, total) matches Ok(o) ==> {
            &&& k == 0 ==> o.cost == total && o.succeeded
            &&& k > 0 ==> body is Ok
            &&& (k > 0 && body is Ok && body->Ok_0.succeeded) ==> o.succeeded && o.cost.hi()
                == total.hi() + k * body->Ok_0.cost.hi()
            &&& (k > 0 && body is Ok && !body->Ok_0.succeeded) ==> !o.succeeded && o.cost.hi()
                == total.hi() + body->Ok_0.cost.hi()
        },
    decreases k,
{
    if k > 0 {
        if let Ok(p) = body {
            if let Ok(t) = sum_of(total, p.cost) {
                assert(t.hi() == total.hi() + p.cost.hi());
                lemma_repeat_acc(body, (k - 1) as nat, t);
                if p.succeeded && k > 1 {
                    assert(total.hi() + p.cost.hi() + (k - 1) * p.cost.hi() == total.hi() + k
                        * p.cost.hi()) by (nonlinear_arith);
                }
            }
        }
    }
}

/// A repeat runs the same body each time, so it either gets its answer every
/// time, costing `times` runs of the body, or the body gives up on its first
/// run and the repeat fails at the cost of that one run. Zero repetitions
/// cost nothing and succeed.
pub proof fn lemma_repeat_runs_until_first_failure(
    body: ExprView,
    times: Count,
    latency: Count,
    unit: Unit,
)
    ensures
        eval_of(ExprView::Repeat { body: Box::new(body), times }, latency, unit) matches Ok(o)
            ==> {
            &&& times == 0 ==> o.cost == zero_of(unit) && o.succeeded
            &&& times > 0 ==> eval_of(body, latency, unit) is Ok
            &&& (times > 0 && eval_of(body, latency, unit) is Ok && eval_of(
                body,
                latency,
                unit,
            )->Ok_0.succeeded) ==> o.succeeded && o.cost.hi() == times * eval_of(
                body,
                latency,
                unit,
            )->Ok_0.cost.hi()
            &&& (times > 0 && eval_of(body, latency, unit) is Ok && !eval_of(
                body,
                latency,
                unit,
            )->Ok_0.succeeded) ==> !o.succeeded && o.cost.hi() == eval_of(
                body,
                latency,
                unit,
            )->Ok_0.cost.hi()
        },
{
    lemma_repeat_acc(eval_of(body, latency, unit), times as nat, zero_of(unit));
    assert(zero_of(unit).hi() == 0);
}

/// A guard that gives up stops the work it guards: the short circuit then
/// fails at the guard's cost alone. A guard that gets its answer hands over
/// to what it guards, and the whole succeeds exactly when that does, at the
/// two costs together.
pub proof fn lemma_short_circuit_stops_at_a_failed_guard(
    guard: ExprView,
    then: ExprView,
    latency: Count,
    unit: Unit,
)
    ensures
        eval_of(
            ExprView::ShortCircuit { guard: Box::new(guard), then: Box::new(then) },
            latency,
            unit,
        ) matches Ok(o) ==> {
            let g = eval_of(guard, latency, unit)->Ok_0;
            &&& eval_of(guard, latency, unit) is Ok
            &&& !g.succeeded ==> !o.succeeded && o.cost == g.cost
            &&& g.succeeded ==> (eval_of(then, latency, unit) matches Ok(t) && o.succeeded
                == t.succeeded && o.cost.hi() == g.cost.hi() + t.cost.hi())
        },
{
}

/// A wait reports success exactly while the answer arrives inside its budget.
pub proof fn lemma_wait_succeeds_below_budget(w: Wait, latency: Count, unit: Unit)
    requires
        eval_of(ExprView::Leaf(w), latency, unit) is Ok,
    ensures
        eval_of(ExprView::Leaf(w), latency, unit)->Ok_0.succeeded == (latency < w.budget),
{
}

/// A wait never polls more than its budget, whatever the world does: its cost
/// is at most the budget's worth of iterations.
pub proof fn lemma_wait_never_polls_past_budget(w: Wait, latency: Count, unit: Unit)
    requires
        eval_of(ExprView::Leaf(w), latency, unit) is Ok,
    ensures
        eval_of(ExprView::Leaf(w), latency, unit)->Ok_0.cost.hi() <= w.cost_per_iter.hi()
            * w.budget,
{
    let n = min_count(latency, w.budget);
    let c = w.cost_per_iter.hi();
    assert(c * n <= c * w.budget) by (nonlinear_arith)
        requires
            n <= w.budget,
            c >= 0,
    ;
}

/// A composition's provenance is never stronger than that of any of its waits.
pub proof fn lemma_leaf_provenance(w: Wait, latency: Count, unit: Unit)
    requires
        eval_of(ExprView::Leaf(w), latency, unit) is Ok,
    ensures
        eval_of(ExprView::Leaf(w), latency, unit)->Ok_0.cost.provenance() == crate::provenance::weaker(
            w.cost_per_iter.provenance(),
            Provenance::Derived,
        ),
{
}

} // verus!
