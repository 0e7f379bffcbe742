use calx_telltale::expr::{
    Counter, CounterFit, Exhaustion, Expr, Measure, Shape, Termination, Wait, WaitId,
};
use calx_telltale::interval::Interval;
use calx_telltale::provenance::Provenance::{Assumed, Derived, Extracted};
use calx_telltale::quantity::{Quantity, Unit};
use calx_telltale::Count;

fn wait(id: u16, budget: Count, per_iter: Count) -> Expr {
    Expr::Leaf(Wait {
        id: WaitId(id),
        budget,
        counter: Counter::U32,
        measure: Measure::PreDecrement,
        cost_per_iter: Quantity::new(Interval::point(per_iter), Unit::BusReads, Extracted),
        on_exhaustion: Exhaustion::ReportsError,
    })
}

#[test]
fn a_wait_stops_at_its_budget() {
    let w = wait(0, 100, 1);
    // It answers at 40, so it polls 40 times and succeeds.
    let o = w.eval(40, Unit::BusReads).unwrap();
    assert_eq!(o.cost.interval().hi(), 40);
    assert!(o.succeeded);
    // It never answers, so it polls its whole budget and gives up.
    let o = w.eval(1_000, Unit::BusReads).unwrap();
    assert_eq!(o.cost.interval().hi(), 100);
    assert!(!o.succeeded);
}

#[test]
fn a_sequence_unwinds_where_a_part_fails() {
    let e = Expr::Sequence(vec![wait(0, 10, 1), wait(1, 100, 1)]);
    // At latency 50 the first wait gives up after 10, and the second never
    // runs, so the cost is 10 rather than 60.
    let o = e.eval(50, Unit::BusReads).unwrap();
    assert_eq!(o.cost.interval().hi(), 10);
    assert!(!o.succeeded);
}

#[test]
fn a_branch_takes_the_dearer_arm() {
    let e = Expr::Alt(vec![wait(0, 10, 1), wait(1, 100, 1)]);
    let o = e.eval(5_000, Unit::BusReads).unwrap();
    assert_eq!(o.cost.interval().hi(), 100);
}

#[test]
fn a_short_circuit_does_not_run_its_body_when_the_guard_fails() {
    let e = Expr::ShortCircuit {
        guard: Box::new(wait(0, 10, 1)),
        then: Box::new(wait(1, 1_000, 1)),
    };
    // The guard gives up at 10 and the body never runs.
    let o = e.eval(50, Unit::BusReads).unwrap();
    assert_eq!(o.cost.interval().hi(), 10);
}

#[test]
fn the_worst_case_sits_one_step_inside_the_boundary() {
    // A retry loop over a guard and a body. Where the guard never answers
    // it gives up at once and the loop unwinds. Where the guard answers on
    // its last permitted attempt, it costs almost its whole budget AND lets
    // the body and every remaining retry run.
    let e = Expr::Repeat {
        body: Box::new(Expr::ShortCircuit {
            guard: Box::new(wait(0, 100, 1)),
            then: Box::new(wait(1, 100, 1)),
        }),
        times: 50,
    };
    let a = e.attain(Unit::BusReads).unwrap();

    // The witness is the last latency at which the guard still answers.
    assert_eq!(a.witness, 99);
    assert!(a.interior, "the maximum is not at either extreme");

    // The extremes are both far cheaper than the interior maximum.
    let never_answers = e.eval(1_000, Unit::BusReads).unwrap().cost.interval().hi();
    let answers_at_once = e.eval(0, Unit::BusReads).unwrap().cost.interval().hi();
    assert_eq!(never_answers, 100, "it unwinds on the first retry");
    assert_eq!(answers_at_once, 0);
    assert!(
        a.cost.interval().hi() > never_answers * 90,
        "a sweep of the extremes would have understated this by orders of magnitude"
    );
}

#[test]
fn the_reported_cost_is_the_cost_at_the_reported_witness() {
    let e = Expr::Repeat {
        body: Box::new(Expr::ShortCircuit {
            guard: Box::new(wait(0, 64, 2)),
            then: Box::new(wait(1, 8, 3)),
        }),
        times: 7,
    };
    let a = e.attain(Unit::BusReads).unwrap();
    let at_witness = e.eval(a.witness, Unit::BusReads).unwrap();
    assert_eq!(a.cost, at_witness.cost, "the witness must reproduce it");
}

#[test]
fn the_search_is_bounded_by_the_budget_and_not_by_the_cost() {
    // Costs run to millions; the domain is a hundred and one wide.
    let e = Expr::Repeat {
        body: Box::new(wait(0, 100, 1_000)),
        times: 100,
    };
    assert_eq!(e.widest_budget(), 100);
    let a = e.attain(Unit::BusReads).unwrap();
    assert!(a.cost.interval().hi() >= 1_000_000);
}

#[test]
fn a_guessed_per_iteration_cost_makes_the_composition_a_guess() {
    let e = Expr::Sequence(vec![
        wait(0, 10, 1),
        Expr::Leaf(Wait {
            id: WaitId(1),
            budget: 10,
            counter: Counter::U32,
            measure: Measure::PreDecrement,
            cost_per_iter: Quantity::new(Interval::point(1), Unit::BusReads, Assumed),
            on_exhaustion: Exhaustion::SilentlyContinues,
        }),
    ]);
    let o = e.eval(5, Unit::BusReads).unwrap();
    assert_eq!(o.cost.provenance(), Assumed);
}

#[test]
fn composing_across_units_is_refused() {
    let e = Expr::Sequence(vec![wait(0, 10, 1)]);
    assert!(e.eval(5, Unit::Iterations).is_err());
}

fn bare_wait(budget: Count, counter: Counter, measure: Measure) -> Wait {
    Wait {
        id: WaitId(9),
        budget,
        counter,
        measure,
        cost_per_iter: Quantity::new(Interval::point(1), Unit::BusReads, Extracted),
        on_exhaustion: Exhaustion::ReportsError,
    }
}

#[test]
fn a_post_decrement_tested_against_zero_never_fires() {
    // The test is made before the decrement, so the counter runs past zero
    // untested and wraps. The bound of ten thousand is in the declaration
    // and nowhere in the behaviour.
    let w = bare_wait(10_000, Counter::U32, Measure::PostDecrement);
    assert_eq!(w.termination(), Termination::Wraps);
}

#[test]
fn a_pre_decrement_is_well_founded() {
    let w = bare_wait(10_000, Counter::U32, Measure::PreDecrement);
    assert_eq!(w.termination(), Termination::WellFounded);
}

#[test]
fn a_counter_that_rises_to_nothing_never_gets_there() {
    let w = bare_wait(10, Counter::U32, Measure::Increment { limit: 0 });
    assert_eq!(w.termination(), Termination::NeverReaches);
}

#[test]
fn a_budget_larger_than_its_counter_is_no_bound_at_all() {
    // A budget of 0x20000 in a sixteen-bit counter wraps inside the wait.
    let w = bare_wait(0x2_0000, Counter::U16, Measure::PreDecrement);
    assert_eq!(
        w.counter_fit(),
        CounterFit::Overruns {
            budget: 0x2_0000,
            holds: 65_535
        }
    );
}

#[test]
fn the_fit_reports_the_headroom_left() {
    // A budget of 0x2000 in a sixteen-bit counter fits, and the headroom is
    // the fact worth reporting: it is three doublings from the ceiling.
    let w = bare_wait(0x2000, Counter::U16, Measure::PreDecrement);
    match w.counter_fit() {
        CounterFit::Fits { headroom } => assert_eq!(headroom, 65_535 - 0x2000),
        other => panic!("expected it to fit, got {other:?}"),
    }
}

#[test]
fn a_lone_wait_is_established_rather_than_searched() {
    let a = wait(0, 100, 1).attain(Unit::BusReads).unwrap();
    assert_eq!(a.shape, Shape::Monotone);
    assert_eq!(a.cost.interval().hi(), 100);
    assert!(
        !a.interior,
        "a monotone cost peaks at the top of the domain"
    );
}

#[test]
fn a_short_circuit_is_never_claimed_monotone() {
    let e = Expr::ShortCircuit {
        guard: Box::new(wait(0, 100, 1)),
        then: Box::new(wait(1, 100, 1)),
    };
    assert_eq!(e.shape(), Shape::EarlyExit);
    assert_eq!(e.attain(Unit::BusReads).unwrap().shape, Shape::EarlyExit);
}

#[test]
fn a_branch_of_monotone_arms_stays_monotone() {
    let e = Expr::Alt(vec![wait(0, 10, 1), wait(1, 100, 1)]);
    assert_eq!(e.shape(), Shape::Monotone);
    // And one arm that can stop early takes the whole branch with it.
    let mixed = Expr::Alt(vec![
        wait(0, 10, 1),
        Expr::ShortCircuit {
            guard: Box::new(wait(1, 10, 1)),
            then: Box::new(wait(2, 10, 1)),
        },
    ]);
    assert_eq!(mixed.shape(), Shape::EarlyExit);
}

#[test]
fn an_established_maximum_agrees_with_the_search() {
    // The claim has to be worth making: where the shape says monotone, the
    // answer must match what a search would have found.
    let e = Expr::Alt(vec![wait(0, 37, 3), wait(1, 91, 2)]);
    let established = e.attain(Unit::BusReads).unwrap();
    assert_eq!(established.shape, Shape::Monotone);
    let searched = (0..=e.widest_budget() + 1)
        .map(|l| e.eval(l, Unit::BusReads).unwrap().cost.interval().hi())
        .max()
        .unwrap();
    assert_eq!(established.cost.interval().hi(), searched);
}

#[test]
fn a_monotone_composition_attains_at_the_far_end() {
    // No short circuit, so cost only rises with latency and the maximum is
    // at the boundary. The tool reports that it is not interior.
    let e = Expr::Sequence(vec![wait(0, 100, 1)]);
    let a = e.attain(Unit::BusReads).unwrap();
    assert_eq!(a.cost.interval().hi(), 100);
    assert!(
        !a.interior || a.witness == 100,
        "a rising cost peaks at the last latency that still costs more"
    );
    let _ = Derived;
}

// Beyond the cases above: the laws each stated on values.

#[test]
fn a_wait_answered_inside_its_budget_succeeds_and_pays_per_poll() {
    let w = wait(0, 100, 3);
    let o = w.eval(99, Unit::BusReads).unwrap();
    assert!(o.succeeded);
    assert_eq!(o.cost.interval().hi(), 297);
    let o = w.eval(100, Unit::BusReads).unwrap();
    assert!(!o.succeeded);
    assert_eq!(o.cost.interval().hi(), 300);
}

#[test]
fn a_short_circuit_pays_the_guard_and_then_its_body() {
    let e = Expr::ShortCircuit {
        guard: Box::new(wait(0, 10, 1)),
        then: Box::new(wait(1, 5, 2)),
    };
    // The guard answers at 9, so the body runs and gives up at its budget.
    let o = e.eval(9, Unit::BusReads).unwrap();
    assert_eq!(o.cost.interval().hi(), 9 + 10);
    assert!(!o.succeeded);
}

#[test]
fn a_repeat_stops_at_the_first_failed_pass() {
    let e = Expr::Repeat { body: Box::new(wait(0, 10, 1)), times: 4 };
    assert_eq!(e.eval(3, Unit::BusReads).unwrap().cost.interval().hi(), 12);
    assert_eq!(e.eval(20, Unit::BusReads).unwrap().cost.interval().hi(), 10);
}

#[test]
fn a_cost_carries_the_provenance_of_its_poll() {
    let o = wait(0, 10, 1).eval(5, Unit::BusReads).unwrap();
    assert_eq!(o.cost.provenance(), Extracted);
}

#[test]
fn an_empty_sequence_costs_nothing_and_succeeds() {
    let o = Expr::Sequence(vec![]).eval(5, Unit::BusReads).unwrap();
    assert_eq!(o.cost.interval().hi(), 0);
    assert!(o.succeeded);
}
