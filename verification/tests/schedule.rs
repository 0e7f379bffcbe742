use calx_telltale::interrupt::{Arrival, Consequence, Interrupt, InterruptId, Missing};
use calx_telltale::interval::Interval;
use calx_telltale::provenance::Provenance;
use calx_telltale::provenance::Provenance::{Assumed, Derived, Extracted};
use calx_telltale::quantity::{Quantity, Unit};
use calx_telltale::schedule::{Schedulability, Schedule, FULLY_UTILISED};
use calx_telltale::Count;

fn q(v: Count, unit: Unit, p: Provenance) -> Quantity {
    Quantity::new(Interval::point(v), unit, p)
}

/// An interrupt costing `cost` every `period`, at `priority`.
fn irq(id: u16, priority: u8, cost: Count, period: Count, deadline: Count) -> Interrupt {
    Interrupt {
        id: InterruptId(id),
        arrival: Arrival::MinInterarrival(q(period, Unit::Base, Extracted)),
        cost: q(cost, Unit::Base, Extracted),
        priority,
        deadline: Some(q(deadline, Unit::Base, Extracted)),
        depth: 4,
        on_drop: Consequence::LostAndLogged,
    }
}

#[test]
fn utilisation_is_the_sum_of_the_shares() {
    // 100 every 1000 is a tenth; 200 every 1000 is a fifth. Three tenths.
    let s = Schedule::new(vec![
        irq(0, 0, 100, 1_000, 1_000),
        irq(1, 1, 200, 1_000, 1_000),
    ]);
    let (u, _) = s.utilisation_ppm().unwrap();
    assert_eq!(u, 300_000);
}

#[test]
fn a_set_demanding_more_time_than_exists_is_refused_without_iterating() {
    let s = Schedule::new(vec![
        irq(0, 0, 600, 1_000, 1_000),
        irq(1, 1, 700, 1_000, 5_000),
    ]);
    let a = s.response_time(InterruptId(1), q(0, Unit::Base, Derived));
    assert!(matches!(
        a.verdict,
        Schedulability::Oversubscribed { utilisation_ppm } if utilisation_ppm > FULLY_UTILISED
    ));
}

#[test]
fn the_highest_priority_sees_only_its_own_cost_and_the_blocking() {
    let s = Schedule::new(vec![irq(0, 0, 100, 1_000, 500), irq(1, 1, 100, 1_000, 900)]);
    let a = s.response_time(InterruptId(0), q(50, Unit::Base, Derived));
    match a.verdict {
        Schedulability::Keeps {
            response, margin, ..
        } => {
            assert_eq!(response.interval().hi(), 150);
            assert_eq!(margin.interval().lo(), 350);
        }
        other => panic!("expected it to keep up, got {other:?}"),
    }
}

#[test]
fn a_lower_priority_pays_for_every_release_above_it() {
    // The low one costs 200 and is blocked 0. The high one costs 100 every
    // 1000. A response of 300 admits one release of the high one, so the
    // fixed point is 200 + 100 = 300.
    let s = Schedule::new(vec![irq(0, 0, 100, 1_000, 500), irq(1, 1, 200, 1_000, 900)]);
    let a = s.response_time(InterruptId(1), q(0, Unit::Base, Derived));
    match a.verdict {
        Schedulability::Keeps { response, .. } => assert_eq!(response.interval().hi(), 300),
        other => panic!("expected it to keep up, got {other:?}"),
    }
}

#[test]
fn interference_compounds_until_it_settles() {
    // The high one costs 400 every 1000. The low one costs 300. First round
    // 300 + 400 = 700; second round still admits one release, so it settles
    // at 700 with 200 of deadline left.
    let s = Schedule::new(vec![irq(0, 0, 400, 1_000, 500), irq(1, 1, 300, 1_000, 900)]);
    let a = s.response_time(InterruptId(1), q(0, Unit::Base, Derived));
    match a.verdict {
        Schedulability::Keeps {
            response,
            margin,
            rounds,
        } => {
            assert_eq!(response.interval().hi(), 700);
            assert_eq!(margin.interval().lo(), 200);
            assert!(rounds >= 2, "it took more than one round to settle");
        }
        other => panic!("expected it to keep up, got {other:?}"),
    }
}

#[test]
fn a_blackout_window_is_the_blocking_term() {
    // The same set, but interrupts are off for 300 somewhere. That pushes
    // the response past the deadline, which is the blackout mattering.
    let s = Schedule::new(vec![irq(0, 0, 400, 1_000, 500), irq(1, 1, 300, 1_000, 900)]);
    let a = s.response_time(InterruptId(1), q(300, Unit::Base, Derived));
    assert!(matches!(a.verdict, Schedulability::Misses { .. }));
}

#[test]
fn a_guessed_handler_cost_makes_the_verdict_a_guess() {
    let mut low = irq(1, 1, 200, 1_000, 900);
    low.cost = q(200, Unit::Base, Assumed);
    let s = Schedule::new(vec![irq(0, 0, 100, 1_000, 500), low]);
    let a = s.response_time(InterruptId(1), q(0, Unit::Base, Derived));
    assert!(a.verdict.keeps_up());
    assert_eq!(a.provenance, Assumed, "the verdict rests on a guess");
}

#[test]
fn a_cost_with_no_path_to_time_is_unanswerable() {
    let mut low = irq(1, 1, 200, 1_000, 900);
    low.cost = q(200, Unit::Iterations, Derived);
    low.arrival = Arrival::MinInterarrival(q(1_000, Unit::Iterations, Extracted));
    let s = Schedule::new(vec![low]);
    let a = s.response_time(InterruptId(1), q(0, Unit::Iterations, Derived));
    assert!(!a.verdict.is_answerable());
    assert_eq!(
        a.verdict,
        Schedulability::Unanswerable(Missing::NoPathToTime(Unit::Iterations)),
        "the honest reason is that a loop count is not a duration"
    );
}

#[test]
fn priority_is_numbered_the_way_the_hardware_numbers_it() {
    let high = irq(0, 0, 100, 1_000, 500);
    let low = irq(1, 7, 100, 1_000, 900);
    assert!(high.preempts(&low));
    assert!(!low.preempts(&high));
}

// Beyond the cases above.

#[test]
fn an_interrupt_that_is_not_declared_has_no_analysis() {
    let s = Schedule::new(vec![irq(0, 0, 100, 1_000, 500)]);
    assert!(s.get(InterruptId(3)).is_none());
    assert_eq!(s.get(InterruptId(0)).unwrap().priority, 0);
}

#[test]
fn the_fixed_point_reproduces_itself() {
    // 700 = 300 + ceil(700 / 1000) * 400: one more round changes nothing.
    let s = Schedule::new(vec![irq(0, 0, 400, 1_000, 500), irq(1, 1, 300, 1_000, 900)]);
    let a = s.response_time(InterruptId(1), q(0, Unit::Base, Derived));
    match a.verdict {
        Schedulability::Keeps { response, .. } => {
            let r = response.interval().hi();
            assert_eq!(300 + ((r + 999) / 1_000) * 400, r);
        },
        other => panic!("expected it to keep up, got {other:?}"),
    }
}

#[test]
fn a_full_load_is_exactly_one_million_parts() {
    let s = Schedule::new(vec![irq(0, 0, 500, 1_000, 1_000), irq(1, 1, 500, 1_000, 1_000)]);
    assert_eq!(s.utilisation_ppm().unwrap().0, FULLY_UTILISED);
}

#[test]
fn no_smaller_response_settles_the_recurrence() {
    let s = Schedule::new(vec![irq(0, 0, 400, 1_000, 500), irq(1, 1, 300, 1_000, 900)]);
    let a = s.response_time(InterruptId(1), q(0, Unit::Base, Derived));
    let r = match a.verdict {
        Schedulability::Keeps { response, .. } => response.interval().hi(),
        other => panic!("expected it to keep up, got {other:?}"),
    };
    for f in 300..r {
        assert_ne!(f, 300 + ((f + 999) / 1_000) * 400, "{f} would be a smaller fixed point");
    }
}
