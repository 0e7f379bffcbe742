use calx_telltale::interrupt::{Arrival, Consequence, Interrupt, InterruptId, Missing, Sweep, Verdict};
use calx_telltale::interval::Interval;
use calx_telltale::provenance::Provenance;
use calx_telltale::provenance::Provenance::{Assumed, Derived, Extracted};
use calx_telltale::quantity::{Quantity, Unit};
use calx_telltale::source::SourceId;
use calx_telltale::Count;

fn q(lo: Count, hi: Count, unit: Unit, p: Provenance) -> Quantity {
    Quantity::new(Interval::new(lo, hi).unwrap(), unit, p)
}

/// A line fed at one arrival every 1000 base ticks, buffered four deep,
/// with a deadline of 5000 base ticks.
fn line(depth: u32) -> Interrupt {
    Interrupt {
        id: InterruptId(0),
        arrival: Arrival::MinInterarrival(q(1_000, 1_000, Unit::Base, Extracted)),
        cost: q(10, 10, Unit::Base, Extracted),
        priority: 0,
        deadline: Some(q(5_000, 5_000, Unit::Base, Extracted)),
        depth,
        on_drop: Consequence::LostAndLogged,
    }
}

#[test]
fn a_blackout_inside_the_deadline_is_met() {
    let j = line(4).latency(q(0, 4_000, Unit::Base, Derived));
    assert_eq!(j.verdict, Verdict::Met);
}

#[test]
fn a_blackout_that_can_breach_is_reported_as_breaching() {
    // The worst case reaches past the deadline even though the best case
    // does not, and a worst-case tool reports the breach.
    let j = line(4).latency(q(0, 5_001, Unit::Base, Derived));
    assert_eq!(j.verdict, Verdict::Missed);
}

#[test]
fn occupancy_counts_the_arrival_at_the_instant_the_window_opens() {
    // A 3000-tick blackout at one arrival per 1000 ticks admits four: one
    // as it opens and three more inside it.
    let j = line(4).overrun(q(3_000, 3_000, Unit::Base, Derived));
    assert_eq!(j.measured.unwrap().interval().hi(), 4);
    assert_eq!(j.verdict, Verdict::Met);
}

#[test]
fn one_more_arrival_than_the_buffer_holds_is_a_miss() {
    // A ring four deep overruns on the fifth arrival, and the latency
    // verdict on the same window is comfortably met, which is the whole
    // point of asking the overrun question separately.
    let blackout = q(4_000, 4_000, Unit::Base, Derived);
    let irq = line(4);
    assert_eq!(irq.overrun(blackout).measured.unwrap().interval().hi(), 5);
    assert_eq!(irq.overrun(blackout).verdict, Verdict::Missed);
    assert_eq!(irq.latency(blackout).verdict, Verdict::Met);
}

#[test]
fn a_window_with_no_timebase_is_unanswerable_rather_than_passed() {
    // The clock tree is being reconfigured, so the window is honestly
    // denominated in loop passes and no conversion exists. The tool
    // declines both questions rather than assuming a rate.
    let blackout = q(0, 8_000, Unit::Iterations, Derived);
    let irq = line(4);
    assert_eq!(
        irq.latency(blackout).verdict,
        Verdict::Unanswerable(Missing::NoPathToTime(Unit::Iterations))
    );
    assert_eq!(
        irq.overrun(blackout).verdict,
        Verdict::Unanswerable(Missing::NoPathToTime(Unit::Iterations))
    );
}

#[test]
fn an_interrupt_with_no_deadline_still_answers_on_occupancy() {
    let mut irq = line(4);
    irq.deadline = None;
    let blackout = q(0, 500, Unit::Base, Derived);
    assert_eq!(
        irq.latency(blackout).verdict,
        Verdict::Unanswerable(Missing::NoDeadline)
    );
    assert_eq!(irq.overrun(blackout).verdict, Verdict::Met);
}

#[test]
fn an_arbitrarily_fast_line_bounds_nothing() {
    let mut irq = line(4);
    irq.arrival = Arrival::MinInterarrival(q(0, 10, Unit::Base, Assumed));
    assert_eq!(
        irq.overrun(q(0, 100, Unit::Base, Derived)).verdict,
        Verdict::Unanswerable(Missing::UnboundedArrivals)
    );
}

#[test]
fn a_guessed_arrival_rate_makes_the_verdict_a_guess() {
    let mut irq = line(4);
    irq.arrival = Arrival::MinInterarrival(q(1_000, 1_000, Unit::Base, Assumed));
    let j = irq.overrun(q(3_000, 3_000, Unit::Base, Derived));
    assert_eq!(j.verdict, Verdict::Met);
    assert_eq!(j.provenance, Assumed, "the verdict rests on a guess");
}

#[test]
fn a_periodic_arrival_reads_its_period_as_the_gap() {
    let irq = Interrupt {
        id: InterruptId(1),
        arrival: Arrival::Periodic {
            source: SourceId(0),
            period: q(1_000, 1_000, Unit::Base, Extracted),
        },
        cost: q(10, 10, Unit::Base, Extracted),
        priority: 1,
        deadline: None,
        depth: 2,
        on_drop: Consequence::Retried,
    };
    assert_eq!(irq.arrival.source(), Some(SourceId(0)));
    assert_eq!(
        irq.overrun(q(3_000, 3_000, Unit::Base, Derived)).verdict,
        Verdict::Missed
    );
}

#[test]
fn a_sweep_reports_what_it_withheld() {
    let irq = line(4);
    let mut sweep = Sweep::default();
    sweep.record(irq.latency(q(0, 4_000, Unit::Base, Derived)));
    sweep.record(irq.latency(q(0, 9_000, Unit::Base, Derived)));
    sweep.record(irq.latency(q(0, 8_000, Unit::Iterations, Derived)));
    assert_eq!((sweep.met, sweep.missed, sweep.withheld), (1, 1, 1));
    assert!(!sweep.is_complete(), "a withheld verdict is not a pass");
}
