use calx_telltale::interval::Interval;
use calx_telltale::provenance::Provenance;
use calx_telltale::provenance::Provenance::{Assumed, Derived, Extracted, Measured};
use calx_telltale::quantity::{Quantity, Refusal, Unit};
use calx_telltale::rate::{Base, Rate};
use calx_telltale::source::{Origin, Source, SourceId, Span, Validity};
use calx_telltale::Count;

fn pit_rate() -> Rate {
    Rate::new(105_000_000, 88).unwrap()
}
fn hpet_rate() -> Rate {
    Rate::new(4 * 315_000_000, 88).unwrap()
}

fn source(id: u16, rate: Rate, ppm: u32, valid: Validity, prov: Provenance) -> Source {
    Source {
        id: SourceId(id),
        origin: Origin::Root,
        nominal: rate,
        nominal_prov: prov,
        tolerance_ppm: ppm,
        width_bits: 32,
        read_cost: Quantity::new(Interval::point(1), Unit::BusReads, Measured),
        valid,
    }
}

fn q(v: Count, unit: Unit, p: Provenance) -> Quantity {
    Quantity::new(Interval::point(v), unit, p)
}

#[test]
fn adding_across_units_is_refused() {
    let a = q(1, Unit::Iterations, Derived);
    let b = q(1, Unit::BusReads, Derived);
    assert!(matches!(a.checked_add(b), Err(Refusal::UnitMismatch { .. })));
}

#[test]
fn two_clocks_are_not_the_same_unit() {
    let a = q(1, Unit::Ticks(SourceId(0)), Derived);
    let b = q(1, Unit::Ticks(SourceId(1)), Derived);
    assert!(matches!(a.checked_add(b), Err(Refusal::UnitMismatch { .. })));
}

#[test]
fn one_assumed_input_makes_the_sum_assumed() {
    let a = q(1, Unit::Iterations, Derived);
    let b = q(1, Unit::Iterations, Assumed);
    assert_eq!(a.checked_add(b).unwrap().provenance(), Assumed);
}

#[test]
fn the_two_named_timers_compose_exactly_in_the_base() {
    let base = Base::derive(&[pit_rate(), hpet_rate()]).unwrap();
    let pit = source(0, pit_rate(), 0, Validity::Always, Extracted);
    let hpet = source(1, hpet_rate(), 0, Validity::Always, Extracted);
    let w = Span::new(0, 100).unwrap();

    let a = q(10, Unit::Ticks(SourceId(0)), Extracted);
    let b = q(10, Unit::Ticks(SourceId(1)), Extracted);
    assert!(a.checked_add(b).is_err());

    let a = a.to_base(&pit, base, w).unwrap();
    let b = b.to_base(&hpet, base, w).unwrap();
    assert_eq!(a.interval(), Interval::point(1320));
    assert_eq!(b.interval(), Interval::point(110));

    let total = a.checked_add(b).unwrap();
    assert_eq!(total.interval(), Interval::point(1430));
    assert_eq!(total.unit(), Unit::Base);
}

#[test]
fn a_guessed_frequency_makes_every_time_derived_from_it_assumed() {
    let base = Base::derive(&[pit_rate()]).unwrap();
    let pit = source(0, pit_rate(), 0, Validity::Always, Assumed);
    let w = Span::new(0, 10).unwrap();
    let converted = q(100, Unit::Ticks(SourceId(0)), Derived).to_base(&pit, base, w).unwrap();
    assert_eq!(converted.provenance(), Assumed);
}

#[test]
fn a_clock_being_reconfigured_refuses_rather_than_guessing() {
    let base = Base::derive(&[pit_rate()]).unwrap();
    let pit = source(
        0,
        pit_rate(),
        0,
        Validity::Over(Span::new(50, 1000).unwrap()),
        Extracted,
    );
    let across_reconfig = Span::new(0, 100).unwrap();
    let after = Span::new(60, 100).unwrap();

    let count = q(100, Unit::Ticks(SourceId(0)), Extracted);
    assert_eq!(
        count.to_base(&pit, base, across_reconfig),
        Err(Refusal::SourceInvalid(SourceId(0)))
    );
    assert!(count.to_base(&pit, base, after).is_ok());
}

#[test]
fn a_tolerance_widens_outward_and_never_narrows() {
    let base = Base::derive(&[pit_rate()]).unwrap();
    let exact = source(0, pit_rate(), 0, Validity::Always, Extracted);
    let loose = source(0, pit_rate(), 10_000, Validity::Always, Extracted);
    let w = Span::new(0, 10).unwrap();
    let count = q(1000, Unit::Ticks(SourceId(0)), Extracted);

    let tight = count.to_base(&exact, base, w).unwrap().interval();
    let wide = count.to_base(&loose, base, w).unwrap().interval();
    assert!(wide.lo() <= tight.lo(), "the low end may only move down");
    assert!(wide.hi() >= tight.hi(), "the high end may only move up");
    assert!(wide.lo() < tight.lo() && wide.hi() > tight.hi());
}

#[test]
fn nanoseconds_are_a_presentation_step_and_round_outward() {
    let base = Base::derive(&[hpet_rate()]).unwrap();
    let one = Quantity::new(Interval::point(1), Unit::Base, Extracted);
    let ns = one.base_to_nanos(base).unwrap();
    assert_eq!(ns.unit(), Unit::Nanos);
    assert_eq!((ns.interval().lo(), ns.interval().hi()), (6, 7));
}

#[test]
fn a_count_that_cannot_reach_a_time_says_so() {
    assert!(!Unit::Iterations.is_temporal());
    assert!(!Unit::BusReads.is_temporal());
    assert!(Unit::Base.is_temporal());
}

#[test]
fn a_tolerance_of_a_million_parts_is_refused() {
    let base = Base::derive(&[pit_rate()]).unwrap();
    let broken = source(0, pit_rate(), 1_000_000, Validity::Always, Extracted);
    let w = Span::new(0, 10).unwrap();
    assert_eq!(
        q(1, Unit::Ticks(SourceId(0)), Extracted).to_base(&broken, base, w),
        Err(Refusal::ToleranceTooWide(1_000_000))
    );
}

#[test]
fn a_count_of_another_clock_is_refused_by_name() {
    let base = Base::derive(&[pit_rate()]).unwrap();
    let pit = source(0, pit_rate(), 0, Validity::Always, Extracted);
    let w = Span::new(0, 10).unwrap();
    assert_eq!(
        q(1, Unit::Cycles(SourceId(3)), Extracted).to_base(&pit, base, w),
        Err(Refusal::WrongSource { expected: SourceId(0), found: Unit::Cycles(SourceId(3)) })
    );
    assert_eq!(
        q(1, Unit::Iterations, Extracted).to_base(&pit, base, w),
        Err(Refusal::WrongSource { expected: SourceId(0), found: Unit::Iterations })
    );
}

#[test]
fn a_clock_outside_the_base_is_refused() {
    let base = Base::derive(&[Rate::hz(1000).unwrap()]).unwrap();
    let pit = source(0, pit_rate(), 0, Validity::Always, Extracted);
    let w = Span::new(0, 10).unwrap();
    assert_eq!(
        q(1, Unit::Ticks(SourceId(0)), Extracted).to_base(&pit, base, w),
        Err(Refusal::NotInBase(SourceId(0)))
    );
}

#[test]
fn a_conversion_that_leaves_the_width_is_refused() {
    let base = Base::derive(&[pit_rate()]).unwrap();
    let pit = source(0, pit_rate(), 0, Validity::Always, Extracted);
    let w = Span::new(0, 10).unwrap();
    assert_eq!(
        q(Count::MAX, Unit::Ticks(SourceId(0)), Extracted).to_base(&pit, base, w),
        Err(Refusal::Overflow)
    );
    assert_eq!(
        q(Count::MAX, Unit::Base, Extracted).base_to_nanos(base),
        Err(Refusal::Overflow)
    );
}

#[test]
fn only_base_ticks_become_nanoseconds() {
    let base = Base::derive(&[pit_rate()]).unwrap();
    assert_eq!(
        q(1, Unit::Iterations, Extracted).base_to_nanos(base),
        Err(Refusal::UnitMismatch { left: Unit::Iterations, right: Unit::Base })
    );
}

#[test]
fn repetition_multiplies_and_takes_the_weaker_provenance() {
    let body = Quantity::new(Interval::new(2, 3).unwrap(), Unit::BusReads, Derived);
    let r = body.checked_repeat(Interval::new(4, 5).unwrap(), Assumed).unwrap();
    assert_eq!(r.interval(), Interval::new(8, 15).unwrap());
    assert_eq!(r.provenance(), Assumed);
    assert_eq!(r.unit(), Unit::BusReads);
    assert_eq!(
        body.checked_repeat(Interval::point(Count::MAX), Derived),
        Err(Refusal::Overflow)
    );
}

#[test]
fn a_branch_takes_the_dearer_endpoints() {
    let a = Quantity::new(Interval::new(1, 9).unwrap(), Unit::Base, Derived);
    let b = Quantity::new(Interval::new(4, 6).unwrap(), Unit::Base, Measured);
    let m = a.checked_max(b).unwrap();
    assert_eq!(m.interval(), Interval::new(4, 9).unwrap());
    assert_eq!(m.provenance(), Measured);
    assert!(a.checked_max(q(1, Unit::Nanos, Derived)).is_err());
}
