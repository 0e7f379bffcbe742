use calx_telltale::interval::Interval;
use calx_telltale::provenance::Provenance;
use calx_telltale::quantity::{Quantity, Unit};
use calx_telltale::rate::Rate;
use calx_telltale::source::{
    Delay, Origin, Rounding, Source, SourceId, SourceTable, Span, TreeFault, Validity,
};
use calx_telltale::Count;

fn a_source() -> Source {
    Source {
        id: SourceId(0),
        origin: Origin::Root,
        nominal: Rate::new(105_000_000, 88).unwrap(),
        nominal_prov: Provenance::Extracted,
        tolerance_ppm: 100,
        width_bits: 16,
        read_cost: Quantity::new(Interval::point(1), Unit::BusReads, Provenance::Measured),
        valid: Validity::Always,
    }
}

#[test]
fn a_sixteen_bit_counter_wraps_where_it_says_it_does() {
    let s = a_source();
    assert_eq!(s.counter_span(), 65_535);
    assert!(s.holds(65_535));
    assert!(!s.holds(65_536));
}

#[test]
fn validity_needs_the_whole_window_not_an_overlap() {
    let v = Validity::Over(Span::new(10, 20).unwrap());
    assert!(v.covers(Span::new(12, 18).unwrap()));
    assert!(v.covers(Span::new(10, 20).unwrap()));
    assert!(!v.covers(Span::new(15, 25).unwrap()));
    assert!(!v.covers(Span::new(5, 15).unwrap()));
}

#[test]
fn a_sleep_that_rounds_up_costs_up_to_a_whole_tick_more() {
    let d = Delay::Sleep {
        source: SourceId(0),
        granularity: Interval::point(10),
        rounding: Rounding::Up,
    };
    let cost = d.cost_of(Interval::new(1, 10).unwrap()).unwrap();
    assert_eq!((cost.lo(), cost.hi()), (10, 10));
    let cost = d.cost_of(Interval::point(11)).unwrap();
    assert_eq!((cost.lo(), cost.hi()), (20, 20));
}

#[test]
fn a_bare_spin_rides_on_no_clock() {
    assert_eq!(Delay::Bare.source(), None);
}

const CORE: SourceId = SourceId(0);
const COUNTER: SourceId = SourceId(1);
const TICK: SourceId = SourceId(2);

fn mk(id: SourceId, origin: Origin, nominal: Rate, width: u8, valid: Validity) -> Source {
    Source {
        id,
        origin,
        nominal,
        nominal_prov: Provenance::Extracted,
        tolerance_ppm: 0,
        width_bits: width,
        read_cost: Quantity::new(Interval::point(1), Unit::BusReads, Provenance::Measured),
        valid,
    }
}

fn one_root_part(core_valid: Validity) -> SourceTable {
    SourceTable::new(vec![
        mk(CORE, Origin::Root, Rate::hz(400_000_000).unwrap(), 0, core_valid),
        mk(
            COUNTER,
            Origin::Derived { parent: CORE, ratio: Rate::hz(1).unwrap() },
            Rate::hz(400_000_000).unwrap(),
            32,
            Validity::Always,
        ),
        mk(
            TICK,
            Origin::Derived { parent: COUNTER, ratio: Rate::new(1, 400_000).unwrap() },
            Rate::hz(1_000).unwrap(),
            64,
            Validity::Always,
        ),
    ])
}

#[test]
fn a_derived_rate_resolves_through_the_tree() {
    let t = one_root_part(Validity::Always);
    assert_eq!(t.resolve(CORE).unwrap(), Rate::hz(400_000_000).unwrap());
    assert_eq!(t.resolve(COUNTER).unwrap(), Rate::hz(400_000_000).unwrap());
    assert_eq!(t.resolve(TICK).unwrap(), Rate::hz(1_000).unwrap());
}

#[test]
fn a_declared_rate_that_disagrees_with_its_parent_is_caught() {
    let t = one_root_part(Validity::Always);
    let bad = Source { nominal: Rate::hz(100).unwrap(), ..*t.get(TICK).unwrap() };
    let t = SourceTable::new(vec![*t.get(CORE).unwrap(), *t.get(COUNTER).unwrap(), bad]);
    assert!(matches!(t.resolve(TICK), Err(TreeFault::Disagrees { .. })));
}

#[test]
fn reconfiguring_the_root_takes_every_clock_beneath_it() {
    let t = one_root_part(Validity::Over(Span::new(50, 1_000).unwrap()));
    let during = Span::new(0, 100).unwrap();
    let after = Span::new(60, 100).unwrap();
    assert!(!t.valid_over(CORE, during).unwrap());
    assert!(!t.valid_over(COUNTER, during).unwrap());
    assert!(!t.valid_over(TICK, during).unwrap());
    assert!(t.valid_over(TICK, after).unwrap());
}

#[test]
fn clocks_sharing_a_root_fail_together() {
    let t = one_root_part(Validity::Always);
    assert!(t.correlated(TICK, COUNTER).unwrap());
    assert_eq!(t.root_of(TICK).unwrap(), CORE);
}

#[test]
fn a_kilohertz_tick_that_rounds_up_puts_a_floor_under_every_sleep() {
    let sleep = Delay::Sleep {
        source: TICK,
        granularity: Interval::point(1_000_000),
        rounding: Rounding::Up,
    };
    let asked_one_microsecond = Interval::point(1_000);
    let cost = sleep.cost_of(asked_one_microsecond).unwrap();
    assert_eq!(cost, Interval::point(1_000_000));
    assert_eq!(cost.hi() / asked_one_microsecond.hi(), 1_000);
}

#[test]
fn a_thirty_two_bit_counter_bounds_the_window_it_can_time() {
    let t = one_root_part(Validity::Always);
    let counter = t.get(COUNTER).unwrap();
    let ten_seconds: Count = 10 * 400_000_000;
    let eleven_seconds: Count = 11 * 400_000_000;
    assert!(counter.holds(ten_seconds));
    assert!(!counter.holds(eleven_seconds));
    let headroom_ticks = counter.counter_span() - ten_seconds;
    assert!(headroom_ticks < 400_000_000, "under a second of headroom");
}

#[test]
fn an_undeclared_clock_or_parent_is_named() {
    let t = one_root_part(Validity::Always);
    assert_eq!(t.resolve(SourceId(9)), Err(TreeFault::Unknown(SourceId(9))));
    let orphan = mk(
        SourceId(5),
        Origin::Derived { parent: SourceId(6), ratio: Rate::hz(1).unwrap() },
        Rate::hz(10).unwrap(),
        8,
        Validity::Always,
    );
    let t = SourceTable::new(vec![orphan]);
    assert_eq!(
        t.root_of(SourceId(5)),
        Err(TreeFault::UnknownParent { child: SourceId(5), parent: SourceId(6) })
    );
}

#[test]
fn a_clock_that_hangs_off_itself_is_a_cycle() {
    let looped = mk(
        SourceId(3),
        Origin::Derived { parent: SourceId(3), ratio: Rate::hz(1).unwrap() },
        Rate::hz(10).unwrap(),
        8,
        Validity::Always,
    );
    let t = SourceTable::new(vec![looped]);
    assert_eq!(t.root_of(SourceId(3)), Err(TreeFault::Cycle(SourceId(3))));
    assert_eq!(t.resolve(SourceId(3)), Err(TreeFault::Cycle(SourceId(3))));
    assert_eq!(
        t.valid_over(SourceId(3), Span::new(0, 1).unwrap()),
        Err(TreeFault::Cycle(SourceId(3)))
    );
}

#[test]
fn a_wide_counter_holds_everything() {
    let mut s = a_source();
    s.width_bits = 128;
    assert_eq!(s.counter_span(), Count::MAX);
    s.width_bits = 0;
    assert_eq!(s.counter_span(), 0);
}

#[test]
fn a_sleep_that_returns_as_asked_costs_what_was_asked() {
    let d = Delay::Sleep {
        source: SourceId(0),
        granularity: Interval::point(10),
        rounding: Rounding::Exact,
    };
    assert_eq!(d.cost_of(Interval::point(11)), Some(Interval::point(11)));
    assert_eq!(d.source(), Some(SourceId(0)));
    let spin = Delay::Spin {
        per_iter: Quantity::new(Interval::point(1), Unit::Iterations, Provenance::Assumed),
        calibrated_against: Some(SourceId(4)),
    };
    assert_eq!(spin.source(), Some(SourceId(4)));
}
