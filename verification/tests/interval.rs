use calx_telltale::interval::Interval;
use calx_telltale::Count;

#[test]
fn an_inverted_interval_is_refused() {
    assert!(Interval::new(5, 4).is_none());
    assert!(Interval::new(4, 4).is_some());
}

#[test]
fn addition_refuses_rather_than_wrapping() {
    let big = Interval::point(Count::MAX);
    assert!(big.checked_add(Interval::point(1)).is_none());
}

#[test]
fn rounding_up_takes_the_ceiling() {
    // A sleep asking for 1 to 10 units on a 4-unit tick costs 4 to 12.
    let asked = Interval::new(1, 10).unwrap();
    let cost = asked.checked_round_up_to_multiple(4).unwrap();
    assert_eq!((cost.lo(), cost.hi()), (4, 12));
}

#[test]
fn rounding_a_whole_multiple_changes_nothing() {
    let asked = Interval::new(8, 16).unwrap();
    let cost = asked.checked_round_up_to_multiple(4).unwrap();
    assert_eq!((cost.lo(), cost.hi()), (8, 16));
}

#[test]
fn a_zero_granularity_is_refused() {
    assert!(Interval::point(3).checked_round_up_to_multiple(0).is_none());
}

#[test]
fn a_sum_contains_every_sum_of_points() {
    let a = Interval::new(2, 5).unwrap();
    let b = Interval::new(10, 20).unwrap();
    let s = a.checked_add(b).unwrap();
    assert_eq!((s.lo(), s.hi()), (12, 25));
    for x in 2..=5 {
        for y in 10..=20 {
            assert!(s.contains(x + y));
        }
    }
}

#[test]
fn a_product_pairs_the_endpoints_and_refuses_past_the_width() {
    let a = Interval::new(2, 5).unwrap();
    let b = Interval::new(3, 7).unwrap();
    let p = a.checked_mul(b).unwrap();
    assert_eq!((p.lo(), p.hi()), (6, 35));
    let wide = Interval::point(1 << 64);
    assert!(wide.checked_mul(wide).is_none());
    assert!(Interval::new(0, (1 << 64) - 1).unwrap().checked_mul(Interval::point(1 << 63)).is_some());
}

#[test]
fn a_maximum_is_taken_endpoint_by_endpoint() {
    let a = Interval::new(1, 9).unwrap();
    let b = Interval::new(4, 6).unwrap();
    let m = a.max(b);
    assert_eq!((m.lo(), m.hi()), (4, 9));
    assert!(!m.is_exact());
    assert!(Interval::point(7).is_exact());
}

#[test]
fn rounding_that_would_leave_the_width_is_refused() {
    assert!(Interval::point(Count::MAX).checked_round_up_to_multiple(2).is_none());
}
