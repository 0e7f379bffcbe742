use calx_telltale::rate::{gcd, lcm, Base, NoBase, Rate};
use calx_telltale::Count;

fn pit() -> Rate {
    Rate::new(105_000_000, 88).unwrap()
}

fn hpet() -> Rate {
    Rate::new(4 * 315_000_000, 88).unwrap()
}

#[test]
fn a_rate_reduces() {
    assert_eq!((pit().num(), pit().den()), (13_125_000, 11));
    assert_eq!((hpet().num(), hpet().den()), (157_500_000, 11));
}

#[test]
fn the_two_named_timers_share_an_exact_base() {
    let base = Base::derive(&[pit(), hpet()]).unwrap();
    assert_eq!(base.hz(), 157_500_000);
    assert_eq!(base.ticks_per_period(pit()), Some(132));
    assert_eq!(base.ticks_per_period(hpet()), Some(11));
}

#[test]
fn the_base_reports_what_it_can_represent() {
    let base = Base::derive(&[pit(), hpet()]).unwrap();
    assert!(base.representable_seconds() > 100_000_000_000);
    let fine = Base::derive(&[Rate::hz(1_000_000_000_000_000).unwrap()]).unwrap();
    assert!(fine.representable_seconds() > 100_000_000_000_000_000_000_000);
}

#[test]
fn an_empty_register_has_no_base() {
    assert_eq!(Base::derive(&[]), Err(NoBase::NoSources));
}

#[test]
fn a_base_that_will_not_fit_is_refused_rather_than_wrapped() {
    let wide = [Rate::hz(Count::MAX / 3).unwrap(), Rate::hz(Count::MAX / 5 - 1).unwrap()];
    assert_eq!(Base::derive(&wide), Err(NoBase::TooWide));
}

#[test]
fn a_rate_outside_the_derived_set_has_no_whole_period() {
    let base = Base::derive(&[pit()]).unwrap();
    assert_eq!(base.ticks_per_period(Rate::hz(7).unwrap()), Some(1_875_000));
    assert_eq!(base.ticks_per_period(Rate::hz(11).unwrap()), None);
}

#[test]
fn a_zero_part_is_not_a_rate() {
    assert!(Rate::new(0, 5).is_none());
    assert!(Rate::new(5, 0).is_none());
    assert!(Rate::hz(0).is_none());
}

#[test]
fn a_product_of_rates_is_exact_and_reduced() {
    let core = Rate::hz(400_000_000).unwrap();
    let tick = core.checked_mul(Rate::new(1, 400_000).unwrap()).unwrap();
    assert_eq!(tick, Rate::hz(1_000).unwrap());
    let third = pit().checked_mul(Rate::new(3, 4).unwrap()).unwrap();
    assert_eq!((third.num(), third.den()), (9_843_750, 11));
    let huge = Rate::hz(Count::MAX).unwrap();
    assert!(huge.checked_mul(Rate::hz(2).unwrap()).is_none());
}

#[test]
fn gcd_and_lcm_by_the_book() {
    assert_eq!(gcd(12, 18), 6);
    assert_eq!(gcd(7, 0), 7);
    assert_eq!(gcd(0, 9), 9);
    assert_eq!(lcm(4, 6), Some(12));
    assert_eq!(lcm(0, 6), None);
    assert_eq!(lcm(Count::MAX, 2), None);
}

#[test]
fn a_product_comes_back_in_lowest_terms() {
    let p = Rate::new(6, 35).unwrap().checked_mul(Rate::new(14, 9).unwrap()).unwrap();
    assert_eq!((p.num(), p.den()), (4, 15));
    assert_eq!(gcd(p.num(), p.den()), 1);
}

#[test]
fn no_smaller_base_holds_every_period() {
    let rates = [Rate::hz(6).unwrap(), Rate::hz(4).unwrap(), Rate::new(10, 3).unwrap()];
    let b = Base::derive(&rates).unwrap();
    assert_eq!(b.hz(), 60);
    for m in 1..b.hz() {
        assert!(rates.iter().any(|r| m % r.num() != 0), "{m} would be a smaller base");
    }
}
