use calx_telltale::provenance::Provenance::{Assumed, Derived, Extracted, Measured};

#[test]
fn one_assumed_input_makes_the_answer_assumed() {
    assert_eq!(Derived.join(Assumed), Assumed);
    assert_eq!(Assumed.join(Derived), Assumed);
    assert_eq!(Extracted.join(Measured), Measured);
    assert_eq!(Derived.join(Derived), Derived);
}

#[test]
fn the_ordering_is_the_declared_one() {
    assert!(Assumed < Measured);
    assert!(Measured < Extracted);
    assert!(Extracted < Derived);
}

#[test]
fn a_join_is_the_weaker_of_the_two_in_either_order() {
    let all = [Assumed, Measured, Extracted, Derived];
    for a in all {
        for b in all {
            let j = a.join(b);
            assert!(j.strength() <= a.strength() && j.strength() <= b.strength());
            assert!(j == a || j == b);
            assert_eq!(j, b.join(a));
        }
    }
}

#[test]
fn a_join_is_the_minimum_of_the_order() {
    let all = [Assumed, Measured, Extracted, Derived];
    for a in all {
        for b in all {
            assert_eq!(a.join(b), a.min(b));
            assert_eq!(a.strength() < b.strength(), a < b);
        }
    }
}
