use calx_telltale::limits::{count, limits};

#[test]
fn every_limit_says_why() {
    assert!(count() >= 7);
    for l in limits() {
        assert!(!l.name.is_empty());
        assert!(
            l.because.len() > 40,
            "an exclusion with no reason is a shrug: {}",
            l.name
        );
    }
}

#[test]
fn the_declared_scope_boundaries_are_present() {
    let names: Vec<&str> = limits().iter().map(|l| l.name).collect();
    for expected in [
        "execute-in-place",
        "unresolved indirect calls",
        "correlated failure",
        "release jitter",
        "nesting within a priority level",
        "worst-case execution time",
    ] {
        assert!(names.contains(&expected), "missing exclusion: {expected}");
    }
}

#[test]
fn the_count_is_the_length_of_the_list() {
    assert_eq!(count(), limits().len());
    assert_eq!(count(), 9);
}
