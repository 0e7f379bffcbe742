//! What this tool does not model.
//!
//! Reported on every run, because an exclusion that is not stated reads as
//! coverage. A verdict withheld for a missing declaration is one kind of
//! honesty; naming the failure classes that sit outside the model entirely is
//! the other, and only this half can be written down in advance.
use vstd::prelude::*;

verus! {

/// A failure class the model does not reach.
#[derive(Clone, Copy, PartialEq, Eq, Debug, Hash)]
pub struct Limit {
    /// A short name a report can group by.
    pub name: &'static str,
    /// Why it sits outside, in the terms an operator would use.
    pub because: &'static str,
}

/// How many exclusions the tool carries.
pub open spec fn limit_count() -> nat {
    9
}

/// Every exclusion this tool carries, in the order a report prints them.
///
/// A run prints these whether or not anything went wrong, so a clean sweep is
/// read as clean within a stated boundary rather than as clean absolutely.
pub fn limits() -> (r: Vec<Limit>)
    ensures
        r@.len() == limit_count(),
        r@[0].name@ == "execute-in-place"@,
        r@[1].name@ == "hangs that are not loops"@,
        r@[2].name@ == "unresolved indirect calls"@,
        r@[3].name@ == "windows across stack frames"@,
        r@[4].name@ == "correlated failure"@,
        r@[5].name@ == "nested budgets"@,
        r@[6].name@ == "release jitter"@,
        r@[7].name@ == "nesting within a priority level"@,
        r@[8].name@ == "worst-case execution time"@,
        r@[0].because@ == "instruction fetch over serial flash makes execution time depend on flash \
                  latency and cache state, and no conversion from a code span to a time is \
                  available on such a part"@,
        r@[1].because@ == "a take on a semaphore nobody gives, a mutex nobody unlocks, or a work item \
                  never submitted hangs without a back edge, so no census of loops will find it"@,
        r@[2].because@ == "calls through ops tables and device interfaces leave reachability unresolved, \
                  so any set of reachable waits is a lower bound rather than a census"@,
        r@[3].because@ == "an interrupts-off region opened in one frame and closed in another is invisible \
                  to a per-function analysis, and the locked-wrapper pattern makes those common"@,
        r@[4].because@ == "each clock's tolerance is modelled on its own, so a fault moving several \
                  clocks together is understated; the shared root is recorded, and the \
                  correlation is not yet carried into the arithmetic"@,
        r@[5].because@ == "a wait knows its own bound and not what its callers have already spent, so a \
                  per-item bound holds while a walk over items has none"@,
        r@[6].because@ == "an arrival is bounded by its shortest gap alone, so a release that drifts \
                  late and then early packs more arrivals into a window than the gap admits, and \
                  the interference it adds is not counted"@,
        r@[7].because@ == "priority is a strict order with no sharing, so handlers that re-enable \
                  interrupts and preempt one another at the same level are not modelled, and the \
                  response time of such a level is understated"@,
        r@[8].because@ == "a handler cost is declared rather than derived; this tool composes the number \
                  it is given and carries its provenance, and it does not compute one"@,
{
    let mut v: Vec<Limit> = Vec::new();
    v.push(
        Limit {
            name: "execute-in-place",
            because: "instruction fetch over serial flash makes execution time depend on flash \
                  latency and cache state, and no conversion from a code span to a time is \
                  available on such a part",
        },
    );
    v.push(
        Limit {
            name: "hangs that are not loops",
            because: "a take on a semaphore nobody gives, a mutex nobody unlocks, or a work item \
                  never submitted hangs without a back edge, so no census of loops will find it",
        },
    );
    v.push(
        Limit {
            name: "unresolved indirect calls",
            because: "calls through ops tables and device interfaces leave reachability unresolved, \
                  so any set of reachable waits is a lower bound rather than a census",
        },
    );
    v.push(
        Limit {
            name: "windows across stack frames",
            because: "an interrupts-off region opened in one frame and closed in another is invisible \
                  to a per-function analysis, and the locked-wrapper pattern makes those common",
        },
    );
    v.push(
        Limit {
            name: "correlated failure",
            because: "each clock's tolerance is modelled on its own, so a fault moving several \
                  clocks together is understated; the shared root is recorded, and the \
                  correlation is not yet carried into the arithmetic",
        },
    );
    v.push(
        Limit {
            name: "nested budgets",
            because: "a wait knows its own bound and not what its callers have already spent, so a \
                  per-item bound holds while a walk over items has none",
        },
    );
    v.push(
        Limit {
            name: "release jitter",
            because: "an arrival is bounded by its shortest gap alone, so a release that drifts \
                  late and then early packs more arrivals into a window than the gap admits, and \
                  the interference it adds is not counted",
        },
    );
    v.push(
        Limit {
            name: "nesting within a priority level",
            because: "priority is a strict order with no sharing, so handlers that re-enable \
                  interrupts and preempt one another at the same level are not modelled, and the \
                  response time of such a level is understated",
        },
    );
    v.push(
        Limit {
            name: "worst-case execution time",
            because: "a handler cost is declared rather than derived; this tool composes the number \
                  it is given and carries its provenance, and it does not compute one",
        },
    );
    v
}

/// How many exclusions the tool carries, for a report that wants the count
/// before the list.
pub fn count() -> (r: usize)
    ensures
        r == limit_count(),
{
    limits().len()
}

} // verus!
