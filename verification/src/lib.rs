//! calx-telltale: a verified calculator for waits, interrupts-off windows, and
//! the compositions built out of them.
//!
//! Arithmetic over integer intervals carrying units and provenance. A result
//! carries the weakest provenance of anything in its derivation, a count of
//! loop passes has no conversion to time, and a frequency is a reduced
//! rational rather than a rounded number of hertz. Where a register declares
//! several clocks, composition happens in a derived base in which every
//! declared period is a whole number of ticks.
pub mod census;
pub mod expr;
pub mod interrupt;
pub mod interval;
pub mod limits;
pub mod provenance;
pub mod quantity;
pub mod rate;
pub mod register;
pub mod schedule;
pub mod source;
pub mod text;

pub use interrupt::{
    Arrival, Consequence, Interrupt, InterruptId, Judgement, Missing, Sweep, Verdict,
};
pub use interval::Interval;
pub use limits::{limits, Limit};
pub use provenance::Provenance;
pub use quantity::{Quantity, Refusal, Unit};
pub use rate::{Base, NoBase, Rate};
pub use schedule::{Analysis, Schedulability, Schedule};
pub use source::{Delay, Rounding, Source, SourceId, Span, Validity};

use vstd::prelude::*;

verus! {

/// The width every stored count carries.
///
/// Every stored count is one width, held in one place: the register composes
/// in the finest base it can derive, and a narrow store would put a ceiling on
/// how fine that base is allowed to be.
pub type Count = u128;

} // verus!
