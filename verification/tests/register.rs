use calx_telltale::expr::{Counter, Expr, Measure, Termination, WaitId};
use calx_telltale::interrupt::{Arrival, Consequence};
use calx_telltale::provenance::Provenance;
use calx_telltale::quantity::Unit;
use calx_telltale::register::{Fault, ParseError, Register};
use calx_telltale::source::SourceId;

const SAMPLE: &str = "\
# A part with one clock and two waits.
source id=0 hz=105000000 per=88 width=32 ppm=100 from=extracted

# A poll that gives up properly.
wait id=0 budget=8192 cost=1 unit=bus-reads counter=u32 measure=pre-decrement \
on-exhaustion=reports-error from=derived

# A teardown that does not.
wait id=1 budget=10000 cost=1 unit=ticks:0 counter=u32 measure=post-decrement \
on-exhaustion=silently-continues from=extracted
";

#[test]
fn a_register_round_trips_its_declarations() {
    let r = Register::parse(SAMPLE).unwrap();
    assert_eq!(r.sources.len(), 1);
    assert_eq!(r.waits.len(), 2);
    // The clock is held exactly rather than rounded to whole hertz.
    assert_eq!(
        (r.sources[0].nominal.num(), r.sources[0].nominal.den()),
        (13_125_000, 11)
    );
    assert_eq!(r.sources[0].tolerance_ppm, 100);
    assert_eq!(r.waits[0].counter, Counter::U32);
    assert_eq!(r.waits[1].measure, Measure::PostDecrement);
    assert_eq!(r.waits[1].cost_per_iter.unit(), Unit::Ticks(SourceId(0)));
    assert_eq!(r.waits[0].cost_per_iter.provenance(), Provenance::Derived);
}

#[test]
fn the_parsed_register_carries_the_finding_through() {
    // The point of parsing is to reach a verdict, so the wait that cannot
    // terminate is visible from the file alone.
    let r = Register::parse(SAMPLE).unwrap();
    assert_eq!(r.waits[0].termination(), Termination::WellFounded);
    assert_eq!(r.waits[1].termination(), Termination::Wraps);
}

#[test]
fn a_declaration_carries_where_it_was_read_from() {
    let text = "wait id=0 budget=8192 cost=1 unit=bus-reads counter=u32 \
                measure=pre-decrement on-exhaustion=asserts from=extracted \
                file=drivers/bus.c symbol=bus_wait_idle";
    let r = Register::parse(text).unwrap();
    let c = r.citation_for(0);
    assert_eq!(c.file.as_deref(), Some("drivers/bus.c"));
    assert_eq!(c.symbol.as_deref(), Some("bus_wait_idle"));
    assert_eq!(c.site(), "drivers/bus.c:bus_wait_idle");
}

#[test]
fn a_declaration_without_a_citation_still_parses() {
    // A swept or guessed value has no symbol to name, so demanding one
    // would push an author into inventing it.
    let r = Register::parse(SAMPLE).unwrap();
    assert!(r.citation_for(0).is_empty());
    assert_eq!(r.citation_for(0).site(), "no citation");
}

#[test]
fn a_blank_citation_is_absent_rather_than_the_word_it_was_written_as() {
    // A census emits `?` where it could not determine a site. That reaches
    // the reader as absent rather than as a literal question mark.
    let text = "wait id=0 budget=1 cost=1 unit=bus-reads counter=u32 \
                measure=pre-decrement on-exhaustion=asserts from=assumed \
                file=? symbol=?";
    let r = Register::parse(text).unwrap();
    assert!(r.citation_for(0).is_empty());
}

#[test]
fn a_tick_count_naming_no_clock_is_refused() {
    let bad = "wait id=0 budget=1 cost=1 unit=ticks:7 counter=u32 \
               measure=pre-decrement on-exhaustion=asserts from=derived";
    assert_eq!(Register::parse(bad).unwrap_err().what, Fault::UnnamedClock);
}

#[test]
fn a_blank_the_adapter_left_is_named_as_a_blank() {
    // A census emits `?` where a human has to decide. That is a different
    // finding from a field nobody wrote, and the message says which.
    let blank = "wait id=0 budget=? cost=1 unit=bus-reads counter=u32 \
                 measure=pre-decrement on-exhaustion=asserts from=derived";
    assert_eq!(
        Register::parse(blank).unwrap_err().what,
        Fault::StillBlank("budget")
    );
    let absent = "wait id=0 cost=1 unit=bus-reads counter=u32 \
                  measure=pre-decrement on-exhaustion=asserts from=derived";
    assert_eq!(
        Register::parse(absent).unwrap_err().what,
        Fault::Missing("budget")
    );
}

#[test]
fn an_error_points_at_the_line_it_happened_on() {
    let text = "source id=0 hz=1000 width=32 from=derived\nnonsense here\n";
    let e = Register::parse(text).unwrap_err();
    assert_eq!(e.line, 2);
    assert_eq!(e.what, Fault::Unrecognised);
    assert!(e.message().starts_with("line 2:"));
}

#[test]
fn hexadecimal_and_underscores_are_read_the_way_they_are_written() {
    let text = "wait id=0 budget=0x2000 cost=1_000 unit=bus-reads counter=u16 \
                measure=pre-decrement on-exhaustion=asserts from=extracted";
    let r = Register::parse(text).unwrap();
    assert_eq!(r.waits[0].budget, 0x2000);
    assert_eq!(r.waits[0].cost_per_iter.interval().hi(), 1_000);
}

#[test]
fn commentary_survives_because_a_register_has_to_be_reviewable() {
    let text = "# why this budget\nsource id=0 hz=1000 width=32 from=derived # inline\n";
    assert_eq!(Register::parse(text).unwrap().sources.len(), 1);
}

// What the grammar says beyond the cases above.

#[test]
fn a_message_names_the_line_and_the_fault_in_full() {
    let e = ParseError { line: 12, what: Fault::Missing("budget") };
    assert_eq!(e.message(), "line 12: missing budget");
    let e = ParseError { line: 3, what: Fault::StillBlank("cost") };
    assert_eq!(
        e.message(),
        "line 3: cost is still blank; a human has to supply it"
    );
    let e = ParseError { line: 100, what: Fault::UnknownOperand("of") };
    assert!(e.message().starts_with("line 100: of names a declaration"));
}

#[test]
fn a_missing_per_means_whole_hertz_and_a_missing_ppm_means_exact() {
    let r = Register::parse("source id=3 hz=32768 width=16 from=measured").unwrap();
    assert_eq!(r.sources[0].id, SourceId(3));
    assert_eq!((r.sources[0].nominal.num(), r.sources[0].nominal.den()), (32768, 1));
    assert_eq!(r.sources[0].tolerance_ppm, 0);
    assert_eq!(r.sources[0].width_bits, 16);
    assert_eq!(r.sources[0].nominal_prov, Provenance::Measured);
}

#[test]
fn a_zero_frequency_is_no_clock() {
    let e = Register::parse("source id=0 hz=0 width=32 from=derived").unwrap_err();
    assert_eq!(e.what, Fault::Malformed("hz"));
    let e = Register::parse("source id=0 hz=10 per=0 width=32 from=derived").unwrap_err();
    assert_eq!(e.what, Fault::Malformed("hz"));
}

#[test]
fn a_value_too_wide_for_its_field_is_malformed() {
    let e = Register::parse("source id=65536 hz=1 width=32 from=derived").unwrap_err();
    assert_eq!(e.what, Fault::Malformed("id"));
    let e = Register::parse("source id=0 hz=1 width=256 from=derived").unwrap_err();
    assert_eq!(e.what, Fault::Malformed("width"));
    let e = Register::parse("source id=0 hz=1 width=8 ppm=4294967296 from=derived").unwrap_err();
    assert_eq!(e.what, Fault::Malformed("ppm"));
    let e = Register::parse(
        "source id=0 hz=340282366920938463463374607431768211456 width=8 from=derived",
    )
    .unwrap_err();
    assert_eq!(e.what, Fault::Malformed("hz"));
}

#[test]
fn a_number_takes_a_plus_but_not_a_minus() {
    let r = Register::parse("source id=+1 hz=+10 width=8 from=derived").unwrap();
    assert_eq!(r.sources[0].id, SourceId(1));
    let e = Register::parse("source id=-1 hz=10 width=8 from=derived").unwrap_err();
    assert_eq!(e.what, Fault::Malformed("id"));
    let e = Register::parse("source id=+ hz=10 width=8 from=derived").unwrap_err();
    assert_eq!(e.what, Fault::Malformed("id"));
    let e = Register::parse("source id=_ hz=10 width=8 from=derived").unwrap_err();
    assert_eq!(e.what, Fault::Malformed("id"));
    let r = Register::parse("source id=0x0_F hz=0XA width=8 from=derived");
    assert_eq!(r.unwrap_err().what, Fault::Malformed("hz"));
    let r = Register::parse("source id=0xfF hz=1 width=8 from=derived").unwrap();
    assert_eq!(r.sources[0].id, SourceId(255));
}

#[test]
fn an_unknown_word_is_malformed_by_the_field_it_sits_in() {
    let e = Register::parse("source id=0 hz=1 width=8 from=rumour").unwrap_err();
    assert_eq!(e.what, Fault::Malformed("from"));
    let e = Register::parse(
        "wait id=0 budget=1 cost=1 unit=bus-reads counter=u12 measure=pre-decrement \
         on-exhaustion=asserts from=derived",
    )
    .unwrap_err();
    assert_eq!(e.what, Fault::Malformed("counter"));
    let e = Register::parse(
        "wait id=0 budget=1 cost=1 unit=furlongs counter=u8 measure=pre-decrement \
         on-exhaustion=asserts from=derived",
    )
    .unwrap_err();
    assert_eq!(e.what, Fault::Malformed("unit"));
}

#[test]
fn an_increment_reads_its_limit() {
    let r = Register::parse(
        "wait id=4 budget=9 cost=2 unit=iterations counter=u8 measure=increment limit=0x10 \
         on-exhaustion=asserts from=assumed",
    )
    .unwrap();
    assert_eq!(r.waits[0].id, WaitId(4));
    assert_eq!(r.waits[0].measure, Measure::Increment { limit: 16 });
    let e = Register::parse(
        "wait id=4 budget=9 cost=2 unit=iterations counter=u8 measure=increment \
         on-exhaustion=asserts from=assumed",
    )
    .unwrap_err();
    assert_eq!(e.what, Fault::Missing("limit"));
}

#[test]
fn a_window_reads_its_span_or_sits_at_the_origin() {
    let r = Register::parse(
        "window id=2 cost=40 unit=nanos from=measured at=10..20\n\
         window id=3 cost=5 unit=base from=derived",
    )
    .unwrap();
    assert_eq!(r.windows.len(), 2);
    assert_eq!(r.windows[0].0, 2);
    assert_eq!((r.windows[0].2.from(), r.windows[0].2.to()), (10, 20));
    assert_eq!(r.windows[0].1.interval().lo(), 40);
    assert_eq!((r.windows[1].2.from(), r.windows[1].2.to()), (0, 0));
    for bad in ["at=20..10", "at=10", "at=1...2", "at=a..b"] {
        let text = format!("window id=2 cost=40 unit=nanos from=measured {bad}");
        assert_eq!(
            Register::parse(&text).unwrap_err().what,
            Fault::Malformed("at")
        );
    }
}

#[test]
fn a_composition_reads_top_down() {
    let text = "\
wait id=0 budget=10 cost=1 unit=bus-reads counter=u8 measure=pre-decrement on-exhaustion=asserts from=derived
wait id=1 budget=20 cost=1 unit=bus-reads counter=u8 measure=pre-decrement on-exhaustion=asserts from=derived
compose id=0 form=seq of=w0,w1
compose id=1 form=repeat body=c0 times=3
compose id=2 form=short-circuit guard=w0 then=c1
compose id=3 form=alt of=c2,w1
";
    let r = Register::parse(text).unwrap();
    assert_eq!(r.compositions.len(), 4);
    assert!(matches!(&r.compositions[0].1, Expr::Sequence(v) if v.len() == 2));
    assert!(matches!(&r.compositions[1].1, Expr::Repeat { times: 3, .. }));
    assert!(matches!(&r.compositions[2].1, Expr::ShortCircuit { .. }));
    assert!(matches!(&r.compositions[3].1, Expr::Alt(v) if v.len() == 2));
    let forward = "compose id=0 form=seq of=w0\n";
    let e = Register::parse(forward).unwrap_err();
    assert_eq!(e.what, Fault::UnknownOperand("of"));
    let bad_form = "compose id=0 form=loop of=w0\n";
    assert_eq!(
        Register::parse(bad_form).unwrap_err().what,
        Fault::Malformed("form")
    );
}

#[test]
fn an_operand_that_cannot_be_split_is_not_read() {
    assert!(Register::read("compose id=0 form=seq of=").is_none());
    assert!(Register::read("compose id=0 form=repeat body=é1 times=2").is_none());
    // The first operand that names nothing ends the list before the bad one.
    let r = Register::read("compose id=0 form=seq of=w9,").unwrap();
    assert_eq!(r.unwrap_err().what, Fault::UnknownOperand("of"));
}

#[test]
fn an_interrupt_reads_its_arrival_cost_and_buffer() {
    let text = "interrupt id=5 unit=nanos from=measured every=1000 cost=50 priority=2 \
                deadline=400 armed=0..100 jitter=3 reenables=yes depth=4 on-drop=lost-and-logged";
    let r = Register::parse(text).unwrap();
    let irq = &r.interrupts[0];
    assert_eq!(irq.priority, 2);
    assert_eq!(irq.depth, 4);
    assert_eq!(irq.on_drop, Consequence::LostAndLogged);
    assert_eq!(irq.deadline.unwrap().interval().hi(), 400);
    assert!(matches!(irq.arrival, Arrival::MinInterarrival(q) if q.interval().lo() == 1000));
    let e = Register::parse(&text.replace("armed=0..100", "armed=9..1")).unwrap_err();
    assert_eq!(e.what, Fault::Malformed("armed"));
    let e = Register::parse(&text.replace("priority=2", "priority=256")).unwrap_err();
    assert_eq!(e.what, Fault::Malformed("priority"));
    let e = Register::parse(&text.replace("jitter=3", "jitter=x")).unwrap_err();
    assert_eq!(e.what, Fault::Malformed("jitter"));
}

#[test]
fn unicode_white_space_separates_fields_too() {
    let text = "source\u{3000}id=0\u{a0}hz=1000 width=8 from=derived\u{2003}\r\n";
    let r = Register::parse(text).unwrap();
    assert_eq!(r.sources.len(), 1);
}

#[test]
fn a_citation_out_of_range_is_empty() {
    let r = Register::parse(SAMPLE).unwrap();
    assert!(r.citation_for(7).is_empty());
    assert_eq!(r.citation_for(7).site(), "no citation");
}

#[test]
fn every_wait_has_the_citation_written_on_its_own_line() {
    let text = "\
source id=0 hz=1000 width=16 from=derived
wait id=4 budget=1 cost=1 unit=bus-reads counter=u8 measure=pre-decrement on-exhaustion=asserts from=derived file=a.c
window id=0 cost=3 unit=bus-reads from=derived
wait id=5 budget=2 cost=1 unit=bus-reads counter=u8 measure=pre-decrement on-exhaustion=asserts from=derived symbol=poll
";
    let r = Register::parse(text).unwrap();
    assert_eq!(r.wait_citations.len(), r.waits.len());
    assert_eq!(r.waits[0].id, WaitId(4));
    assert_eq!(r.citation_for(0).site(), "a.c");
    assert_eq!(r.waits[1].id, WaitId(5));
    assert_eq!(r.citation_for(1).site(), "poll");
}
