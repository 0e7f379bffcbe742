//! Reading loops out of a disassembly listing.
//!
//! The listing has already solved the hard problem. Its address column is the
//! instruction boundaries, found by a decoder that knows the encoding.
//!
//! What is left is small: group the instructions by the function they sit in,
//! recognise the branches, and take the ones whose target sits at or before
//! them. That last part is what makes a loop rather than a jump onward.
use vstd::prelude::*;
use vstd::string::StringSliceAdditionalSpecFns;
use crate::register::radix_value;
use crate::register::radix_in;
use crate::text::{
    back_spaces_in, bytes_are, lemma_scan_bounds, lemma_skip_spaces_bounds, lemma_word_end_bounds,
    lossy_text, opens_with, opens_with_in, scan, scan_in, skip_spaces, skip_spaces_in, text_of,
    trim, word_end, word_end_in,
};

verus! {

/// Why a listing could not be read.
#[derive(Clone, PartialEq, Eq, Debug)]
pub enum NotAListing {
    /// No `file format` line, so this is not a disassembly listing.
    NoFormatLine,
    /// The listing names an architecture whose branches this adapter does not
    /// know. Declined by name rather than guessed at: a false loop is worse
    /// than a missing one, because it is a declaration a reader will act on.
    UnknownArchitecture(String),
    /// A listing with a header and no instructions in it.
    Empty,
}

/// Why a listing could not be read, with the architecture's name as text.
pub enum NotAListingView {
    NoFormatLine,
    UnknownArchitecture(Seq<char>),
    Empty,
}

impl View for NotAListing {
    type V = NotAListingView;

    open spec fn view(&self) -> NotAListingView {
        match self {
            NotAListing::NoFormatLine => NotAListingView::NoFormatLine,
            NotAListing::UnknownArchitecture(s) => NotAListingView::UnknownArchitecture(s@),
            NotAListing::Empty => NotAListingView::Empty,
        }
    }
}

/// A loop found in the listing.
#[derive(Clone, PartialEq, Eq, Debug)]
pub struct BackEdge {
    /// The function containing it.
    pub symbol: String,
    /// Where the branch sits.
    pub at: u64,
    /// Where it goes, which is at or before `at`.
    pub target: u64,
}

/// A loop, with its function's name as text.
pub struct BackEdgeView {
    pub symbol: Seq<char>,
    pub at: u64,
    pub target: u64,
}

impl View for BackEdge {
    type V = BackEdgeView;

    open spec fn view(&self) -> BackEdgeView {
        BackEdgeView { symbol: self.symbol@, at: self.at, target: self.target }
    }
}

/// The views of a list of loops.
pub open spec fn edge_views(v: Seq<BackEdge>) -> Seq<BackEdgeView> {
    v.map_values(|e: BackEdge| e@)
}

/// The architectures this adapter knows the branches of.
///
/// Deliberately a list rather than a heuristic. Growing it is a small,
/// checkable change; guessing is not.
#[derive(Clone, Copy, PartialEq, Eq, Structural, Debug)]
pub enum Isa {
    Arc,
    Arm,
    Aarch64,
    RiscV,
    X86_64,
}

/// A human-facing name for an architecture.
pub open spec fn isa_name(isa: Isa) -> &'static str {
    match isa {
        Isa::Arc => "ARC",
        Isa::Arm => "ARM",
        Isa::Aarch64 => "AArch64",
        Isa::RiscV => "RISC-V",
        Isa::X86_64 => "x86-64",
    }
}

/// Whether a mnemonic transfers control on an architecture. Prefixes rather
/// than whole mnemonics, because condition codes and width suffixes attach to
/// them. ARC's zero-overhead loop instruction is a loop with no backward
/// branch at all; it is listed so that it is found.
pub open spec fn branches(isa: Isa, m: Seq<u8>) -> bool {
    match isa {
        Isa::Arc => opens_with(m, "b".spec_bytes()) || opens_with(m, "j".spec_bytes())
            || opens_with(m, "dbnz".spec_bytes()) || opens_with(m, "lp".spec_bytes()),
        Isa::Arm => opens_with(m, "b".spec_bytes()) || opens_with(m, "cbz".spec_bytes())
            || opens_with(m, "cbnz".spec_bytes()),
        Isa::Aarch64 => opens_with(m, "b".spec_bytes()) || opens_with(m, "cbz".spec_bytes())
            || opens_with(m, "cbnz".spec_bytes()) || opens_with(m, "tbz".spec_bytes())
            || opens_with(m, "tbnz".spec_bytes()),
        Isa::RiscV => opens_with(m, "b".spec_bytes()) || opens_with(m, "j".spec_bytes())
            || opens_with(m, "c.b".spec_bytes()) || opens_with(m, "c.j".spec_bytes()),
        Isa::X86_64 => opens_with(m, "j".spec_bytes()) || opens_with(m, "loop".spec_bytes()),
    }
}

/// The first position at or after `i` where `p` occurs in `x`, or the end.
pub open spec fn find(x: Seq<u8>, p: Seq<u8>, i: int) -> int
    decreases x.len() + 1 - i,
{
    if 0 <= i && i + p.len() <= x.len() {
        if x.subrange(i, i + p.len() as int) == p {
            i
        } else {
            find(x, p, i + 1)
        }
    } else {
        x.len() as int
    }
}

/// Whether `p` occurs in `x`.
pub open spec fn contains(x: Seq<u8>, p: Seq<u8>) -> bool {
    find(x, p, 0) + p.len() <= x.len()
}

/// The architecture a format line names: the first of the known ones whose
/// format it contains.
pub open spec fn isa_of(line: Seq<u8>) -> Option<Isa> {
    if contains(line, "littlearc".spec_bytes()) {
        Some(Isa::Arc)
    } else if contains(line, "littlearm".spec_bytes()) {
        Some(Isa::Arm)
    } else if contains(line, "littleaarch64".spec_bytes()) {
        Some(Isa::Aarch64)
    } else if contains(line, "littleriscv".spec_bytes()) {
        Some(Isa::RiscV)
    } else if contains(line, "x86-64".spec_bytes()) {
        Some(Isa::X86_64)
    } else {
        None
    }
}

/// What a format line says after `file format`, up to any second one.
pub open spec fn format_named(line: Seq<u8>) -> Seq<u8> {
    let p = "file format".spec_bytes();
    let rest = line.subrange(find(line, p, 0) + p.len(), line.len() as int);
    trim(rest.subrange(0, find(rest, p, 0)))
}

/// The bounds of the first line from position `i` on that contains `p`.
pub open spec fn line_with(t: Seq<u8>, p: Seq<u8>, i: int) -> Option<(int, int)>
    decreases t.len() - i,
{
    if 0 <= i && i < t.len() {
        let e = scan(t, 10u8, i);
        proof {
            lemma_scan_bounds(t, 10u8, i);
        }
        if contains(t.subrange(i, e), p) {
            Some((i, e))
        } else if e < t.len() {
            line_with(t, p, e + 1)
        } else {
            None
        }
    } else {
        None
    }
}

pub proof fn lemma_line_with_contains(t: Seq<u8>, p: Seq<u8>, i: int)
    ensures
        line_with(t, p, i) matches Some(r) ==> 0 <= r.0 <= r.1 <= t.len() && contains(
            t.subrange(r.0, r.1),
            p,
        ),
    decreases t.len() - i,
{
    if 0 <= i && i < t.len() {
        lemma_scan_bounds(t, 10u8, i);
        let e = scan(t, 10u8, i);
        if !contains(t.subrange(i, e), p) && e < t.len() {
            lemma_line_with_contains(t, p, e + 1);
        }
    }
}

/// `w` with every leading `0x` taken off.
pub open spec fn strip_hex_prefix(w: Seq<u8>) -> Seq<u8>
    decreases w.len(),
{
    if w.len() >= 2 && w[0] == 48 && w[1] == 120 {
        strip_hex_prefix(w.subrange(2, w.len() as int))
    } else {
        w
    }
}

/// The first word of `x` from position `i` on that reads as a hexadecimal
/// address.
pub open spec fn first_address(x: Seq<u8>, i: int) -> Option<u64>
    decreases x.len() - i,
{
    if 0 <= i && i <= x.len() && skip_spaces(x, i) < x.len() {
        let j = skip_spaces(x, i);
        let e = word_end(x, j);
        proof {
            lemma_skip_spaces_bounds(x, i);
            lemma_word_end_bounds(x, j);
        }
        match radix_value(strip_hex_prefix(x.subrange(j, e)), 16, u64::MAX as int) {
            Some(v) => Some(v as u64),
            None => first_address(x, e),
        }
    } else {
        None
    }
}

/// The symbol a function header names, with the address it starts at. A
/// header is not indented, and reads `<address> <name>:` with the name in
/// angle brackets.
pub open spec fn header_of(line: Seq<u8>) -> Option<(u64, Seq<u8>)> {
    let sp = scan(line, 32u8, 0);
    if space_at_start(line) || sp >= line.len() {
        None
    } else {
        let rest = trim(line.subrange(sp + 1, line.len() as int));
        match radix_value(trim(line.subrange(0, sp)), 16, u64::MAX as int) {
            None => None,
            Some(v) => if rest.len() >= 3 && rest[0] == 60 && rest[rest.len() - 2] == 62
                && rest[rest.len() - 1] == 58 {
                Some((v as u64, rest.subrange(1, rest.len() - 2)))
            } else {
                None
            },
        }
    }
}

/// Whether a line opens with white space.
pub open spec fn space_at_start(line: Seq<u8>) -> bool {
    skip_spaces(line, 0) > 0
}

/// The address an instruction line sits at. An instruction line begins with
/// an indented hexadecimal address and a colon.
pub open spec fn address_of(line: Seq<u8>) -> Option<u64> {
    let t = line.subrange(skip_spaces(line, 0), line.len() as int);
    let c = scan(t, 58u8, 0);
    if !space_at_start(line) || c >= t.len() {
        None
    } else {
        match radix_value(trim(t.subrange(0, c)), 16, u64::MAX as int) {
            Some(v) => Some(v as u64),
            None => None,
        }
    }
}

/// Where the text after the last `d` in `x[..j]` starts, or zero.
pub open spec fn after_last(x: Seq<u8>, d: u8, j: int) -> int
    decreases j,
{
    if 0 < j && j <= x.len() && x[j - 1] != d {
        after_last(x, d, j - 1)
    } else {
        j
    }
}

/// The mnemonic of an instruction line and the address its operands name,
/// where one does. The address, the encoded bytes and the instruction are
/// tab-separated, and the instruction is last.
pub open spec fn instruction_of(line: Seq<u8>) -> Option<(Seq<u8>, Option<u64>)> {
    let t = line.subrange(skip_spaces(line, 0), line.len() as int);
    let c = scan(t, 58u8, 0);
    if c >= t.len() {
        None
    } else {
        let rest = t.subrange(c + 1, t.len() as int);
        let text = trim(rest.subrange(after_last(rest, 9u8, rest.len() as int), rest.len() as int));
        let j = skip_spaces(text, 0);
        if j >= text.len() {
            None
        } else {
            let e = word_end(text, j);
            Some((text.subrange(j, e), first_address(text, e)))
        }
    }
}

/// Where a walk over a listing has got to.
pub struct Walk {
    /// The function the walk is inside, by its name.
    pub symbol: Option<Seq<u8>>,
    /// Where that function starts.
    pub start: u64,
    /// Whether any instruction has been seen.
    pub saw: bool,
    /// The loops found so far.
    pub edges: Seq<BackEdgeView>,
}

/// What one line of a listing does to a walk. A branch counts as a loop when
/// it goes backward and stays inside the function it was found in; a branch
/// out of the function is a tail call or a jump onward.
pub open spec fn walk_line(isa: Isa, line: Seq<u8>, w: Walk) -> Walk {
    match header_of(line) {
        Some((addr, name)) => Walk { symbol: Some(name), start: addr, ..w },
        None => match address_of(line) {
            None => w,
            Some(at) => {
                let seen = Walk { saw: true, ..w };
                match instruction_of(line) {
                    Some((m, Some(target))) => if branches(isa, m) && target <= at && target
                        >= w.start && w.symbol is Some {
                        Walk {
                            edges: w.edges.push(
                                BackEdgeView {
                                    symbol: lossy_text(w.symbol->Some_0),
                                    at,
                                    target,
                                },
                            ),
                            ..seen
                        }
                    } else {
                        seen
                    },
                    _ => seen,
                }
            },
        },
    }
}

/// A walk over the lines of `t` from position `i` on.
pub open spec fn walk(isa: Isa, t: Seq<u8>, i: int, w: Walk) -> Walk
    decreases t.len() - i,
{
    if 0 <= i && i < t.len() {
        let e = scan(t, 10u8, i);
        proof {
            lemma_scan_bounds(t, 10u8, i);
        }
        let next = walk_line(isa, t.subrange(i, e), w);
        if e < t.len() {
            walk(isa, t, e + 1, next)
        } else {
            next
        }
    } else {
        w
    }
}

/// Every loop a listing shows, in the order they appear, with the name of the
/// architecture it was read as.
pub open spec fn back_edges_of(t: Seq<u8>) -> Result<(&'static str, Seq<BackEdgeView>), NotAListingView> {
    match line_with(t, "file format".spec_bytes(), 0) {
        None => Err(NotAListingView::NoFormatLine),
        Some((a, b)) => {
            let fl = t.subrange(a, b);
            match isa_of(fl) {
                None => Err(NotAListingView::UnknownArchitecture(lossy_text(format_named(fl)))),
                Some(isa) => {
                    let w = walk(
                        isa,
                        t,
                        0,
                        Walk { symbol: None, start: 0, saw: false, edges: seq![] },
                    );
                    if w.saw {
                        Ok((isa_name(isa), w.edges))
                    } else {
                        Err(NotAListingView::Empty)
                    }
                },
            }
        },
    }
}

/// Whether every loop in a list branches backward, to a target at or before
/// the branch.
pub open spec fn all_backward(es: Seq<BackEdgeView>) -> bool {
    forall|k: int| 0 <= k < es.len() ==> (#[trigger] es[k]).target <= es[k].at
}

proof fn lemma_walk_line_keeps_backward(isa: Isa, line: Seq<u8>, w: Walk)
    requires
        all_backward(w.edges),
    ensures
        all_backward(walk_line(isa, line, w).edges),
{
    let next = walk_line(isa, line, w);
    assert forall|k: int| 0 <= k < next.edges.len() implies (#[trigger] next.edges[k]).target
        <= next.edges[k].at by {
        if k < w.edges.len() {
            assert(next.edges[k] == w.edges[k]);
        }
    }
}

proof fn lemma_walk_keeps_backward(isa: Isa, t: Seq<u8>, i: int, w: Walk)
    requires
        all_backward(w.edges),
    ensures
        all_backward(walk(isa, t, i, w).edges),
    decreases t.len() - i,
{
    if 0 <= i && i < t.len() {
        let e = scan(t, 10u8, i);
        lemma_scan_bounds(t, 10u8, i);
        let next = walk_line(isa, t.subrange(i, e), w);
        lemma_walk_line_keeps_backward(isa, t.subrange(i, e), w);
        if e < t.len() {
            lemma_walk_keeps_backward(isa, t, e + 1, next);
        }
    }
}

/// Every loop a listing yields branches backward: a jump onward is never
/// reported as a loop.
pub proof fn lemma_every_loop_branches_backward(t: Seq<u8>)
    ensures
        back_edges_of(t) matches Ok((_, es)) ==> all_backward(es),
{
    let init = Walk { symbol: None, start: 0, saw: false, edges: seq![] };
    match line_with(t, "file format".spec_bytes(), 0) {
        Some((a, b)) => {
            match isa_of(t.subrange(a, b)) {
                Some(isa) => {
                    lemma_walk_keeps_backward(isa, t, 0, init);
                },
                None => {},
            }
        },
        None => {},
    }
}

/// Whether a line of `t` starts at `a`.
pub open spec fn starts_line(t: Seq<u8>, a: int) -> bool {
    0 <= a < t.len() && (a == 0 || t[a - 1] == 10)
}

/// The line of `t` that starts at `a`.
pub open spec fn line_of(t: Seq<u8>, a: int) -> Seq<u8> {
    t.subrange(a, scan(t, 10u8, a))
}

/// Whether the function header at line `h` is the last header at or before
/// position `l`, going no further than `upto`: no line after `h` and before
/// `upto` is a header.
pub open spec fn heads(t: Seq<u8>, h: int, upto: int, start: u64, name: Seq<u8>) -> bool {
    &&& starts_line(t, h)
    &&& h < upto
    &&& header_of(line_of(t, h)) == Some((start, name))
    &&& forall|m: int|
        h < m < upto && starts_line(t, m) ==> header_of(#[trigger] line_of(t, m)) is None
}

/// Whether the line at `l` shows the loop `e`: an instruction at `e.at`
/// whose mnemonic branches, back to `e.target`, inside the function whose
/// header is the last one above it, which names `e.symbol` and starts at or
/// before the target.
pub open spec fn edge_at(t: Seq<u8>, isa: Isa, e: BackEdgeView, l: int) -> bool {
    &&& starts_line(t, l)
    &&& address_of(line_of(t, l)) == Some(e.at)
    &&& (instruction_of(line_of(t, l)) matches Some((m, Some(target))) && target == e.target
        && branches(isa, m))
    &&& e.target <= e.at
    &&& exists|h: int, start: u64, name: Seq<u8>|
        #[trigger] heads(t, h, l + 1, start, name) && lossy_text(name) == e.symbol && start
            <= e.target
}

/// Whether a line of `t` before `upto` shows the loop `e`.
pub open spec fn shown(t: Seq<u8>, isa: Isa, e: BackEdgeView, upto: int) -> bool {
    exists|l: int| l < upto && #[trigger] edge_at(t, isa, e, l)
}

/// Whether lines of `t` show the loop `e1` before the loop `e2`.
pub open spec fn in_order(t: Seq<u8>, isa: Isa, e1: BackEdgeView, e2: BackEdgeView) -> bool {
    exists|l1: int, l2: int|
        l1 < l2 && #[trigger] edge_at(t, isa, e1, l1) && #[trigger] edge_at(t, isa, e2, l2)
}

/// Whether every loop in `es` is shown by a line of `t` before `upto`, and
/// the loops come in the order their lines do.
pub open spec fn edges_read(t: Seq<u8>, isa: Isa, es: Seq<BackEdgeView>, upto: int) -> bool {
    &&& forall|k: int| 0 <= k < es.len() ==> #[trigger] shown(t, isa, es[k], upto)
    &&& forall|k1: int, k2: int|
        0 <= k1 < k2 < es.len() ==> #[trigger] in_order(t, isa, es[k1], es[k2])
}

/// What a walk that has read every line before `i` knows.
pub open spec fn walked(t: Seq<u8>, isa: Isa, i: int, w: Walk) -> bool {
    &&& edges_read(t, isa, w.edges, i)
    &&& (w.symbol is Some ==> exists|h: int| #[trigger]
        heads(t, h, i, w.start, w.symbol->Some_0))
}

proof fn lemma_walk_line_read(t: Seq<u8>, isa: Isa, i: int, w: Walk)
    requires
        starts_line(t, i),
        walked(t, isa, i, w),
    ensures
        walked(t, isa, scan(t, 10u8, i) + 1, walk_line(isa, line_of(t, i), w)),
{
    let e = scan(t, 10u8, i);
    lemma_scan_bounds(t, 10u8, i);
    let line = line_of(t, i);
    let next = walk_line(isa, line, w);
    // No line starts strictly inside this one.
    assert forall|m: int| i < m <= e implies !starts_line(t, m) by {
        assert(t[m - 1] != 10u8);
    }
    lemma_edges_read_wider(t, isa, w.edges, i, e + 1);
    match header_of(line) {
        Some((addr, name)) => {
            assert(heads(t, i, e + 1, next.start, next.symbol->Some_0));
            assert(walked(t, isa, e + 1, next));
        },
        None => {
            if w.symbol is Some {
                let name = w.symbol->Some_0;
                let h = choose|h: int| #[trigger] heads(t, h, i, w.start, name);
                assert(heads(t, h, e + 1, w.start, name)) by {
                    assert forall|m: int|
                        h < m < e + 1 && starts_line(t, m) implies header_of(
                        #[trigger] line_of(t, m),
                    ) is None by {
                        if m < i {
                            assert(heads(t, h, i, w.start, name));
                        }
                    }
                }
            }
            match address_of(line) {
                None => {
                    assert(walked(t, isa, e + 1, next));
                },
                Some(at) => {
                    let seen = Walk { saw: true, ..w };
                    match instruction_of(line) {
                        Some((m, Some(target))) => {
                            if branches(isa, m) && target <= at && target >= w.start
                                && w.symbol is Some {
                                let name = w.symbol->Some_0;
                                let edge = BackEdgeView { symbol: lossy_text(name), at, target };
                                let h = choose|h: int| #[trigger] heads(t, h, i, w.start, name);
                                assert(heads(t, h, i + 1, w.start, name)) by {
                                    assert forall|m: int|
                                        h < m < i + 1 && starts_line(t, m) implies header_of(
                                        #[trigger] line_of(t, m),
                                    ) is None by {
                                        if m < i {
                                            assert(heads(t, h, i, w.start, name));
                                        }
                                    }
                                }
                                assert(edge_at(t, isa, edge, i));
                                let es = next.edges;
                                assert(es == w.edges.push(edge));
                                assert(shown(t, isa, edge, e + 1));
                                assert forall|k: int| 0 <= k < es.len() implies #[trigger] shown(
                                    t,
                                    isa,
                                    es[k],
                                    e + 1,
                                ) by {
                                    if k < w.edges.len() {
                                        assert(es[k] == w.edges[k]);
                                        assert(shown(t, isa, w.edges[k], e + 1));
                                    }
                                }
                                assert forall|k1: int, k2: int|
                                    0 <= k1 < k2 < es.len() implies #[trigger] in_order(
                                    t,
                                    isa,
                                    es[k1],
                                    es[k2],
                                ) by {
                                    assert(es[k1] == w.edges[k1]);
                                    if k2 < w.edges.len() {
                                        assert(es[k2] == w.edges[k2]);
                                        assert(in_order(t, isa, w.edges[k1], w.edges[k2]));
                                    } else {
                                        assert(es[k2] == edge);
                                        assert(shown(t, isa, w.edges[k1], i));
                                        let l1 = choose|l: int|
                                            l < i && #[trigger] edge_at(t, isa, w.edges[k1], l);
                                        assert(edge_at(t, isa, es[k1], l1) && edge_at(
                                            t,
                                            isa,
                                            es[k2],
                                            i,
                                        ));
                                    }
                                }
                                assert(edges_read(t, isa, es, e + 1));
                                assert(next.symbol == w.symbol && next.start == w.start);
                                assert(heads(t, h, e + 1, w.start, name)) by {
                                    assert forall|m: int|
                                        h < m < e + 1 && starts_line(t, m) implies header_of(
                                        #[trigger] line_of(t, m),
                                    ) is None by {
                                        if m < i {
                                            assert(heads(t, h, i, w.start, name));
                                        }
                                    }
                                }
                                assert(walked(t, isa, e + 1, next));
                            } else {
                                assert(walked(t, isa, e + 1, next));
                            }
                        },
                        _ => {
                            assert(walked(t, isa, e + 1, next));
                        },
                    }
                },
            }
        },
    }
}

proof fn lemma_walk_read(isa: Isa, t: Seq<u8>, i: int, w: Walk)
    requires
        i == 0 || (0 < i <= t.len() && t[i - 1] == 10),
        walked(t, isa, i, w),
    ensures
        edges_read(t, isa, walk(isa, t, i, w).edges, t.len() as int + 1),
    decreases t.len() - i,
{
    if 0 <= i && i < t.len() {
        let e = scan(t, 10u8, i);
        lemma_scan_bounds(t, 10u8, i);
        lemma_walk_line_read(t, isa, i, w);
        let next = walk_line(isa, t.subrange(i, e), w);
        if e < t.len() {
            lemma_walk_read(isa, t, e + 1, next);
        } else {
            lemma_edges_read_wider(t, isa, next.edges, e + 1, t.len() as int + 1);
        }
    } else {
        lemma_edges_read_wider(t, isa, w.edges, i, t.len() as int + 1);
    }
}

proof fn lemma_edges_read_wider(t: Seq<u8>, isa: Isa, es: Seq<BackEdgeView>, a: int, b: int)
    requires
        a <= b,
        edges_read(t, isa, es, a),
    ensures
        edges_read(t, isa, es, b),
{
    assert forall|k: int| 0 <= k < es.len() implies #[trigger] shown(t, isa, es[k], b) by {
        assert(shown(t, isa, es[k], a));
        let l = choose|l: int| l < a && #[trigger] edge_at(t, isa, es[k], l);
    }
}

/// Every loop a listing yields is shown by one of its lines, inside the
/// function whose header is the last one above that line, which names the
/// loop's function and starts at or before its target; the branch's mnemonic
/// is one the architecture branches with; and the loops come out in the
/// order their lines do.
pub proof fn lemma_every_loop_is_read_from_its_line(t: Seq<u8>)
    ensures
        back_edges_of(t) matches Ok((name, es)) ==> exists|isa: Isa|
            isa_name(isa) == name && #[trigger] edges_read(t, isa, es, t.len() as int + 1),
{
    let init = Walk { symbol: None, start: 0, saw: false, edges: seq![] };
    match line_with(t, "file format".spec_bytes(), 0) {
        Some((a, b)) => {
            match isa_of(t.subrange(a, b)) {
                Some(isa) => {
                    assert(walked(t, isa, 0, init));
                    lemma_walk_read(isa, t, 0, init);
                    let w = walk(isa, t, 0, init);
                    assert(edges_read(t, isa, w.edges, t.len() as int + 1));
                    if w.saw {
                        assert(back_edges_of(t) == Ok::<
                            (&'static str, Seq<BackEdgeView>),
                            NotAListingView,
>((isa_name(isa), w.edges)));
                        let r = back_edges_of(t)->Ok_0;
                        assert(r.1 == w.edges && r.0 == isa_name(isa));
                        assert(edges_read(t, isa, r.1, t.len() as int + 1));
                    }
                },
                None => {},
            }
        },
        None => {},
    }
}

proof fn lemma_no_line_with(t: Seq<u8>, p: Seq<u8>, i: int)
    requires
        p.len() > 0,
        i == 0 || (0 < i <= t.len() && t[i - 1] == 10),
    ensures
        line_with(t, p, i) is None <==> forall|a: int|
            i <= a && #[trigger] starts_line(t, a) ==> !contains(line_of(t, a), p),
    decreases t.len() - i,
{
    if 0 <= i && i < t.len() {
        let e = scan(t, 10u8, i);
        lemma_scan_bounds(t, 10u8, i);
        assert(starts_line(t, i));
        assert forall|m: int| i < m <= e implies !starts_line(t, m) by {
            assert(t[m - 1] != 10u8);
        }
        if !contains(t.subrange(i, e), p) && e < t.len() {
            lemma_no_line_with(t, p, e + 1);
        }
    } else {
        assert forall|a: int| i <= a && #[trigger] starts_line(t, a) implies !contains(
            line_of(t, a),
            p,
        ) by {}
    }
}

/// A listing is refused as having no format line exactly when none of its
/// lines contains `file format`.
pub proof fn lemma_no_format_line(t: Seq<u8>)
    ensures
        back_edges_of(t) == Err::<(&'static str, Seq<BackEdgeView>), NotAListingView>(
            NotAListingView::NoFormatLine,
        ) <==> forall|a: int|
            #[trigger] starts_line(t, a) ==> !contains(line_of(t, a), "file format".spec_bytes()),
{
    reveal_strlit("file format");
    lemma_no_line_with(t, "file format".spec_bytes(), 0);
    assert forall|a: int| #[trigger] starts_line(t, a) implies 0 <= a by {}
}

/// The first position at or after `i` in `s[lo..hi]` where `p` occurs, or `hi`.
fn find_in(s: &[u8], lo: usize, i: usize, hi: usize, p: &[u8]) -> (r: usize)
    requires
        lo <= i <= hi <= s@.len(),
    ensures
        r == lo + find(s@.subrange(lo as int, hi as int), p@, i - lo),
        i <= r <= hi,
{
    let ghost x = s@.subrange(lo as int, hi as int);
    let mut k = i;
    while hi - k >= p.len()
        invariant
            lo <= i <= k <= hi <= s@.len(),
            x == s@.subrange(lo as int, hi as int),
            find(x, p@, k - lo) == find(x, p@, i - lo),
        decreases hi - k,
    {
        let found = bytes_are(s, k, k + p.len(), p);
        proof {
            assert(x.subrange(k - lo, k - lo + p@.len()) =~= s@.subrange(
                k as int,
                k + p@.len(),
            ));
            if p@.len() == 0 {
                assert(s@.subrange(k as int, k as int) =~= p@);
            }
        }
        if found {
            return k;
        }
        k = k + 1;
    }
    hi
}

/// Whether `p` occurs in `s[lo..hi]`.
fn contains_in(s: &[u8], lo: usize, hi: usize, p: &str) -> (r: bool)
    requires
        lo <= hi <= s@.len(),
    ensures
        r == contains(s@.subrange(lo as int, hi as int), p.spec_bytes()),
{
    let pb = p.as_bytes();
    let k = find_in(s, lo, lo, hi, pb);
    k <= hi && hi - k >= pb.len()
}

fn isa_in(s: &[u8], a: usize, b: usize) -> (r: Option<Isa>)
    requires
        a <= b <= s@.len(),
    ensures
        r == isa_of(s@.subrange(a as int, b as int)),
{
    if contains_in(s, a, b, "littlearc") {
        Some(Isa::Arc)
    } else if contains_in(s, a, b, "littlearm") {
        Some(Isa::Arm)
    } else if contains_in(s, a, b, "littleaarch64") {
        Some(Isa::Aarch64)
    } else if contains_in(s, a, b, "littleriscv") {
        Some(Isa::RiscV)
    } else if contains_in(s, a, b, "x86-64") {
        Some(Isa::X86_64)
    } else {
        None
    }
}

fn isa_name_of(isa: Isa) -> (r: &'static str)
    ensures
        r == isa_name(isa),
{
    match isa {
        Isa::Arc => "ARC",
        Isa::Arm => "ARM",
        Isa::Aarch64 => "AArch64",
        Isa::RiscV => "RISC-V",
        Isa::X86_64 => "x86-64",
    }
}

fn branches_in(isa: Isa, s: &[u8], a: usize, b: usize) -> (r: bool)
    requires
        a <= b <= s@.len(),
    ensures
        r == branches(isa, s@.subrange(a as int, b as int)),
{
    match isa {
        Isa::Arc => opens_with_in(s, a, b, "b") || opens_with_in(s, a, b, "j") || opens_with_in(
            s,
            a,
            b,
            "dbnz",
        ) || opens_with_in(s, a, b, "lp"),
        Isa::Arm => opens_with_in(s, a, b, "b") || opens_with_in(s, a, b, "cbz")
            || opens_with_in(s, a, b, "cbnz"),
        Isa::Aarch64 => opens_with_in(s, a, b, "b") || opens_with_in(s, a, b, "cbz")
            || opens_with_in(s, a, b, "cbnz") || opens_with_in(s, a, b, "tbz") || opens_with_in(
            s,
            a,
            b,
            "tbnz",
        ),
        Isa::RiscV => opens_with_in(s, a, b, "b") || opens_with_in(s, a, b, "j")
            || opens_with_in(s, a, b, "c.b") || opens_with_in(s, a, b, "c.j"),
        Isa::X86_64 => opens_with_in(s, a, b, "j") || opens_with_in(s, a, b, "loop"),
    }
}

/// The bounds of the first line of `s` from position `i` on that contains `p`.
fn line_with_in(s: &[u8], p: &str) -> (r: Option<(usize, usize)>)
    ensures
        r is None <==> line_with(s@, p.spec_bytes(), 0) is None,
        r matches Some(q) ==> line_with(s@, p.spec_bytes(), 0) == Some((q.0 as int, q.1 as int))
            && q.0 <= q.1 <= s@.len(),
{
    proof {
        lemma_line_with_contains(s@, p.spec_bytes(), 0);
    }
    let mut i: usize = 0;
    proof {
        assert(s@.subrange(0, s@.len() as int) =~= s@);
    }
    while i < s.len()
        invariant
            i <= s@.len(),
            s@.subrange(0, s@.len() as int) == s@,
            line_with(s@, p.spec_bytes(), i as int) == line_with(s@, p.spec_bytes(), 0),
        decreases s@.len() - i,
    {
        let e = scan_in(s, 10u8, 0, i, s.len());
        proof {
            lemma_scan_bounds(s@, 10u8, i as int);
        }
        if contains_in(s, i, e, p) {
            return Some((i, e));
        }
        if e >= s.len() {
            return None;
        }
        i = e + 1;
    }
    None
}

/// `s[lo..hi]` with every leading `0x` taken off, by where it now starts.
fn strip_hex_prefix_in(s: &[u8], lo: usize, hi: usize) -> (r: usize)
    requires
        lo <= hi <= s@.len(),
    ensures
        lo <= r <= hi,
        s@.subrange(r as int, hi as int) == strip_hex_prefix(s@.subrange(lo as int, hi as int)),
{
    let mut k = lo;
    while hi - k >= 2 && s[k] == 48u8 && s[k + 1] == 120u8
        invariant
            lo <= k <= hi <= s@.len(),
            strip_hex_prefix(s@.subrange(k as int, hi as int)) == strip_hex_prefix(
                s@.subrange(lo as int, hi as int),
            ),
        decreases hi - k,
    {
        proof {
            let w = s@.subrange(k as int, hi as int);
            assert(w.subrange(2, w.len() as int) =~= s@.subrange(k + 2, hi as int));
        }
        k = k + 2;
    }
    proof {
        let w = s@.subrange(k as int, hi as int);
        if w.len() >= 2 {
            assert(w[0] == s@[k as int] && w[1] == s@[k + 1]);
        }
    }
    k
}

/// The first word of `s[lo..hi]` from position `i` on that reads as an address.
fn first_address_in(s: &[u8], lo: usize, i: usize, hi: usize) -> (r: Option<u64>)
    requires
        lo <= i <= hi <= s@.len(),
    ensures
        r == first_address(s@.subrange(lo as int, hi as int), i - lo),
{
    let ghost x = s@.subrange(lo as int, hi as int);
    let mut k = i;
    while k < hi
        invariant
            lo <= i <= k <= hi <= s@.len(),
            x == s@.subrange(lo as int, hi as int),
            first_address(x, k - lo) == first_address(x, i - lo),
        decreases hi - k,
    {
        let j = skip_spaces_in(s, lo, k, hi);
        proof {
            lemma_skip_spaces_bounds(x, k - lo);
        }
        if j >= hi {
            return None;
        }
        let e = word_end_in(s, lo, j, hi);
        proof {
            lemma_word_end_bounds(x, j - lo);
            assert(x.subrange(j - lo, e - lo) =~= s@.subrange(j as int, e as int));
        }
        let d = strip_hex_prefix_in(s, j, e);
        match radix_in(s, d, e, 16, 0xFFFF_FFFF_FFFF_FFFF) {
            Some(v) => {
                return Some(v as u64);
            },
            None => {},
        }
        k = e;
    }
    proof {
        lemma_skip_spaces_bounds(x, k - lo);
    }
    None
}

/// The trimmed bounds of `s[a..b]`.
fn trim_in(s: &[u8], a: usize, b: usize) -> (r: (usize, usize))
    requires
        a <= b <= s@.len(),
    ensures
        a <= r.0 <= r.1 <= b,
        s@.subrange(r.0 as int, r.1 as int) == trim(s@.subrange(a as int, b as int)),
{
    let t0 = skip_spaces_in(s, a, a, b);
    let t1 = back_spaces_in(s, a, t0, b, b);
    proof {
        assert(s@.subrange(a as int, b as int).subrange(t0 - a, t1 - a) =~= s@.subrange(
            t0 as int,
            t1 as int,
        ));
    }
    (t0, t1)
}

fn header_in(s: &[u8], a: usize, b: usize) -> (r: Option<(u64, usize, usize)>)
    requires
        a <= b <= s@.len(),
    ensures
        match header_of(s@.subrange(a as int, b as int)) {
            Some((addr, name)) => r matches Some(h) && h.0 == addr && a <= h.1 <= h.2 <= b
                && s@.subrange(h.1 as int, h.2 as int) == name,
            None => r is None,
        },
{
    let ghost line = s@.subrange(a as int, b as int);
    let j = skip_spaces_in(s, a, a, b);
    let sp = scan_in(s, 32u8, a, a, b);
    if j > a || sp >= b {
        return None;
    }
    proof {
        assert(line.subrange(0, sp - a) =~= s@.subrange(a as int, sp as int));
        assert(line.subrange(sp - a + 1, line.len() as int) =~= s@.subrange(sp + 1, b as int));
    }
    let (r0, r1) = trim_in(s, sp + 1, b);
    let (d0, d1) = trim_in(s, a, sp);
    match radix_in(s, d0, d1, 16, 0xFFFF_FFFF_FFFF_FFFF) {
        None => None,
        Some(v) => {
            let ghost rest = s@.subrange(r0 as int, r1 as int);
            if r1 - r0 >= 3 && s[r0] == 60u8 && s[r1 - 2] == 62u8 && s[r1 - 1] == 58u8 {
                proof {
                    assert(rest.subrange(1, rest.len() - 2) =~= s@.subrange(r0 + 1, r1 - 2));
                }
                Some((v as u64, r0 + 1, r1 - 2))
            } else {
                proof {
                    if rest.len() >= 3 {
                        assert(rest[0] == s@[r0 as int]);
                        assert(rest[rest.len() - 2] == s@[r1 - 2]);
                        assert(rest[rest.len() - 1] == s@[r1 - 1]);
                    }
                }
                None
            }
        },
    }
}

fn address_in(s: &[u8], a: usize, b: usize) -> (r: Option<u64>)
    requires
        a <= b <= s@.len(),
    ensures
        r == address_of(s@.subrange(a as int, b as int)),
{
    let ghost line = s@.subrange(a as int, b as int);
    let j = skip_spaces_in(s, a, a, b);
    let c = scan_in(s, 58u8, j, j, b);
    proof {
        assert(line.subrange(j - a, line.len() as int) =~= s@.subrange(j as int, b as int));
    }
    if j == a || c >= b {
        return None;
    }
    let (d0, d1) = trim_in(s, j, c);
    proof {
        assert(s@.subrange(j as int, b as int).subrange(0, c - j) =~= s@.subrange(
            j as int,
            c as int,
        ));
    }
    match radix_in(s, d0, d1, 16, 0xFFFF_FFFF_FFFF_FFFF) {
        Some(v) => Some(v as u64),
        None => None,
    }
}

fn instruction_in(s: &[u8], a: usize, b: usize) -> (r: Option<(usize, usize, Option<u64>)>)
    requires
        a <= b <= s@.len(),
    ensures
        match instruction_of(s@.subrange(a as int, b as int)) {
            Some((m, target)) => r matches Some(i) && a <= i.0 <= i.1 <= b && s@.subrange(
                i.0 as int,
                i.1 as int,
            ) == m && i.2 == target,
            None => r is None,
        },
{
    let ghost line = s@.subrange(a as int, b as int);
    let j = skip_spaces_in(s, a, a, b);
    let c = scan_in(s, 58u8, j, j, b);
    let ghost t = s@.subrange(j as int, b as int);
    proof {
        assert(line.subrange(j - a, line.len() as int) =~= t);
    }
    if c >= b {
        return None;
    }
    let ghost rest = s@.subrange(c + 1, b as int);
    proof {
        assert(t.subrange(c - j + 1, t.len() as int) =~= rest);
    }
    let mut k = b;
    while k > c + 1 && s[k - 1] != 9u8
        invariant
            c + 1 <= k <= b <= s@.len(),
            rest == s@.subrange(c + 1, b as int),
            after_last(rest, 9u8, k - c - 1) == after_last(rest, 9u8, rest.len() as int),
        decreases k,
    {
        proof {
            assert(rest[k - c - 2] == s@[k - 1]);
        }
        k = k - 1;
    }
    proof {
        if k > c + 1 {
            assert(rest[k - c - 2] == s@[k - 1]);
        }
        assert(rest.subrange(k - c - 1, rest.len() as int) =~= s@.subrange(k as int, b as int));
    }
    let (t0, t1) = trim_in(s, k, b);
    let ghost text = s@.subrange(t0 as int, t1 as int);
    let m0 = skip_spaces_in(s, t0, t0, t1);
    if m0 >= t1 {
        return None;
    }
    let m1 = word_end_in(s, t0, m0, t1);
    proof {
        assert(text.subrange(m0 - t0, m1 - t0) =~= s@.subrange(m0 as int, m1 as int));
    }
    let target = first_address_in(s, t0, m1, t1);
    Some((m0, m1, target))
}

/// Where a walk over a listing has got to, with the function it is inside by
/// the position of its name.
struct Walker {
    symbol: Option<(usize, usize)>,
    start: u64,
    saw: bool,
    edges: Vec<BackEdge>,
}

spec fn walker_view(s: Seq<u8>, w: Walker) -> Walk {
    Walk {
        symbol: match w.symbol {
            Some(p) => Some(s.subrange(p.0 as int, p.1 as int)),
            None => None,
        },
        start: w.start,
        saw: w.saw,
        edges: edge_views(w.edges@),
    }
}

spec fn walker_within(w: Walker, n: int) -> bool {
    w.symbol matches Some(p) ==> p.0 <= p.1 <= n
}

fn walk_line_in(isa: Isa, s: &[u8], a: usize, b: usize, w: &mut Walker)
    requires
        a <= b <= s@.len(),
        walker_within(*old(w), s@.len() as int),
    ensures
        walker_within(*final(w), s@.len() as int),
        walker_view(s@, *final(w)) == walk_line(
            isa,
            s@.subrange(a as int, b as int),
            walker_view(s@, *old(w)),
        ),
{
    match header_in(s, a, b) {
        Some((addr, n0, n1)) => {
            w.symbol = Some((n0, n1));
            w.start = addr;
            return ;
        },
        None => {},
    }
    let at = match address_in(s, a, b) {
        Some(v) => v,
        None => {
            return ;
        },
    };
    w.saw = true;
    match instruction_in(s, a, b) {
        Some((m0, m1, Some(target))) => {
            if branches_in(isa, s, m0, m1) && target <= at && target >= w.start {
                match w.symbol {
                    Some((n0, n1)) => {
                        let ghost before = w.edges@;
                        let e = BackEdge { symbol: text_of(s, n0, n1), at, target };
                        w.edges.push(e);
                        proof {
                            assert(edge_views(w.edges@) =~= edge_views(before).push(e@));
                        }
                    },
                    None => {},
                }
            }
        },
        _ => {},
    }
}

/// Every loop the listing shows, in the order they appear.
pub fn back_edges(listing: &str) -> (r: Result<(&'static str, Vec<BackEdge>), NotAListing>)
    ensures
        match back_edges_of(listing.spec_bytes()) {
            Ok((name, edges)) => r matches Ok((n, v)) && n == name && edge_views(v@) == edges,
            Err(e) => r matches Err(x) && x@ == e,
        },
{
    let s = listing.as_bytes();
    let (fa, fb) = match line_with_in(s, "file format") {
        Some(p) => p,
        None => return Err(NotAListing::NoFormatLine),
    };
    let isa = match isa_in(s, fa, fb) {
        Some(isa) => isa,
        None => {
            let pb = "file format".as_bytes();
            let k = find_in(s, fa, fa, fb, pb);
            let ghost fl = s@.subrange(fa as int, fb as int);
            proof {
                lemma_line_with_contains(s@, "file format".spec_bytes(), 0);
            }
            let from = k + pb.len();
            let m = find_in(s, from, from, fb, pb);
            let (t0, t1) = trim_in(s, from, m);
            proof {
                let rest = fl.subrange(k - fa + pb@.len(), fl.len() as int);
                assert(rest =~= s@.subrange(from as int, fb as int));
                assert(rest.subrange(0, m - from) =~= s@.subrange(from as int, m as int));
            }
            return Err(NotAListing::UnknownArchitecture(text_of(s, t0, t1)));
        },
    };
    let mut w = Walker { symbol: None, start: 0, saw: false, edges: Vec::new() };
    let ghost init = Walk { symbol: None, start: 0, saw: false, edges: seq![] };
    proof {
        assert(walker_view(s@, w) =~= init) by {
            assert(edge_views(w.edges@) =~= Seq::<BackEdgeView>::empty());
        }
        assert(s@.subrange(0, s@.len() as int) =~= s@);
    }
    let mut i: usize = 0;
    while i < s.len()
        invariant_except_break
            walk(isa, s@, 0, init) == walk(isa, s@, i as int, walker_view(s@, w)),
        invariant
            i <= s@.len(),
            s@.subrange(0, s@.len() as int) == s@,
            walker_within(w, s@.len() as int),
        ensures
            walk(isa, s@, 0, init) == walker_view(s@, w),
        decreases s@.len() - i,
    {
        let e = scan_in(s, 10u8, 0, i, s.len());
        proof {
            lemma_scan_bounds(s@, 10u8, i as int);
        }
        walk_line_in(isa, s, i, e, &mut w);
        if e >= s.len() {
            break;
        }
        i = e + 1;
    }
    if !w.saw {
        return Err(NotAListing::Empty);
    }
    Ok((isa_name_of(isa), w.edges))
}

/// The functions a list of loops sits in, by name.
pub open spec fn loop_functions(es: Seq<BackEdgeView>) -> Set<Seq<char>> {
    es.map_values(|e: BackEdgeView| e.symbol).to_set()
}

proof fn lemma_push_to_set(s: Seq<Seq<char>>, x: Seq<char>)
    ensures
        s.push(x).to_set() == s.to_set().insert(x),
{
    broadcast use vstd::set::group_set_axioms;

    let t = s.push(x);
    assert forall|a: Seq<char>| t.to_set().contains(a) <==> s.to_set().insert(x).contains(a) by {
        if t.contains(a) {
            let k = choose|k: int| 0 <= k < t.len() && t[k] == a;
            if k < s.len() {
                assert(s[k] == a);
                assert(s.contains(a));
            }
        }
        if s.contains(a) {
            let k = choose|k: int| 0 <= k < s.len() && s[k] == a;
            assert(t[k] == a);
            assert(t.contains(a));
        }
        if a == x {
            assert(t[s.len() as int] == x);
            assert(t.contains(a));
        }
    }
    assert(t.to_set() =~= s.to_set().insert(x));
}

/// How many distinct functions a list of loops sits in.
pub fn distinct_functions(edges: &Vec<BackEdge>) -> (r: usize)
    ensures
        r == loop_functions(edge_views(edges@)).len(),
{
    broadcast use {vstd::seq_lib::group_seq_properties, vstd::set::group_set_axioms};

    let ghost names = edge_views(edges@).map_values(|e: BackEdgeView| e.symbol);
    let mut seen: Vec<String> = Vec::new();
    let mut i: usize = 0;
    proof {
        assert(names.subrange(0, 0) =~= Seq::<Seq<char>>::empty());
        assert(seen@.map_values(|s: String| s@) =~= Seq::<Seq<char>>::empty());
    }
    while i < edges.len()
        invariant
            0 <= i <= edges@.len(),
            names == edge_views(edges@).map_values(|e: BackEdgeView| e.symbol),
            names.len() == edges@.len(),
            seen@.map_values(|s: String| s@).no_duplicates(),
            seen@.map_values(|s: String| s@).to_set() == names.subrange(0, i as int).to_set(),
        decreases edges@.len() - i,
    {
        let name = &edges[i].symbol;
        let ghost before = seen@.map_values(|s: String| s@);
        let mut j: usize = 0;
        let mut found = false;
        while j < seen.len()
            invariant
                0 <= j <= seen@.len(),
                before == seen@.map_values(|s: String| s@),
                found ==> before.contains(name@),
                !found ==> forall|k: int| 0 <= k < j ==> before[k] != name@,
            decreases seen@.len() - j,
        {
            if seen[j] == *name {
                proof {
                    assert(before[j as int] == name@);
                }
                found = true;
            }
            j = j + 1;
        }
        proof {
            assert(names[i as int] == name@);
            assert(names.subrange(0, i + 1) =~= names.subrange(0, i as int).push(name@));
            lemma_push_to_set(names.subrange(0, i as int), name@);
        }
        if !found {
            seen.push(name.clone());
            proof {
                assert(seen@.map_values(|s: String| s@) =~= before.push(name@));
                assert(!before.contains(name@));
                lemma_push_to_set(before, name@);
            }
        } else {
            proof {
                assert(before.to_set().insert(name@) =~= before.to_set());
            }
        }
        i = i + 1;
    }
    proof {
        assert(names.subrange(0, i as int) =~= names);
        seen@.map_values(|s: String| s@).unique_seq_to_set();
    }
    seen.len()
}

} // verus!
