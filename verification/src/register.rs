//! The declaration everything else computes over, and its file format.
//!
//! Line-oriented on purpose. The register is the artefact that gets committed
//! beside the image it describes, so it has to diff cleanly, review in a pull
//! request, and be editable by hand where an adapter left a blank.
//!
//! A line is a kind followed by `key=value` fields separated by white space.
//! Blank lines and everything after a `#` are ignored, so a register can carry
//! the commentary that makes it reviewable. The grammar is stated here over the
//! bytes of the text, and the reader is proved to follow it.
use vstd::prelude::*;
use vstd::string::StringSliceAdditionalSpecFns;
use crate::expr::{
    counter_limit, termination_of, Counter, CounterFit, Exhaustion, Expr, ExprView, Measure,
    Termination, Wait, WaitId,
};
use crate::interrupt::{Arrival, Consequence, Interrupt, InterruptId};
use crate::interval::Interval;
use crate::provenance::{rank, weaker, Provenance};
use crate::quantity::{Quantity, Unit};
use crate::rate::Rate;
use crate::Count;
use crate::source::{Origin, Source, SourceId, Span, Validity};
use crate::expr::{lemma_views, views};
use crate::text::{
    ascii_space, back_spaces_in, lemma_back_spaces_bounds, before, bytes_are, is_word, lemma_scan_bounds,
    lemma_skip_spaces_bounds, lemma_word_end_bounds, lossy_text, opens_with, opens_with_in, scan,
    scan_in, scan_pair, scan_pair_in, skip_spaces, skip_spaces_in, space_at, space_width, text_of,
    trim, word_end, word_end_in,
};

verus! {

/// Why a register could not be read.
#[derive(Clone, Copy, PartialEq, Eq, Debug)]
pub struct ParseError {
    /// The line it happened on, counted from one, so a message can point at it.
    pub line: usize,
    pub what: Fault,
}

/// What was wrong with a line.
#[derive(Clone, Copy, PartialEq, Eq, Debug)]
pub enum Fault {
    /// A line the grammar has no rule for.
    Unrecognised,
    /// A field the declaration requires and this line does not carry.
    Missing(&'static str),
    /// A field that is present and unreadable.
    Malformed(&'static str),
    /// A blank the adapter left for a human, still blank.
    StillBlank(&'static str),
    /// A tick count that names no declared clock, which would put a rate into
    /// the model as a bare number.
    UnnamedClock,
    /// An operand naming a declaration this register has not made yet. A
    /// composition reads top down, so what it refers to comes first.
    UnknownOperand(&'static str),
}

// ---------------------------------------------------------------------------
// Fields

/// One `key=value` field of a line, as the bytes of its key and its value.
pub type Field = (Seq<u8>, Seq<u8>);

/// The fields of `x` from position `i` on: its white-space separated words,
/// each split at its first `=`. A word with no `=` is no field.
pub open spec fn fields_from(x: Seq<u8>, i: int) -> Seq<Field>
    decreases x.len() - i,
{
    if 0 <= i && i <= x.len() && skip_spaces(x, i) < x.len() {
        let j = skip_spaces(x, i);
        let e = word_end(x, j);
        let w = x.subrange(j, e);
        let q = scan(w, 61u8, 0);
        proof {
            lemma_skip_spaces_bounds(x, i);
            lemma_word_end_bounds(x, j);
        }
        let rest = fields_from(x, e);
        if q < w.len() {
            seq![(w.subrange(0, q), w.subrange(q + 1, w.len() as int))] + rest
        } else {
            rest
        }
    } else {
        seq![]
    }
}

/// The value of the first field from position `i` on whose key is `key`.
pub open spec fn lookup(fs: Seq<Field>, key: Seq<u8>, i: int) -> Option<Seq<u8>>
    decreases fs.len() - i,
{
    if 0 <= i && i < fs.len() {
        if fs[i].0 == key {
            Some(fs[i].1)
        } else {
            lookup(fs, key, i + 1)
        }
    } else {
        None
    }
}

/// The value a line gives `key`. A `?` is a blank an adapter left for a
/// human, which is a different finding from a field nobody wrote.
pub open spec fn field_of(fs: Seq<Field>, key: &'static str) -> Result<Seq<u8>, Fault> {
    match lookup(fs, key.spec_bytes(), 0) {
        None => Err(Fault::Missing(key)),
        Some(v) => if v == seq![63u8] {
            Err(Fault::StillBlank(key))
        } else {
            Ok(v)
        },
    }
}

// ---------------------------------------------------------------------------
// Numbers

/// The value of a digit byte in any radix up to 36, or 99 for a byte that is
/// no digit.
pub open spec fn digit_of(b: u8) -> int {
    if 48 <= b && b <= 57 {
        b - 48
    } else if 97 <= b && b <= 122 {
        b - 87
    } else if 65 <= b && b <= 90 {
        b - 55
    } else {
        99
    }
}

/// Whether every byte of `d` is a digit of `radix`.
pub open spec fn all_digits(d: Seq<u8>, radix: int) -> bool {
    forall|k: int| 0 <= k < d.len() ==> digit_of(#[trigger] d[k]) < radix
}

/// The number the digits `d` write in `radix`.
pub open spec fn digits_value(d: Seq<u8>, radix: int) -> int
    decreases d.len(),
{
    if d.len() == 0 {
        0
    } else {
        digits_value(d.drop_last(), radix) * radix + digit_of(d.last())
    }
}

/// A number as `from_str_radix` reads it for an unsigned type whose largest
/// value is `max`: an optional `+`, then at least one digit, and nothing that
/// does not fit.
pub open spec fn radix_value(c: Seq<u8>, radix: int, max: int) -> Option<u128> {
    if c.len() == 0 || c == seq![43u8] || c == seq![45u8] {
        None
    } else {
        let d = if c[0] == 43 {
            c.subrange(1, c.len() as int)
        } else {
            c
        };
        if all_digits(d, radix) && digits_value(d, radix) <= max {
            Some(digits_value(d, radix) as u128)
        } else {
            None
        }
    }
}

/// `x` with every `c` taken out.
pub open spec fn without(x: Seq<u8>, c: u8) -> Seq<u8>
    decreases x.len(),
{
    if x.len() == 0 {
        x
    } else if x.last() == c {
        without(x.drop_last(), c)
    } else {
        without(x.drop_last(), c).push(x.last())
    }
}

/// A count as a register writes it: decimal, or hexadecimal after `0x`, with
/// `_` allowed anywhere as a separator.
pub open spec fn count_of(raw: Seq<u8>) -> Option<u128> {
    if opens_with(raw, seq![48u8, 120u8]) {
        radix_value(without(raw.subrange(2, raw.len() as int), 95u8), 16, u128::MAX as int)
    } else {
        radix_value(without(raw, 95u8), 10, u128::MAX as int)
    }
}

/// The count a line gives `key`.
pub open spec fn number_of(fs: Seq<Field>, key: &'static str) -> Result<u128, Fault> {
    match field_of(fs, key) {
        Err(e) => Err(e),
        Ok(v) => match count_of(v) {
            Some(n) => Ok(n),
            None => Err(Fault::Malformed(key)),
        },
    }
}

/// The count a line gives `key`, or `dflt` where it gives none.
pub open spec fn number_or(fs: Seq<Field>, key: &'static str, dflt: u128) -> Result<u128, Fault> {
    match number_of(fs, key) {
        Err(Fault::Missing(_)) => Ok(dflt),
        r => r,
    }
}

pub proof fn lemma_digits_prefix(d: Seq<u8>, radix: int, k: int)
    requires
        radix >= 1,
        0 <= k <= d.len(),
    ensures
        0 <= digits_value(d.subrange(0, k), radix) <= digits_value(d, radix),
    decreases d.len(),
{
    if k < d.len() {
        let p = d.drop_last();
        lemma_digits_prefix(p, radix, k);
        assert(p.subrange(0, k) =~= d.subrange(0, k));
        let a = digits_value(p, radix);
        let g = digit_of(d.last());
        assert(a * radix + g >= a) by (nonlinear_arith)
            requires
                a >= 0,
                radix >= 1,
                g >= 0,
        ;
    } else {
        assert(d.subrange(0, k) =~= d);
        lemma_digits_nonneg(d, radix);
    }
}

pub proof fn lemma_digits_nonneg(d: Seq<u8>, radix: int)
    requires
        radix >= 1,
    ensures
        digits_value(d, radix) >= 0,
    decreases d.len(),
{
    if d.len() > 0 {
        lemma_digits_nonneg(d.drop_last(), radix);
        let a = digits_value(d.drop_last(), radix);
        assert(a * radix >= 0) by (nonlinear_arith)
            requires
                a >= 0,
                radix >= 1,
        ;
    }
}

/// Whether `s[lo..hi]` sits inside `s` and holds `v`.
pub open spec fn holds_at(s: Seq<u8>, lo: usize, hi: usize, v: Seq<u8>) -> bool {
    lo <= hi <= s.len() && s.subrange(lo as int, hi as int) == v
}

/// The fields found, by position.
pub open spec fn fields_view(s: Seq<u8>, v: Seq<(usize, usize, usize, usize)>) -> Seq<Field> {
    v.map_values(
        |f: (usize, usize, usize, usize)|
            (s.subrange(f.0 as int, f.1 as int), s.subrange(f.2 as int, f.3 as int)),
    )
}

/// Whether every position found lies inside a text of `n` bytes.
pub open spec fn fields_within(v: Seq<(usize, usize, usize, usize)>, n: int) -> bool {
    forall|k: int|
        0 <= k < v.len() ==> #[trigger] v[k].0 <= v[k].1 && v[k].1 <= n && v[k].2 <= v[k].3
            && v[k].3 <= n
}

/// The fields of `s[lo..hi]`, by position.
fn fields_in(s: &[u8], lo: usize, hi: usize) -> (r: Vec<(usize, usize, usize, usize)>)
    requires
        lo <= hi <= s@.len(),
    ensures
        fields_within(r@, s@.len() as int),
        fields_view(s@, r@) == fields_from(s@.subrange(lo as int, hi as int), 0),
{
    let ghost x = s@.subrange(lo as int, hi as int);
    let mut out: Vec<(usize, usize, usize, usize)> = Vec::new();
    let mut i = lo;
    while i < hi
        invariant
            lo <= i <= hi <= s@.len(),
            x == s@.subrange(lo as int, hi as int),
            fields_within(out@, s@.len() as int),
            fields_view(s@, out@) + fields_from(x, i - lo) == fields_from(x, 0),
        ensures
            fields_within(out@, s@.len() as int),
            fields_view(s@, out@) + fields_from(x, i - lo) == fields_from(x, 0),
            skip_spaces(x, i - lo) >= x.len(),
        decreases hi - i,
    {
        let j = skip_spaces_in(s, lo, i, hi);
        proof {
            lemma_skip_spaces_bounds(x, i - lo);
        }
        if j >= hi {
            break;
        }
        let e = word_end_in(s, lo, j, hi);
        let q = scan_in(s, 61u8, j, j, e);
        let ghost w = x.subrange(j - lo, e - lo);
        proof {
            lemma_word_end_bounds(x, j - lo);
            assert(w =~= s@.subrange(j as int, e as int));
            lemma_scan_bounds(w, 61u8, 0);
        }
        let ghost before = fields_view(s@, out@);
        if q < e {
            out.push((j, q, q + 1, e));
            proof {
                assert(w.subrange(0, q - j) =~= s@.subrange(j as int, q as int));
                assert(w.subrange(q - j + 1, w.len() as int) =~= s@.subrange(q + 1, e as int));
                assert(fields_view(s@, out@) =~= before.push(
                    (s@.subrange(j as int, q as int), s@.subrange(q + 1, e as int)),
                ));
                assert(fields_view(s@, out@) + fields_from(x, e - lo) =~= before + fields_from(
                    x,
                    i - lo,
                ));
            }
        } else {
            proof {
                assert(fields_from(x, e - lo) == fields_from(x, i - lo));
            }
        }
        i = e;
    }
    proof {
        assert(fields_from(x, i - lo) =~= Seq::<Field>::empty());
        assert(fields_view(s@, out@) + fields_from(x, i - lo) =~= fields_view(s@, out@));
    }
    out
}

/// The value the first field keyed `key` holds, by position.
fn lookup_in(s: &[u8], fs: &Vec<(usize, usize, usize, usize)>, key: &str) -> (r: Option<
    (usize, usize),
>)
    requires
        fields_within(fs@, s@.len() as int),
    ensures
        match lookup(fields_view(s@, fs@), key.spec_bytes(), 0) {
            None => r is None,
            Some(v) => r matches Some(p) && holds_at(s@, p.0, p.1, v),
        },
{
    let kb = key.as_bytes();
    let ghost fv = fields_view(s@, fs@);
    let mut i: usize = 0;
    while i < fs.len()
        invariant
            0 <= i <= fs@.len(),
            fields_within(fs@, s@.len() as int),
            fv == fields_view(s@, fs@),
            kb@ == key.spec_bytes(),
            lookup(fv, key.spec_bytes(), i as int) == lookup(fv, key.spec_bytes(), 0),
        decreases fs@.len() - i,
    {
        let f = fs[i];
        proof {
            assert(fs@[i as int] == f);
        }
        if bytes_are(s, f.0, f.1, kb) {
            return Some((f.2, f.3));
        }
        i = i + 1;
    }
    None
}

/// The value a line gives `key`, by position.
fn field_in(s: &[u8], fs: &Vec<(usize, usize, usize, usize)>, key: &'static str) -> (r: Result<
    (usize, usize),
    Fault,
>)
    requires
        fields_within(fs@, s@.len() as int),
    ensures
        match field_of(fields_view(s@, fs@), key) {
            Err(e) => r == Err::<(usize, usize), Fault>(e),
            Ok(v) => r matches Ok(p) && holds_at(s@, p.0, p.1, v),
        },
{
    match lookup_in(s, fs, key) {
        None => Err(Fault::Missing(key)),
        Some(p) => {
            if p.1 - p.0 == 1 && s[p.0] == 63u8 {
                proof {
                    assert(s@.subrange(p.0 as int, p.1 as int) =~= seq![63u8]);
                }
                Err(Fault::StillBlank(key))
            } else {
                proof {
                    let v = s@.subrange(p.0 as int, p.1 as int);
                    if v == seq![63u8] {
                        assert(v.len() == seq![63u8].len());
                        assert(v[0] == seq![63u8][0]);
                        assert(v[0] == s@[p.0 as int]);
                    }
                }
                Ok(p)
            }
        },
    }
}

/// The number `s[lo..hi]` writes in `radix`, if it fits under `max`.
pub fn radix_in(s: &[u8], lo: usize, hi: usize, radix: u128, max: u128) -> (r: Option<u128>)
    requires
        lo <= hi <= s@.len(),
        radix == 10 || radix == 16,
    ensures
        r == radix_value(s@.subrange(lo as int, hi as int), radix as int, max as int),
{
    let ghost c = s@.subrange(lo as int, hi as int);
    if hi == lo {
        return None;
    }
    if hi - lo == 1 && (s[lo] == 43u8 || s[lo] == 45u8) {
        proof {
            assert(c =~= seq![s@[lo as int]]);
        }
        return None;
    }
    proof {
        if c == seq![43u8] || c == seq![45u8] {
            assert(c.len() == 1);
            assert(c[0] == s@[lo as int]);
        }
    }
    let start = if s[lo] == 43u8 {
        lo + 1
    } else {
        lo
    };
    let ghost d = s@.subrange(start as int, hi as int);
    proof {
        assert(c[0] == s@[lo as int]);
        if s@[lo as int] == 43u8 {
            assert(d =~= c.subrange(1, c.len() as int));
        } else {
            assert(d =~= c);
        }
    }
    let mut acc: u128 = 0;
    let mut k = start;
    proof {
        assert(s@.subrange(start as int, start as int) =~= Seq::<u8>::empty());
    }
    while k < hi
        invariant
            lo <= start <= k <= hi <= s@.len(),
            radix == 10 || radix == 16,
            d == s@.subrange(start as int, hi as int),
            c == s@.subrange(lo as int, hi as int),
            !(c.len() == 0 || c == seq![43u8] || c == seq![45u8]),
            d == (if c[0] == 43 {
                c.subrange(1, c.len() as int)
            } else {
                c
            }),
            acc as int == digits_value(s@.subrange(start as int, k as int), radix as int),
            acc <= max,
            all_digits(s@.subrange(start as int, k as int), radix as int),
        decreases hi - k,
    {
        let b = s[k];
        let dg: u128 = if 48u8 <= b && b <= 57u8 {
            (b - 48u8) as u128
        } else if 97u8 <= b && b <= 122u8 {
            (b - 87u8) as u128
        } else if 65u8 <= b && b <= 90u8 {
            (b - 55u8) as u128
        } else {
            99
        };
        let ghost p = s@.subrange(start as int, k + 1);
        proof {
            assert(p.drop_last() =~= s@.subrange(start as int, k as int));
            assert(p.last() == b);
            assert(d[k - start] == b);
            assert(p =~= d.subrange(0, k + 1 - start));
            lemma_digits_prefix(d, radix as int, k + 1 - start);
        }
        if dg >= radix {
            proof {
                assert(digit_of(d[k - start]) >= radix);
                assert(!all_digits(d, radix as int));
                assert(radix_value(c, radix as int, max as int) is None);
            }
            return None;
        }
        let m = acc.checked_mul(radix);
        match m {
            None => {
                proof {
                    assert(acc * radix + dg > max);
                    assert(digits_value(p, radix as int) > max);
                    assert(digits_value(d, radix as int) > max);
                    assert(radix_value(c, radix as int, max as int) is None);
                }
                return None;
            },
            Some(m) => {
                let v = m.checked_add(dg);
                match v {
                    None => {
                        proof {
                            assert(digits_value(p, radix as int) > max);
                        }
                        return None;
                    },
                    Some(v) => {
                        if v > max {
                            return None;
                        }
                        proof {
                            assert forall|j: int| 0 <= j < p.len() implies digit_of(
                                #[trigger] p[j],
                            ) < radix by {
                                if j < k - start {
                                    assert(p[j] == s@.subrange(start as int, k as int)[j]);
                                }
                            }
                        }
                        acc = v;
                    },
                }
            },
        }
        k = k + 1;
    }
    proof {
        assert(s@.subrange(start as int, k as int) =~= d);
    }
    Some(acc)
}

/// `s[lo..hi]` with every `c` taken out.
fn without_in(s: &[u8], lo: usize, hi: usize, c: u8) -> (r: Vec<u8>)
    requires
        lo <= hi <= s@.len(),
    ensures
        r@ == without(s@.subrange(lo as int, hi as int), c),
{
    let mut out: Vec<u8> = Vec::new();
    let mut k = lo;
    proof {
        assert(s@.subrange(lo as int, lo as int) =~= Seq::<u8>::empty());
    }
    while k < hi
        invariant
            lo <= k <= hi <= s@.len(),
            out@ == without(s@.subrange(lo as int, k as int), c),
        decreases hi - k,
    {
        proof {
            assert(s@.subrange(lo as int, k + 1).drop_last() =~= s@.subrange(lo as int, k as int));
            assert(s@.subrange(lo as int, k + 1).last() == s@[k as int]);
        }
        if s[k] != c {
            out.push(s[k]);
        }
        k = k + 1;
    }
    out
}

/// The count `s[lo..hi]` writes.
pub fn count_in(s: &[u8], lo: usize, hi: usize) -> (r: Option<u128>)
    requires
        lo <= hi <= s@.len(),
    ensures
        r == count_of(s@.subrange(lo as int, hi as int)),
{
    let ghost raw = s@.subrange(lo as int, hi as int);
    let hex = hi - lo >= 2 && s[lo] == 48u8 && s[lo + 1] == 120u8;
    proof {
        if hi - lo >= 2 {
            assert(raw.subrange(0, 2) == seq![raw[0], raw[1]]);
            assert(raw[0] == s@[lo as int] && raw[1] == s@[lo + 1]);
        }
        assert(hex == opens_with(raw, seq![48u8, 120u8]));
    }
    if hex {
        let v = without_in(s, lo + 2, hi, 95u8);
        proof {
            assert(raw.subrange(2, raw.len() as int) =~= s@.subrange(lo + 2, hi as int));
        }
        let vs = v.as_slice();
        proof {
            assert(vs@.subrange(0, vs@.len() as int) =~= vs@);
        }
        radix_in(vs, 0, vs.len(), 16, u128::MAX)
    } else {
        let v = without_in(s, lo, hi, 95u8);
        let vs = v.as_slice();
        proof {
            assert(vs@.subrange(0, vs@.len() as int) =~= vs@);
        }
        radix_in(vs, 0, vs.len(), 10, u128::MAX)
    }
}

/// The count a line gives `key`.
fn number_in(s: &[u8], fs: &Vec<(usize, usize, usize, usize)>, key: &'static str) -> (r: Result<
    u128,
    Fault,
>)
    requires
        fields_within(fs@, s@.len() as int),
    ensures
        r == number_of(fields_view(s@, fs@), key),
{
    match field_in(s, fs, key) {
        Err(e) => Err(e),
        Ok(p) => match count_in(s, p.0, p.1) {
            Some(n) => Ok(n),
            None => Err(Fault::Malformed(key)),
        },
    }
}

/// The count a line gives `key`, or `dflt` where it gives none.
fn number_or_in(
    s: &[u8],
    fs: &Vec<(usize, usize, usize, usize)>,
    key: &'static str,
    dflt: u128,
) -> (r: Result<u128, Fault>)
    requires
        fields_within(fs@, s@.len() as int),
    ensures
        r == number_or(fields_view(s@, fs@), key, dflt),
{
    match number_in(s, fs, key) {
        Err(Fault::Missing(k)) => Ok(dflt),
        r => r,
    }
}

// ---------------------------------------------------------------------------
// Citations

/// Where a declaration was read from.
///
/// Held beside the declarations rather than inside them, so the declarations
/// stay free of text and a report still has what it needs. Optional, because a
/// value that was swept or guessed has no symbol to name, and demanding one
/// would push an author into inventing it.
#[derive(PartialEq, Eq, Debug)]
pub struct Citation {
    pub file: Option<String>,
    pub symbol: Option<String>,
}

/// A citation as text.
pub struct CitationView {
    pub file: Option<Seq<char>>,
    pub symbol: Option<Seq<char>>,
}

/// The text of an optional string.
pub open spec fn text_view(t: Option<String>) -> Option<Seq<char>> {
    match t {
        Some(s) => Some(s@),
        None => None,
    }
}

impl View for Citation {
    type V = CitationView;

    open spec fn view(&self) -> CitationView {
        CitationView { file: text_view(self.file), symbol: text_view(self.symbol) }
    }
}

/// How a report names a site, or that there is none to name.
pub open spec fn site_of(c: CitationView) -> Seq<char> {
    match (c.file, c.symbol) {
        (Some(f), Some(s)) => f + ":"@ + s,
        (Some(f), None) => f,
        (None, Some(s)) => s,
        (None, None) => "no citation"@,
    }
}

fn copy_text(t: &Option<String>) -> (r: Option<String>)
    ensures
        text_view(r) == text_view(*t),
{
    match t {
        Some(s) => Some(s.clone()),
        None => None,
    }
}

impl Clone for Citation {
    fn clone(&self) -> (r: Self)
        ensures
            r@ == self@,
    {
        Citation { file: copy_text(&self.file), symbol: copy_text(&self.symbol) }
    }
}

impl Default for Citation {
    fn default() -> (r: Self)
        ensures
            r@ == (CitationView { file: None, symbol: None }),
    {
        Citation { file: None, symbol: None }
    }
}

impl Citation {
    /// Whether the citation names nothing.
    pub fn is_empty(&self) -> (r: bool)
        ensures
            r == (self.file is None && self.symbol is None),
    {
        self.file.is_none() && self.symbol.is_none()
    }

    /// How a report names the site, or that there is none to name.
    pub fn site(&self) -> (r: String)
        ensures
            r@ == site_of(self@),
    {
        match (&self.file, &self.symbol) {
            (Some(f), Some(s)) => {
                let mut r = f.clone();
                r.append(":");
                r.append(s.as_str());
                r
            },
            (Some(f), None) => f.clone(),
            (None, Some(s)) => s.clone(),
            (None, None) => String::from_str("no citation"),
        }
    }
}

/// What a line says of where its declaration came from: the first `key` field,
/// unless it is a blank.
pub open spec fn cited(fs: Seq<Field>, key: &'static str) -> Option<Seq<char>> {
    match lookup(fs, key.spec_bytes(), 0) {
        Some(v) => if v == seq![63u8] {
            None
        } else {
            Some(lossy_text(v))
        },
        None => None,
    }
}

/// The citation a line carries.
pub open spec fn citation_of(fs: Seq<Field>) -> CitationView {
    CitationView { file: cited(fs, "file"), symbol: cited(fs, "symbol") }
}

fn cited_in(s: &[u8], fs: &Vec<(usize, usize, usize, usize)>, key: &str) -> (r: Option<String>)
    requires
        fields_within(fs@, s@.len() as int),
    ensures
        text_view(r) == (match lookup(fields_view(s@, fs@), key.spec_bytes(), 0) {
            Some(v) => if v == seq![63u8] {
                None
            } else {
                Some(lossy_text(v))
            },
            None => None,
        }),
{
    match lookup_in(s, fs, key) {
        None => None,
        Some(p) => {
            let ghost v = s@.subrange(p.0 as int, p.1 as int);
            if p.1 - p.0 == 1 && s[p.0] == 63u8 {
                proof {
                    assert(v =~= seq![63u8]);
                }
                None
            } else {
                proof {
                    if v == seq![63u8] {
                        assert(v.len() == seq![63u8].len());
                        assert(v[0] == s@[p.0 as int]);
                    }
                }
                Some(text_of(s, p.0, p.1))
            }
        },
    }
}

fn citation_in(s: &[u8], fs: &Vec<(usize, usize, usize, usize)>) -> (r: Citation)
    requires
        fields_within(fs@, s@.len() as int),
    ensures
        r@ == citation_of(fields_view(s@, fs@)),
{
    Citation { file: cited_in(s, fs, "file"), symbol: cited_in(s, fs, "symbol") }
}

// ---------------------------------------------------------------------------
// The register

/// A parsed register.
///
/// The index of a citation matches the index of its wait.
#[derive(Debug)]
pub struct Register {
    pub sources: Vec<Source>,
    pub waits: Vec<Wait>,
    /// One per wait, in the same order.
    pub wait_citations: Vec<Citation>,
    /// Compositions, each with the identifier it was declared under.
    pub compositions: Vec<(u16, Expr)>,
    pub interrupts: Vec<Interrupt>,
    /// Blackout windows: spans where interrupts are off.
    pub windows: Vec<(u16, Quantity, Span)>,
}

/// What a register declares.
pub struct RegisterView {
    pub sources: Seq<Source>,
    pub waits: Seq<Wait>,
    pub citations: Seq<CitationView>,
    pub compositions: Seq<(u16, ExprView)>,
    pub interrupts: Seq<Interrupt>,
    pub windows: Seq<(u16, Quantity, Span)>,
}

impl View for Register {
    type V = RegisterView;

    open spec fn view(&self) -> RegisterView {
        RegisterView {
            sources: self.sources@,
            waits: self.waits@,
            citations: self.wait_citations@.map_values(|c: Citation| c@),
            compositions: self.compositions@.map_values(|p: (u16, Expr)| (p.0, p.1@)),
            interrupts: self.interrupts@,
            windows: self.windows@,
        }
    }
}

/// A register that declares nothing.
pub open spec fn nothing_declared() -> RegisterView {
    RegisterView {
        sources: seq![],
        waits: seq![],
        citations: seq![],
        compositions: seq![],
        interrupts: seq![],
        windows: seq![],
    }
}

impl Register {
    /// A register that declares nothing.
    pub fn new() -> (r: Self)
        ensures
            r@ == nothing_declared(),
    {
        let r = Register {
            sources: Vec::new(),
            waits: Vec::new(),
            wait_citations: Vec::new(),
            compositions: Vec::new(),
            interrupts: Vec::new(),
            windows: Vec::new(),
        };
        proof {
            assert(r@.citations =~= Seq::<CitationView>::empty());
            assert(r@.compositions =~= Seq::<(u16, ExprView)>::empty());
        }
        r
    }

    /// The citation for a wait, by its position, or an empty one where there
    /// is no wait there.
    pub fn citation_for(&self, index: usize) -> (r: Citation)
        ensures
            r@ == (if index < self@.citations.len() {
                self@.citations[index as int]
            } else {
                CitationView { file: None, symbol: None }
            }),
    {
        if index < self.wait_citations.len() {
            self.wait_citations[index].clone()
        } else {
            Citation::default()
        }
    }
}

// ---------------------------------------------------------------------------
// Words

/// Where a value came from.
pub open spec fn provenance_of(fs: Seq<Field>) -> Result<Provenance, Fault> {
    match field_of(fs, "from") {
        Err(e) => Err(e),
        Ok(v) => if v == "derived".spec_bytes() {
            Ok(Provenance::Derived)
        } else if v == "extracted".spec_bytes() {
            Ok(Provenance::Extracted)
        } else if v == "measured".spec_bytes() {
            Ok(Provenance::Measured)
        } else if v == "assumed".spec_bytes() {
            Ok(Provenance::Assumed)
        } else {
            Err(Fault::Malformed("from"))
        },
    }
}

/// Whether a clock with this identifier has been declared.
pub open spec fn declared(sources: Seq<Source>, id: u16) -> bool {
    exists|k: int| 0 <= k < sources.len() && (#[trigger] sources[k]).id == SourceId(id)
}

/// The unit a line's counts are in. `ticks:<clock>` names the clock, because a
/// tick count that named none would be a rate entering the model as a bare
/// number.
pub open spec fn unit_of(fs: Seq<Field>, sources: Seq<Source>) -> Result<Unit, Fault> {
    match field_of(fs, "unit") {
        Err(e) => Err(e),
        Ok(v) => if v == "iterations".spec_bytes() {
            Ok(Unit::Iterations)
        } else if v == "bus-reads".spec_bytes() {
            Ok(Unit::BusReads)
        } else if v == "base".spec_bytes() {
            Ok(Unit::Base)
        } else if v == "nanos".spec_bytes() {
            Ok(Unit::Nanos)
        } else if opens_with(v, "ticks:".spec_bytes()) {
            match radix_value(
                v.subrange("ticks:".spec_bytes().len() as int, v.len() as int),
                10,
                u16::MAX as int,
            ) {
                None => Err(Fault::UnnamedClock),
                Some(n) => if declared(sources, n as u16) {
                    Ok(Unit::Ticks(SourceId(n as u16)))
                } else {
                    Err(Fault::UnnamedClock)
                },
            }
        } else {
            Err(Fault::Malformed("unit"))
        },
    }
}

/// The counter a wait holds its budget in.
pub open spec fn counter_of(fs: Seq<Field>) -> Result<Counter, Fault> {
    match field_of(fs, "counter") {
        Err(e) => Err(e),
        Ok(v) => if v == "u8".spec_bytes() {
            Ok(Counter::U8)
        } else if v == "u16".spec_bytes() {
            Ok(Counter::U16)
        } else if v == "u32".spec_bytes() {
            Ok(Counter::U32)
        } else if v == "u64".spec_bytes() {
            Ok(Counter::U64)
        } else {
            Err(Fault::Malformed("counter"))
        },
    }
}

/// How a wait's counter moves.
pub open spec fn measure_of(fs: Seq<Field>) -> Result<Measure, Fault> {
    match field_of(fs, "measure") {
        Err(e) => Err(e),
        Ok(v) => if v == "pre-decrement".spec_bytes() {
            Ok(Measure::PreDecrement)
        } else if v == "post-decrement".spec_bytes() {
            Ok(Measure::PostDecrement)
        } else if v == "increment".spec_bytes() {
            match number_of(fs, "limit") {
                Ok(limit) => Ok(Measure::Increment { limit }),
                Err(e) => Err(e),
            }
        } else {
            Err(Fault::Malformed("measure"))
        },
    }
}

/// What a wait does when its budget runs out.
pub open spec fn exhaustion_of(fs: Seq<Field>) -> Result<Exhaustion, Fault> {
    match field_of(fs, "on-exhaustion") {
        Err(e) => Err(e),
        Ok(v) => if v == "reports-error".spec_bytes() {
            Ok(Exhaustion::ReportsError)
        } else if v == "asserts".spec_bytes() {
            Ok(Exhaustion::Asserts)
        } else if v == "silently-continues".spec_bytes() {
            Ok(Exhaustion::SilentlyContinues)
        } else {
            Err(Fault::Malformed("on-exhaustion"))
        },
    }
}

/// What a dropped arrival costs.
pub open spec fn consequence_of(fs: Seq<Field>) -> Result<Consequence, Fault> {
    match field_of(fs, "on-drop") {
        Err(e) => Err(e),
        Ok(v) => if v == "lost-silently".spec_bytes() {
            Ok(Consequence::LostSilently)
        } else if v == "lost-and-logged".spec_bytes() {
            Ok(Consequence::LostAndLogged)
        } else if v == "retried".spec_bytes() {
            Ok(Consequence::Retried)
        } else {
            Err(Fault::Malformed("on-drop"))
        },
    }
}

/// A span written `<from>..<to>`, in decimal.
pub open spec fn span_text(raw: Seq<u8>) -> Option<Span> {
    let k = scan_pair(raw, 46u8, 46u8, 0);
    if k < raw.len() {
        let from = radix_value(raw.subrange(0, k), 10, u128::MAX as int);
        let to = radix_value(raw.subrange(k + 2, raw.len() as int), 10, u128::MAX as int);
        if from is Some && to is Some && from->Some_0 <= to->Some_0 {
            Some(Span::between(from->Some_0, to->Some_0))
        } else {
            None
        }
    } else {
        None
    }
}

/// The span a line gives `key`, where it gives one.
pub open spec fn span_of(fs: Seq<Field>, key: &'static str) -> Result<Option<Span>, Fault> {
    match field_of(fs, key) {
        Err(Fault::Missing(_)) => Ok(None),
        Err(e) => Err(e),
        Ok(raw) => match span_text(raw) {
            Some(sp) => Ok(Some(sp)),
            None => Err(Fault::Malformed(key)),
        },
    }
}

/// The count a line gives `key`, where it gives one.
pub open spec fn optional_number(fs: Seq<Field>, key: &'static str) -> Result<Option<u128>, Fault> {
    match number_of(fs, key) {
        Ok(v) => Ok(Some(v)),
        Err(Fault::Missing(_)) => Ok(None),
        Err(e) => Err(e),
    }
}

fn provenance_in(s: &[u8], fs: &Vec<(usize, usize, usize, usize)>) -> (r: Result<
    Provenance,
    Fault,
>)
    requires
        fields_within(fs@, s@.len() as int),
    ensures
        r == provenance_of(fields_view(s@, fs@)),
{
    let (a, b) = match field_in(s, fs, "from") {
        Err(e) => return Err(e),
        Ok(p) => p,
    };
    if is_word(s, a, b, "derived") {
        Ok(Provenance::Derived)
    } else if is_word(s, a, b, "extracted") {
        Ok(Provenance::Extracted)
    } else if is_word(s, a, b, "measured") {
        Ok(Provenance::Measured)
    } else if is_word(s, a, b, "assumed") {
        Ok(Provenance::Assumed)
    } else {
        Err(Fault::Malformed("from"))
    }
}

fn declared_in(sources: &Vec<Source>, id: u16) -> (r: bool)
    ensures
        r == declared(sources@, id),
{
    let mut k: usize = 0;
    while k < sources.len()
        invariant
            0 <= k <= sources@.len(),
            forall|j: int| 0 <= j < k ==> (#[trigger] sources@[j]).id != SourceId(id),
        decreases sources@.len() - k,
    {
        if sources[k].id.0 == id {
            proof {
                assert(sources@[k as int].id == SourceId(id));
            }
            return true;
        }
        k = k + 1;
    }
    false
}

fn unit_in(s: &[u8], fs: &Vec<(usize, usize, usize, usize)>, sources: &Vec<Source>) -> (r: Result<
    Unit,
    Fault,
>)
    requires
        fields_within(fs@, s@.len() as int),
    ensures
        r == unit_of(fields_view(s@, fs@), sources@),
{
    let (a, b) = match field_in(s, fs, "unit") {
        Err(e) => return Err(e),
        Ok(p) => p,
    };
    if is_word(s, a, b, "iterations") {
        Ok(Unit::Iterations)
    } else if is_word(s, a, b, "bus-reads") {
        Ok(Unit::BusReads)
    } else if is_word(s, a, b, "base") {
        Ok(Unit::Base)
    } else if is_word(s, a, b, "nanos") {
        Ok(Unit::Nanos)
    } else if opens_with_in(s, a, b, "ticks:") {
        let n = "ticks:".as_bytes().len();
        proof {
            assert(s@.subrange(a as int, b as int).subrange(n as int, b - a) =~= s@.subrange(
                a + n,
                b as int,
            ));
        }
        match radix_in(s, a + n, b, 10, 65535) {
            None => Err(Fault::UnnamedClock),
            Some(v) => {
                let id = v as u16;
                if declared_in(sources, id) {
                    Ok(Unit::Ticks(SourceId(id)))
                } else {
                    Err(Fault::UnnamedClock)
                }
            },
        }
    } else {
        Err(Fault::Malformed("unit"))
    }
}

fn counter_in(s: &[u8], fs: &Vec<(usize, usize, usize, usize)>) -> (r: Result<Counter, Fault>)
    requires
        fields_within(fs@, s@.len() as int),
    ensures
        r == counter_of(fields_view(s@, fs@)),
{
    let (a, b) = match field_in(s, fs, "counter") {
        Err(e) => return Err(e),
        Ok(p) => p,
    };
    if is_word(s, a, b, "u8") {
        Ok(Counter::U8)
    } else if is_word(s, a, b, "u16") {
        Ok(Counter::U16)
    } else if is_word(s, a, b, "u32") {
        Ok(Counter::U32)
    } else if is_word(s, a, b, "u64") {
        Ok(Counter::U64)
    } else {
        Err(Fault::Malformed("counter"))
    }
}

fn measure_in(s: &[u8], fs: &Vec<(usize, usize, usize, usize)>) -> (r: Result<Measure, Fault>)
    requires
        fields_within(fs@, s@.len() as int),
    ensures
        r == measure_of(fields_view(s@, fs@)),
{
    let (a, b) = match field_in(s, fs, "measure") {
        Err(e) => return Err(e),
        Ok(p) => p,
    };
    if is_word(s, a, b, "pre-decrement") {
        Ok(Measure::PreDecrement)
    } else if is_word(s, a, b, "post-decrement") {
        Ok(Measure::PostDecrement)
    } else if is_word(s, a, b, "increment") {
        match number_in(s, fs, "limit") {
            Ok(limit) => Ok(Measure::Increment { limit }),
            Err(e) => Err(e),
        }
    } else {
        Err(Fault::Malformed("measure"))
    }
}

fn exhaustion_in(s: &[u8], fs: &Vec<(usize, usize, usize, usize)>) -> (r: Result<
    Exhaustion,
    Fault,
>)
    requires
        fields_within(fs@, s@.len() as int),
    ensures
        r == exhaustion_of(fields_view(s@, fs@)),
{
    let (a, b) = match field_in(s, fs, "on-exhaustion") {
        Err(e) => return Err(e),
        Ok(p) => p,
    };
    if is_word(s, a, b, "reports-error") {
        Ok(Exhaustion::ReportsError)
    } else if is_word(s, a, b, "asserts") {
        Ok(Exhaustion::Asserts)
    } else if is_word(s, a, b, "silently-continues") {
        Ok(Exhaustion::SilentlyContinues)
    } else {
        Err(Fault::Malformed("on-exhaustion"))
    }
}

fn consequence_in(s: &[u8], fs: &Vec<(usize, usize, usize, usize)>) -> (r: Result<
    Consequence,
    Fault,
>)
    requires
        fields_within(fs@, s@.len() as int),
    ensures
        r == consequence_of(fields_view(s@, fs@)),
{
    let (a, b) = match field_in(s, fs, "on-drop") {
        Err(e) => return Err(e),
        Ok(p) => p,
    };
    if is_word(s, a, b, "lost-silently") {
        Ok(Consequence::LostSilently)
    } else if is_word(s, a, b, "lost-and-logged") {
        Ok(Consequence::LostAndLogged)
    } else if is_word(s, a, b, "retried") {
        Ok(Consequence::Retried)
    } else {
        Err(Fault::Malformed("on-drop"))
    }
}

fn span_text_in(s: &[u8], a: usize, b: usize) -> (r: Option<Span>)
    requires
        a <= b <= s@.len(),
    ensures
        r == span_text(s@.subrange(a as int, b as int)),
{
    let ghost raw = s@.subrange(a as int, b as int);
    let k = scan_pair_in(s, 46u8, 46u8, a, a, b);
    if k >= b {
        return None;
    }
    proof {
        assert(raw.subrange(0, k - a) =~= s@.subrange(a as int, k as int));
        assert(raw.subrange(k - a + 2, raw.len() as int) =~= s@.subrange(k + 2, b as int));
    }
    let from = radix_in(s, a, k, 10, u128::MAX);
    let to = radix_in(s, k + 2, b, 10, u128::MAX);
    match (from, to) {
        (Some(f), Some(t)) => Span::new(f, t),
        _ => None,
    }
}

fn span_in(s: &[u8], fs: &Vec<(usize, usize, usize, usize)>, key: &'static str) -> (r: Result<
    Option<Span>,
    Fault,
>)
    requires
        fields_within(fs@, s@.len() as int),
    ensures
        r == span_of(fields_view(s@, fs@), key),
{
    match field_in(s, fs, key) {
        Err(Fault::Missing(k)) => Ok(None),
        Err(e) => Err(e),
        Ok(p) => match span_text_in(s, p.0, p.1) {
            Some(sp) => Ok(Some(sp)),
            None => Err(Fault::Malformed(key)),
        },
    }
}

fn optional_number_in(s: &[u8], fs: &Vec<(usize, usize, usize, usize)>, key: &'static str) -> (r:
    Result<Option<u128>, Fault>)
    requires
        fields_within(fs@, s@.len() as int),
    ensures
        r == optional_number(fields_view(s@, fs@), key),
{
    match number_in(s, fs, key) {
        Ok(v) => Ok(Some(v)),
        Err(Fault::Missing(k)) => Ok(None),
        Err(e) => Err(e),
    }
}

// ---------------------------------------------------------------------------
// Declarations

/// A count as a quantity in a unit, with a provenance.
pub open spec fn counted(v: u128, u: Unit, p: Provenance) -> Quantity {
    Quantity::of(Interval::from_ends(v, v), u, p)
}

/// What a `source` line declares: a root clock of `hz / per` hertz.
#[verifier::opaque]
pub open spec fn source_line(fs: Seq<Field>, st: RegisterView) -> Result<RegisterView, Fault> {
    let id = number_of(fs, "id");
    let hz = number_of(fs, "hz");
    let per = number_or(fs, "per", 1);
    let width = number_of(fs, "width");
    let ppm = number_or(fs, "ppm", 0);
    let prov = provenance_of(fs);
    if id is Err {
        Err(id->Err_0)
    } else if hz is Err {
        Err(hz->Err_0)
    } else if per is Err {
        Err(per->Err_0)
    } else if hz->Ok_0 == 0 || per->Ok_0 == 0 {
        Err(Fault::Malformed("hz"))
    } else if width is Err {
        Err(width->Err_0)
    } else if ppm is Err {
        Err(ppm->Err_0)
    } else if id->Ok_0 > u16::MAX {
        Err(Fault::Malformed("id"))
    } else if prov is Err {
        Err(prov->Err_0)
    } else if ppm->Ok_0 > u32::MAX {
        Err(Fault::Malformed("ppm"))
    } else if width->Ok_0 > u8::MAX {
        Err(Fault::Malformed("width"))
    } else {
        let src = Source {
            id: SourceId(id->Ok_0 as u16),
            origin: Origin::Root,
            nominal: Rate::reduced_of(hz->Ok_0 as nat, per->Ok_0 as nat),
            nominal_prov: prov->Ok_0,
            tolerance_ppm: ppm->Ok_0 as u32,
            width_bits: width->Ok_0 as u8,
            read_cost: counted(1, Unit::BusReads, Provenance::Assumed),
            valid: Validity::Always,
        };
        Ok(RegisterView { sources: st.sources.push(src), ..st })
    }
}

/// What a `wait` line declares, with where it was read from.
#[verifier::opaque]
pub open spec fn wait_line(fs: Seq<Field>, st: RegisterView) -> Result<RegisterView, Fault> {
    let id = number_of(fs, "id");
    let budget = number_of(fs, "budget");
    let cost = number_of(fs, "cost");
    let u = unit_of(fs, st.sources);
    let counter = counter_of(fs);
    let measure = measure_of(fs);
    let exhaustion = exhaustion_of(fs);
    let prov = provenance_of(fs);
    if id is Err {
        Err(id->Err_0)
    } else if budget is Err {
        Err(budget->Err_0)
    } else if cost is Err {
        Err(cost->Err_0)
    } else if u is Err {
        Err(u->Err_0)
    } else if counter is Err {
        Err(counter->Err_0)
    } else if measure is Err {
        Err(measure->Err_0)
    } else if exhaustion is Err {
        Err(exhaustion->Err_0)
    } else if id->Ok_0 > u16::MAX {
        Err(Fault::Malformed("id"))
    } else if prov is Err {
        Err(prov->Err_0)
    } else {
        let w = Wait {
            id: WaitId(id->Ok_0 as u16),
            budget: budget->Ok_0,
            counter: counter->Ok_0,
            measure: measure->Ok_0,
            cost_per_iter: counted(cost->Ok_0, u->Ok_0, prov->Ok_0),
            on_exhaustion: exhaustion->Ok_0,
        };
        Ok(
            RegisterView {
                waits: st.waits.push(w),
                citations: st.citations.push(citation_of(fs)),
                ..st
            },
        )
    }
}

/// What a `window` line declares: a blackout, at `at` where it says.
#[verifier::opaque]
pub open spec fn window_line(fs: Seq<Field>, st: RegisterView) -> Result<RegisterView, Fault> {
    let id = number_of(fs, "id");
    let cost = number_of(fs, "cost");
    let u = unit_of(fs, st.sources);
    let at = span_of(fs, "at");
    let prov = provenance_of(fs);
    if id is Err {
        Err(id->Err_0)
    } else if cost is Err {
        Err(cost->Err_0)
    } else if u is Err {
        Err(u->Err_0)
    } else if at is Err {
        Err(at->Err_0)
    } else if id->Ok_0 > u16::MAX {
        Err(Fault::Malformed("id"))
    } else if prov is Err {
        Err(prov->Err_0)
    } else {
        let span = match at->Ok_0 {
            Some(sp) => sp,
            None => Span::between(0, 0),
        };
        let win = (id->Ok_0 as u16, counted(cost->Ok_0, u->Ok_0, prov->Ok_0), span);
        Ok(RegisterView { windows: st.windows.push(win), ..st })
    }
}

/// What an `interrupt` line declares.
///
/// `armed` and `jitter` are read and must be well formed; the interrupt model
/// carries neither.
#[verifier::opaque]
pub open spec fn interrupt_line(fs: Seq<Field>, st: RegisterView) -> Result<RegisterView, Fault> {
    let id = number_of(fs, "id");
    let u = unit_of(fs, st.sources);
    let prov = provenance_of(fs);
    let armed = span_of(fs, "armed");
    let deadline = optional_number(fs, "deadline");
    let jitter = optional_number(fs, "jitter");
    let every = number_of(fs, "every");
    let cost = number_of(fs, "cost");
    let priority = number_of(fs, "priority");
    let depth = number_of(fs, "depth");
    let on_drop = consequence_of(fs);
    if id is Err {
        Err(id->Err_0)
    } else if u is Err {
        Err(u->Err_0)
    } else if prov is Err {
        Err(prov->Err_0)
    } else if armed is Err {
        Err(armed->Err_0)
    } else if deadline is Err {
        Err(deadline->Err_0)
    } else if jitter is Err {
        Err(jitter->Err_0)
    } else if id->Ok_0 > u16::MAX {
        Err(Fault::Malformed("id"))
    } else if every is Err {
        Err(every->Err_0)
    } else if cost is Err {
        Err(cost->Err_0)
    } else if priority is Err {
        Err(priority->Err_0)
    } else if priority->Ok_0 > u8::MAX {
        Err(Fault::Malformed("priority"))
    } else if depth is Err {
        Err(depth->Err_0)
    } else if depth->Ok_0 > u32::MAX {
        Err(Fault::Malformed("depth"))
    } else if on_drop is Err {
        Err(on_drop->Err_0)
    } else {
        let q = |v: u128| counted(v, u->Ok_0, prov->Ok_0);
        let irq = Interrupt {
            id: InterruptId(id->Ok_0 as u16),
            arrival: Arrival::MinInterarrival(q(every->Ok_0)),
            cost: q(cost->Ok_0),
            priority: priority->Ok_0 as u8,
            deadline: match deadline->Ok_0 {
                Some(d) => Some(q(d)),
                None => None,
            },
            depth: depth->Ok_0 as u32,
            on_drop: on_drop->Ok_0,
        };
        Ok(RegisterView { interrupts: st.interrupts.push(irq), ..st })
    }
}

/// How reading a line ends.
pub enum Step {
    /// The line was read, and this is what the register now declares.
    Next(RegisterView),
    /// The line was refused.
    Stop(Fault),
    /// The line names an operand that cannot be split into its kind and its
    /// number: an empty one, or one that opens with a character wider than a
    /// byte.
    Abort,
}

/// A declaration's outcome as a step.
pub open spec fn step_of(r: Result<RegisterView, Fault>) -> Step {
    match r {
        Ok(st) => Step::Next(st),
        Err(f) => Step::Stop(f),
    }
}

/// What an operand names.
pub enum Operand {
    To(ExprView),
    Unknown,
    Aborts,
}

/// What a list of operands names.
pub enum Operands {
    All(Seq<ExprView>),
    Unknown,
    Aborts,
}

/// What a composition line builds.
pub enum Composed {
    Made(ExprView),
    Stop(Fault),
    Abort,
}

/// The first wait from position `i` on declared under `n`.
pub open spec fn find_wait(waits: Seq<Wait>, n: u16, i: int) -> Option<Wait>
    decreases waits.len() - i,
{
    if 0 <= i && i < waits.len() {
        if waits[i].id == WaitId(n) {
            Some(waits[i])
        } else {
            find_wait(waits, n, i + 1)
        }
    } else {
        None
    }
}

/// The first composition from position `i` on declared under `n`.
pub open spec fn find_composition(cs: Seq<(u16, ExprView)>, n: u16, i: int) -> Option<ExprView>
    decreases cs.len() - i,
{
    if 0 <= i && i < cs.len() {
        if cs[i].0 == n {
            Some(cs[i].1)
        } else {
            find_composition(cs, n, i + 1)
        }
    } else {
        None
    }
}

/// What an operand names: a wait as `wN`, or an earlier composition as `cN`.
/// Resolution is top down, so a reference only ever finds what is already
/// declared.
pub open spec fn operand_of(st: RegisterView, name: Seq<u8>) -> Operand {
    if name.len() == 0 || name[0] >= 0x80 {
        Operand::Aborts
    } else {
        match radix_value(name.subrange(1, name.len() as int), 10, u16::MAX as int) {
            None => Operand::Unknown,
            Some(n) => if name[0] == 119 {
                match find_wait(st.waits, n as u16, 0) {
                    Some(w) => Operand::To(ExprView::Leaf(w)),
                    None => Operand::Unknown,
                }
            } else if name[0] == 99 {
                match find_composition(st.compositions, n as u16, 0) {
                    Some(e) => Operand::To(e),
                    None => Operand::Unknown,
                }
            } else {
                Operand::Unknown
            },
        }
    }
}

/// What the comma-separated operands of `v` from position `i` on name, in
/// order, stopping at the first that names nothing.
pub open spec fn operands_from(st: RegisterView, v: Seq<u8>, i: int) -> Operands
    decreases v.len() - i,
{
    if 0 <= i && i <= v.len() {
        let e = scan(v, 44u8, i);
        proof {
            lemma_scan_bounds(v, 44u8, i);
        }
        match operand_of(st, v.subrange(i, e)) {
            Operand::Aborts => Operands::Aborts,
            Operand::Unknown => Operands::Unknown,
            Operand::To(x) => if e < v.len() {
                match operands_from(st, v, e + 1) {
                    Operands::All(xs) => Operands::All(seq![x] + xs),
                    other => other,
                }
            } else {
                Operands::All(seq![x])
            },
        }
    } else {
        Operands::All(seq![])
    }
}

/// What the operand a line gives `key` names.
pub open spec fn operand_field(st: RegisterView, fs: Seq<Field>, key: &'static str) -> Composed {
    match field_of(fs, key) {
        Err(e) => Composed::Stop(e),
        Ok(v) => match operand_of(st, v) {
            Operand::To(x) => Composed::Made(x),
            Operand::Unknown => Composed::Stop(Fault::UnknownOperand(key)),
            Operand::Aborts => Composed::Abort,
        },
    }
}

/// What a composition of the given form builds.
pub open spec fn composed_of(fs: Seq<Field>, form: Seq<u8>, st: RegisterView) -> Composed {
    if form == "seq".spec_bytes() || form == "alt".spec_bytes() {
        match field_of(fs, "of") {
            Err(e) => Composed::Stop(e),
            Ok(v) => match operands_from(st, v, 0) {
                Operands::All(xs) => Composed::Made(
                    if form == "seq".spec_bytes() {
                        ExprView::Sequence(xs)
                    } else {
                        ExprView::Alt(xs)
                    },
                ),
                Operands::Unknown => Composed::Stop(Fault::UnknownOperand("of")),
                Operands::Aborts => Composed::Abort,
            },
        }
    } else if form == "repeat".spec_bytes() {
        match operand_field(st, fs, "body") {
            Composed::Made(b) => match number_of(fs, "times") {
                Ok(t) => Composed::Made(ExprView::Repeat { body: Box::new(b), times: t }),
                Err(e) => Composed::Stop(e),
            },
            other => other,
        }
    } else if form == "short-circuit".spec_bytes() {
        match operand_field(st, fs, "guard") {
            Composed::Made(g) => match operand_field(st, fs, "then") {
                Composed::Made(t) => Composed::Made(
                    ExprView::ShortCircuit { guard: Box::new(g), then: Box::new(t) },
                ),
                other => other,
            },
            other => other,
        }
    } else {
        Composed::Stop(Fault::Malformed("form"))
    }
}

/// What a `compose` line declares.
#[verifier::opaque]
pub open spec fn compose_line(fs: Seq<Field>, st: RegisterView) -> Step {
    let id = number_of(fs, "id");
    let form = field_of(fs, "form");
    if id is Err {
        Step::Stop(id->Err_0)
    } else if form is Err {
        Step::Stop(form->Err_0)
    } else {
        match composed_of(fs, form->Ok_0, st) {
            Composed::Abort => Step::Abort,
            Composed::Stop(f) => Step::Stop(f),
            Composed::Made(x) => if id->Ok_0 > u16::MAX {
                Step::Stop(Fault::Malformed("id"))
            } else {
                Step::Next(
                    RegisterView {
                        compositions: st.compositions.push((id->Ok_0 as u16, x)),
                        ..st
                    },
                )
            },
        }
    }
}

/// A line's kind and its fields, or `None` for a line that says nothing once
/// its commentary and surrounding white space are dropped.
pub open spec fn line_parts(line: Seq<u8>) -> Option<(Seq<u8>, Seq<Field>)> {
    let body = trim(before(line, 35u8));
    if body.len() == 0 {
        None
    } else {
        let k = word_end(body, 0);
        let rest = if k < body.len() {
            body.subrange(k + space_at(body, k), body.len() as int)
        } else {
            seq![]
        };
        Some((body.subrange(0, k), fields_from(rest, 0)))
    }
}

/// What one line of a register does to it.
#[verifier::opaque]
pub open spec fn line_step(line: Seq<u8>, st: RegisterView) -> Step {
    match line_parts(line) {
        None => Step::Next(st),
        Some((kind, fs)) => declare(kind, fs, st),
    }
}

/// What a declaration of the given kind does to a register.
#[verifier::opaque]
pub open spec fn declare(kind: Seq<u8>, fs: Seq<Field>, st: RegisterView) -> Step {
    if kind == "source".spec_bytes() {
        step_of(source_line(fs, st))
    } else if kind == "wait".spec_bytes() {
        step_of(wait_line(fs, st))
    } else if kind == "window".spec_bytes() {
        step_of(window_line(fs, st))
    } else if kind == "compose".spec_bytes() {
        compose_line(fs, st)
    } else if kind == "interrupt".spec_bytes() {
        step_of(interrupt_line(fs, st))
    } else {
        Step::Stop(Fault::Unrecognised)
    }
}

/// How reading a register ends.
pub enum Parsed {
    /// Every line was read, and this is what the register declares.
    Read(RegisterView),
    /// The line with this number, counted from one, was refused.
    Refused(nat, Fault),
    /// A line names an operand that cannot be split.
    Aborts,
}

/// Reading the lines of `t` from position `i` on, the first of them being line
/// `n + 1`, into a register that already declares `st`.
pub open spec fn run(t: Seq<u8>, i: int, n: nat, st: RegisterView) -> Parsed
    decreases t.len() - i,
{
    if 0 <= i && i < t.len() {
        let e = scan(t, 10u8, i);
        proof {
            lemma_scan_bounds(t, 10u8, i);
        }
        match line_step(t.subrange(i, e), st) {
            Step::Stop(f) => Parsed::Refused(n + 1, f),
            Step::Abort => Parsed::Aborts,
            Step::Next(next) => if e < t.len() {
                run(t, e + 1, n + 1, next)
            } else {
                Parsed::Read(next)
            },
        }
    } else {
        Parsed::Read(st)
    }
}

/// What a register's text declares, or where and why it is refused.
pub open spec fn parse_of(t: Seq<u8>) -> Parsed {
    run(t, 0, 0, nothing_declared())
}

// ---------------------------------------------------------------------------
// Reading

/// How reading one line ended.
enum LineEnd {
    Kept,
    Refused(Fault),
    Aborted,
}

/// Whether a line that ended as `r`, leaving the register at `after`, did
/// what `step` says.
spec fn ends_as(r: LineEnd, step: Step, after: RegisterView) -> bool {
    match step {
        Step::Next(st) => r is Kept && after == st,
        Step::Stop(f) => r == LineEnd::Refused(f),
        Step::Abort => r is Aborted,
    }
}

/// What reading an operand or a composition built.
enum Built {
    Made(Expr),
    Refused(Fault),
    Aborted,
}

spec fn built_as(r: Built, c: Composed) -> bool {
    match c {
        Composed::Made(x) => r matches Built::Made(e) && e@ == x,
        Composed::Stop(f) => r == Built::Refused(f),
        Composed::Abort => r is Aborted,
    }
}

fn source_step(s: &[u8], fs: &Vec<(usize, usize, usize, usize)>, reg: &mut Register) -> (r:
    Result<(), Fault>)
    requires
        fields_within(fs@, s@.len() as int),
    ensures
        match source_line(fields_view(s@, fs@), old(reg)@) {
            Ok(st) => r is Ok && final(reg)@ == st,
            Err(e) => r == Err::<(), Fault>(e),
        },
{
    proof {
        reveal(source_line);
    }
    let id = match number_in(s, fs, "id") {
        Ok(v) => v,
        Err(e) => return Err(e),
    };
    let hz = match number_in(s, fs, "hz") {
        Ok(v) => v,
        Err(e) => return Err(e),
    };
    let per = match number_or_in(s, fs, "per", 1) {
        Ok(v) => v,
        Err(e) => return Err(e),
    };
    let rate = match Rate::new(hz, per) {
        Some(r) => r,
        None => return Err(Fault::Malformed("hz")),
    };
    let width = match number_in(s, fs, "width") {
        Ok(v) => v,
        Err(e) => return Err(e),
    };
    let ppm = match number_or_in(s, fs, "ppm", 0) {
        Ok(v) => v,
        Err(e) => return Err(e),
    };
    if id > 65535 {
        return Err(Fault::Malformed("id"));
    }
    let prov = match provenance_in(s, fs) {
        Ok(p) => p,
        Err(e) => return Err(e),
    };
    if ppm > 4294967295 {
        return Err(Fault::Malformed("ppm"));
    }
    if width > 255 {
        return Err(Fault::Malformed("width"));
    }
    let src = Source {
        id: SourceId(id as u16),
        origin: Origin::Root,
        nominal: rate,
        nominal_prov: prov,
        tolerance_ppm: ppm as u32,
        width_bits: width as u8,
        read_cost: Quantity::new(Interval::point(1), Unit::BusReads, Provenance::Assumed),
        valid: Validity::Always,
    };
    reg.sources.push(src);
    Ok(())
}

fn wait_step(s: &[u8], fs: &Vec<(usize, usize, usize, usize)>, reg: &mut Register) -> (r: Result<
    (),
    Fault,
>)
    requires
        fields_within(fs@, s@.len() as int),
    ensures
        match wait_line(fields_view(s@, fs@), old(reg)@) {
            Ok(st) => r is Ok && final(reg)@ == st,
            Err(e) => r == Err::<(), Fault>(e),
        },
{
    proof {
        reveal(wait_line);
    }
    let id = match number_in(s, fs, "id") {
        Ok(v) => v,
        Err(e) => return Err(e),
    };
    let budget = match number_in(s, fs, "budget") {
        Ok(v) => v,
        Err(e) => return Err(e),
    };
    let cost = match number_in(s, fs, "cost") {
        Ok(v) => v,
        Err(e) => return Err(e),
    };
    let u = match unit_in(s, fs, &reg.sources) {
        Ok(v) => v,
        Err(e) => return Err(e),
    };
    let counter = match counter_in(s, fs) {
        Ok(v) => v,
        Err(e) => return Err(e),
    };
    let measure = match measure_in(s, fs) {
        Ok(v) => v,
        Err(e) => return Err(e),
    };
    let on_exhaustion = match exhaustion_in(s, fs) {
        Ok(v) => v,
        Err(e) => return Err(e),
    };
    if id > 65535 {
        return Err(Fault::Malformed("id"));
    }
    let prov = match provenance_in(s, fs) {
        Ok(p) => p,
        Err(e) => return Err(e),
    };
    let w = Wait {
        id: WaitId(id as u16),
        budget,
        counter,
        measure,
        cost_per_iter: Quantity::new(Interval::point(cost), u, prov),
        on_exhaustion,
    };
    let cite = citation_in(s, fs);
    let ghost before = reg.wait_citations@;
    reg.waits.push(w);
    reg.wait_citations.push(cite);
    proof {
        assert(reg.wait_citations@.map_values(|c: Citation| c@) =~= before.map_values(
            |c: Citation| c@,
        ).push(cite@));
    }
    Ok(())
}

fn window_step(s: &[u8], fs: &Vec<(usize, usize, usize, usize)>, reg: &mut Register) -> (r:
    Result<(), Fault>)
    requires
        fields_within(fs@, s@.len() as int),
    ensures
        match window_line(fields_view(s@, fs@), old(reg)@) {
            Ok(st) => r is Ok && final(reg)@ == st,
            Err(e) => r == Err::<(), Fault>(e),
        },
{
    proof {
        reveal(window_line);
    }
    let id = match number_in(s, fs, "id") {
        Ok(v) => v,
        Err(e) => return Err(e),
    };
    let cost = match number_in(s, fs, "cost") {
        Ok(v) => v,
        Err(e) => return Err(e),
    };
    let u = match unit_in(s, fs, &reg.sources) {
        Ok(v) => v,
        Err(e) => return Err(e),
    };
    let at = match span_in(s, fs, "at") {
        Ok(v) => v,
        Err(e) => return Err(e),
    };
    if id > 65535 {
        return Err(Fault::Malformed("id"));
    }
    let prov = match provenance_in(s, fs) {
        Ok(p) => p,
        Err(e) => return Err(e),
    };
    let span = match at {
        Some(sp) => sp,
        None => match Span::new(0, 0) {
            Some(sp) => sp,
            None => return Err(Fault::Malformed("at")),
        },
    };
    reg.windows.push((id as u16, Quantity::new(Interval::point(cost), u, prov), span));
    Ok(())
}

fn interrupt_step(s: &[u8], fs: &Vec<(usize, usize, usize, usize)>, reg: &mut Register) -> (r:
    Result<(), Fault>)
    requires
        fields_within(fs@, s@.len() as int),
    ensures
        match interrupt_line(fields_view(s@, fs@), old(reg)@) {
            Ok(st) => r is Ok && final(reg)@ == st,
            Err(e) => r == Err::<(), Fault>(e),
        },
{
    proof {
        reveal(interrupt_line);
    }
    let id = match number_in(s, fs, "id") {
        Ok(v) => v,
        Err(e) => return Err(e),
    };
    let u = match unit_in(s, fs, &reg.sources) {
        Ok(v) => v,
        Err(e) => return Err(e),
    };
    let prov = match provenance_in(s, fs) {
        Ok(p) => p,
        Err(e) => return Err(e),
    };
    match span_in(s, fs, "armed") {
        Ok(_) => {},
        Err(e) => return Err(e),
    }
    let deadline = match optional_number_in(s, fs, "deadline") {
        Ok(v) => v,
        Err(e) => return Err(e),
    };
    match optional_number_in(s, fs, "jitter") {
        Ok(_) => {},
        Err(e) => return Err(e),
    }
    if id > 65535 {
        return Err(Fault::Malformed("id"));
    }
    let every = match number_in(s, fs, "every") {
        Ok(v) => v,
        Err(e) => return Err(e),
    };
    let cost = match number_in(s, fs, "cost") {
        Ok(v) => v,
        Err(e) => return Err(e),
    };
    let priority = match number_in(s, fs, "priority") {
        Ok(v) => v,
        Err(e) => return Err(e),
    };
    if priority > 255 {
        return Err(Fault::Malformed("priority"));
    }
    let depth = match number_in(s, fs, "depth") {
        Ok(v) => v,
        Err(e) => return Err(e),
    };
    if depth > 4294967295 {
        return Err(Fault::Malformed("depth"));
    }
    let on_drop = match consequence_in(s, fs) {
        Ok(v) => v,
        Err(e) => return Err(e),
    };
    let irq = Interrupt {
        id: InterruptId(id as u16),
        arrival: Arrival::MinInterarrival(Quantity::new(Interval::point(every), u, prov)),
        cost: Quantity::new(Interval::point(cost), u, prov),
        priority: priority as u8,
        deadline: match deadline {
            Some(d) => Some(Quantity::new(Interval::point(d), u, prov)),
            None => None,
        },
        depth: depth as u32,
        on_drop,
    };
    reg.interrupts.push(irq);
    Ok(())
}

fn find_wait_in(waits: &Vec<Wait>, n: u16) -> (r: Option<Wait>)
    ensures
        r == find_wait(waits@, n, 0),
{
    let mut i: usize = 0;
    while i < waits.len()
        invariant
            0 <= i <= waits@.len(),
            find_wait(waits@, n, i as int) == find_wait(waits@, n, 0),
        decreases waits@.len() - i,
    {
        if waits[i].id.0 == n {
            return Some(waits[i]);
        }
        i = i + 1;
    }
    None
}

fn find_composition_in(reg: &Register, n: u16) -> (r: Option<Expr>)
    ensures
        match find_composition(reg@.compositions, n, 0) {
            Some(x) => r matches Some(e) && e@ == x,
            None => r is None,
        },
{
    let ghost cs = reg@.compositions;
    let mut i: usize = 0;
    while i < reg.compositions.len()
        invariant
            0 <= i <= reg.compositions@.len(),
            cs == reg@.compositions,
            cs.len() == reg.compositions@.len(),
            find_composition(cs, n, i as int) == find_composition(cs, n, 0),
        decreases reg.compositions@.len() - i,
    {
        let c = &reg.compositions[i];
        proof {
            assert(cs[i as int] == (c.0, c.1@));
        }
        if c.0 == n {
            return Some(c.1.clone());
        }
        i = i + 1;
    }
    None
}

fn operand_in(s: &[u8], a: usize, b: usize, reg: &Register, key: &'static str) -> (r: Built)
    requires
        a <= b <= s@.len(),
    ensures
        match operand_of(reg@, s@.subrange(a as int, b as int)) {
            Operand::To(x) => r matches Built::Made(e) && e@ == x,
            Operand::Unknown => r == Built::Refused(Fault::UnknownOperand(key)),
            Operand::Aborts => r is Aborted,
        },
{
    let ghost name = s@.subrange(a as int, b as int);
    if b == a || s[a] >= 0x80 {
        return Built::Aborted;
    }
    proof {
        assert(name[0] == s@[a as int]);
        assert(name.subrange(1, name.len() as int) =~= s@.subrange(a + 1, b as int));
    }
    match radix_in(s, a + 1, b, 10, 65535) {
        None => Built::Refused(Fault::UnknownOperand(key)),
        Some(v) => {
            let n = v as u16;
            if s[a] == 119u8 {
                match find_wait_in(&reg.waits, n) {
                    Some(w) => Built::Made(Expr::Leaf(w)),
                    None => Built::Refused(Fault::UnknownOperand(key)),
                }
            } else if s[a] == 99u8 {
                match find_composition_in(reg, n) {
                    Some(e) => Built::Made(e),
                    None => Built::Refused(Fault::UnknownOperand(key)),
                }
            } else {
                Built::Refused(Fault::UnknownOperand(key))
            }
        },
    }
}

/// `pre` placed before what a list of operands names, where it names all.
spec fn prefixed(pre: Seq<ExprView>, r: Operands) -> Operands {
    match r {
        Operands::All(xs) => Operands::All(pre + xs),
        other => other,
    }
}

fn operands_in(s: &[u8], a: usize, b: usize, reg: &Register) -> (r: Option<Option<Vec<Expr>>>)
    requires
        a <= b <= s@.len(),
    ensures
        match operands_from(reg@, s@.subrange(a as int, b as int), 0) {
            Operands::All(xs) => r matches Some(Some(v)) && views(v@) == xs,
            Operands::Unknown => r matches Some(o) && o is None,
            Operands::Aborts => r is None,
        },
{
    let ghost x = s@.subrange(a as int, b as int);
    let mut out: Vec<Expr> = Vec::new();
    let mut i = a;
    proof {
        lemma_views(out@);
        assert(views(out@) =~= Seq::<ExprView>::empty());
        assert(prefixed(views(out@), operands_from(reg@, x, 0)) == operands_from(reg@, x, 0)) by {
            match operands_from(reg@, x, 0) {
                Operands::All(xs) => {
                    assert(Seq::<ExprView>::empty() + xs =~= xs);
                },
                _ => {},
            }
        }
    }
    loop
        invariant
            a <= i <= b <= s@.len(),
            x == s@.subrange(a as int, b as int),
            operands_from(reg@, x, 0) == prefixed(views(out@), operands_from(reg@, x, i - a)),
        decreases b - i,
    {
        let e = scan_in(s, 44u8, a, i, b);
        proof {
            lemma_scan_bounds(x, 44u8, i - a);
            assert(x.subrange(i - a, e - a) =~= s@.subrange(i as int, e as int));
        }
        match operand_in(s, i, e, reg, "of") {
            Built::Aborted => {
                return None;
            },
            Built::Refused(_) => {
                return Some(None);
            },
            Built::Made(ex) => {
                let ghost prior = out@;
                let ghost pre = views(prior);
                out.push(ex);
                proof {
                    lemma_views(out@);
                    lemma_views(prior);
                    assert(views(out@) =~= pre.push(ex@));
                }
                if e >= b {
                    proof {
                        assert(pre.push(ex@) =~= pre + seq![ex@]);
                    }
                    return Some(Some(out));
                }
                proof {
                    match operands_from(reg@, x, e + 1 - a) {
                        Operands::All(xs) => {
                            assert(pre + (seq![ex@] + xs) =~= pre.push(ex@) + xs);
                        },
                        _ => {},
                    }
                }
                i = e + 1;
            },
        }
    }
}

fn operand_field_in(
    s: &[u8],
    fs: &Vec<(usize, usize, usize, usize)>,
    reg: &Register,
    key: &'static str,
) -> (r: Built)
    requires
        fields_within(fs@, s@.len() as int),
    ensures
        built_as(r, operand_field(reg@, fields_view(s@, fs@), key)),
{
    match field_in(s, fs, key) {
        Err(e) => Built::Refused(e),
        Ok(p) => operand_in(s, p.0, p.1, reg, key),
    }
}

fn composed_in(
    s: &[u8],
    fs: &Vec<(usize, usize, usize, usize)>,
    fa: usize,
    fb: usize,
    reg: &Register,
) -> (r: Built)
    requires
        fields_within(fs@, s@.len() as int),
        fa <= fb <= s@.len(),
    ensures
        built_as(r, composed_of(fields_view(s@, fs@), s@.subrange(fa as int, fb as int), reg@)),
{
    let is_seq = is_word(s, fa, fb, "seq");
    if is_seq || is_word(s, fa, fb, "alt") {
        match field_in(s, fs, "of") {
            Err(e) => Built::Refused(e),
            Ok(p) => match operands_in(s, p.0, p.1, reg) {
                None => Built::Aborted,
                Some(None) => Built::Refused(Fault::UnknownOperand("of")),
                Some(Some(v)) => {
                    if is_seq {
                        Built::Made(Expr::Sequence(v))
                    } else {
                        Built::Made(Expr::Alt(v))
                    }
                },
            },
        }
    } else if is_word(s, fa, fb, "repeat") {
        match operand_field_in(s, fs, reg, "body") {
            Built::Made(b) => match number_in(s, fs, "times") {
                Ok(t) => Built::Made(Expr::Repeat { body: Box::new(b), times: t }),
                Err(e) => Built::Refused(e),
            },
            other => other,
        }
    } else if is_word(s, fa, fb, "short-circuit") {
        match operand_field_in(s, fs, reg, "guard") {
            Built::Made(g) => match operand_field_in(s, fs, reg, "then") {
                Built::Made(t) => Built::Made(
                    Expr::ShortCircuit { guard: Box::new(g), then: Box::new(t) },
                ),
                other => other,
            },
            other => other,
        }
    } else {
        Built::Refused(Fault::Malformed("form"))
    }
}

fn compose_step(s: &[u8], fs: &Vec<(usize, usize, usize, usize)>, reg: &mut Register) -> (r:
    LineEnd)
    requires
        fields_within(fs@, s@.len() as int),
    ensures
        ends_as(r, compose_line(fields_view(s@, fs@), old(reg)@), final(reg)@),
{
    proof {
        reveal(compose_line);
    }
    let id = match number_in(s, fs, "id") {
        Ok(v) => v,
        Err(e) => return LineEnd::Refused(e),
    };
    let (fa, fb) = match field_in(s, fs, "form") {
        Ok(p) => p,
        Err(e) => return LineEnd::Refused(e),
    };
    let expr = match composed_in(s, fs, fa, fb, reg) {
        Built::Made(e) => e,
        Built::Refused(f) => return LineEnd::Refused(f),
        Built::Aborted => return LineEnd::Aborted,
    };
    if id > 65535 {
        return LineEnd::Refused(Fault::Malformed("id"));
    }
    let ghost before = reg.compositions@;
    let pair = (id as u16, expr);
    reg.compositions.push(pair);
    proof {
        assert(reg.compositions@.map_values(|p: (u16, Expr)| (p.0, p.1@)) =~= before.map_values(
            |p: (u16, Expr)| (p.0, p.1@),
        ).push((pair.0, pair.1@)));
    }
    LineEnd::Kept
}

/// The bounds of what `s[a..b]` says once its comment and surrounding white
/// space are dropped.
fn body_in(s: &[u8], a: usize, b: usize) -> (r: (usize, usize))
    requires
        a <= b <= s@.len(),
    ensures
        a <= r.0 <= r.1 <= b,
        s@.subrange(r.0 as int, r.1 as int) == trim(before(s@.subrange(a as int, b as int), 35u8)),
{
    let ghost line = s@.subrange(a as int, b as int);
    let h = scan_in(s, 35u8, a, a, b);
    let t0 = skip_spaces_in(s, a, a, h);
    let t1 = back_spaces_in(s, a, t0, h, h);
    proof {
        assert(before(line, 35u8) =~= s@.subrange(a as int, h as int));
        assert(trim(before(line, 35u8)) =~= s@.subrange(t0 as int, t1 as int));
    }
    (t0, t1)
}

/// Read the line `s[a..b]` into the register.
#[verifier::rlimit(40)]
fn line_in(s: &[u8], a: usize, b: usize, reg: &mut Register) -> (r: LineEnd)
    requires
        a <= b <= s@.len(),
    ensures
        ends_as(r, line_step(s@.subrange(a as int, b as int), old(reg)@), final(reg)@),
{
    proof {
        reveal(line_step);
    }
    let (t0, t1) = body_in(s, a, b);
    let ghost body = s@.subrange(t0 as int, t1 as int);
    if t1 == t0 {
        return LineEnd::Kept;
    }
    let k = word_end_in(s, t0, t0, t1);
    let rlo = if k < t1 {
        k + space_width(s, t0, k, t1)
    } else {
        t1
    };
    proof {
        assert(body.subrange(0, k - t0) =~= s@.subrange(t0 as int, k as int));
        if k < t1 {
            assert(body.subrange(k - t0 + space_at(body, k - t0), body.len() as int)
                =~= s@.subrange(rlo as int, t1 as int));
        } else {
            assert(s@.subrange(rlo as int, t1 as int) =~= Seq::<u8>::empty());
        }
    }
    let fs = fields_in(s, rlo, t1);
    declare_in(s, t0, k, &fs, reg)
}

/// Read a declaration whose kind is `s[a..b]`.
fn declare_in(
    s: &[u8],
    a: usize,
    b: usize,
    fs: &Vec<(usize, usize, usize, usize)>,
    reg: &mut Register,
) -> (r: LineEnd)
    requires
        a <= b <= s@.len(),
        fields_within(fs@, s@.len() as int),
    ensures
        ends_as(
            r,
            declare(s@.subrange(a as int, b as int), fields_view(s@, fs@), old(reg)@),
            final(reg)@,
        ),
{
    proof {
        reveal(declare);
    }
    if is_word(s, a, b, "source") {
        match source_step(s, fs, reg) {
            Ok(()) => LineEnd::Kept,
            Err(e) => LineEnd::Refused(e),
        }
    } else if is_word(s, a, b, "wait") {
        match wait_step(s, fs, reg) {
            Ok(()) => LineEnd::Kept,
            Err(e) => LineEnd::Refused(e),
        }
    } else if is_word(s, a, b, "window") {
        match window_step(s, fs, reg) {
            Ok(()) => LineEnd::Kept,
            Err(e) => LineEnd::Refused(e),
        }
    } else if is_word(s, a, b, "compose") {
        compose_step(s, fs, reg)
    } else if is_word(s, a, b, "interrupt") {
        match interrupt_step(s, fs, reg) {
            Ok(()) => LineEnd::Kept,
            Err(e) => LineEnd::Refused(e),
        }
    } else {
        LineEnd::Refused(Fault::Unrecognised)
    }
}

/// Read every line of `s`.
fn read_lines(s: &[u8]) -> (r: Option<Result<Register, ParseError>>)
    ensures
        match parse_of(s@) {
            Parsed::Read(v) => r matches Some(Ok(reg)) && reg@ == v,
            Parsed::Refused(n, f) => r == Some(
                Err::<Register, ParseError>(ParseError { line: n as usize, what: f }),
            ),
            Parsed::Aborts => r is None,
        },
{
    let mut reg = Register::new();
    let mut i: usize = 0;
    let mut n: usize = 0;
    proof {
        assert(s@.subrange(0, s@.len() as int) =~= s@);
    }
    loop
        invariant
            i <= s@.len(),
            n <= i,
            s@.subrange(0, s@.len() as int) == s@,
            parse_of(s@) == run(s@, i as int, n as nat, reg@),
        decreases s@.len() - i,
    {
        if i >= s.len() {
            return Some(Ok(reg));
        }
        let e = scan_in(s, 10u8, 0, i, s.len());
        proof {
            lemma_scan_bounds(s@, 10u8, i as int);
        }
        match line_in(s, i, e, &mut reg) {
            LineEnd::Kept => {
                if e >= s.len() {
                    return Some(Ok(reg));
                }
                i = e + 1;
                n = n + 1;
            },
            LineEnd::Refused(f) => {
                return Some(Err(ParseError { line: n + 1, what: f }));
            },
            LineEnd::Aborted => {
                return None;
            },
        }
    }
}

impl Register {
    /// Read a register from its file form.
    ///
    /// Blank lines and everything after a `#` are ignored, so a register can
    /// carry the commentary that makes it reviewable. The first line that
    /// breaks the grammar is refused, by its number.
    pub fn parse(text: &str) -> (r: Result<Register, ParseError>)
        requires
            !(parse_of(text.spec_bytes()) is Aborts),
        ensures
            match parse_of(text.spec_bytes()) {
                Parsed::Read(v) => r matches Ok(reg) && reg@ == v,
                Parsed::Refused(n, f) => r == Err::<Register, ParseError>(
                    ParseError { line: n as usize, what: f },
                ),
                Parsed::Aborts => false,
            },
    {
        match read_lines(text.as_bytes()) {
            Some(r) => r,
            None => Err(ParseError { line: 0, what: Fault::Unrecognised }),
        }
    }

    /// Read a register, or `None` where a composition names an operand that
    /// cannot be split into its kind and its number.
    pub fn read(text: &str) -> (r: Option<Result<Register, ParseError>>)
        ensures
            match parse_of(text.spec_bytes()) {
                Parsed::Read(v) => r matches Some(Ok(reg)) && reg@ == v,
                Parsed::Refused(n, f) => r == Some(
                    Err::<Register, ParseError>(ParseError { line: n as usize, what: f }),
                ),
                Parsed::Aborts => r is None,
            },
    {
        read_lines(text.as_bytes())
    }
}


// ---------------------------------------------------------------------------
// Messages

/// The character of a decimal digit.
pub open spec fn digit_char(d: nat) -> char {
    if d == 0 {
        '0'
    } else if d == 1 {
        '1'
    } else if d == 2 {
        '2'
    } else if d == 3 {
        '3'
    } else if d == 4 {
        '4'
    } else if d == 5 {
        '5'
    } else if d == 6 {
        '6'
    } else if d == 7 {
        '7'
    } else if d == 8 {
        '8'
    } else {
        '9'
    }
}

/// `n` in decimal.
pub open spec fn decimal(n: nat) -> Seq<char>
    decreases n,
{
    if n < 10 {
        seq![digit_char(n)]
    } else {
        decimal(n / 10) + seq![digit_char(n % 10)]
    }
}

/// What a fault says.
pub open spec fn fault_text(f: Fault) -> Seq<char> {
    match f {
        Fault::Unrecognised => "no rule for this line"@,
        Fault::Missing(k) => "missing "@ + k@,
        Fault::Malformed(k) => "malformed "@ + k@,
        Fault::StillBlank(k) => k@ + " is still blank; a human has to supply it"@,
        Fault::UnnamedClock => "a tick count must name the clock it was counted against"@,
        Fault::UnknownOperand(k) => k@
            + " names a declaration this register has not made yet; a composition reads top down"@,
    }
}

/// What an error says: the line, then the fault.
pub open spec fn message_of(e: ParseError) -> Seq<char> {
    "line "@ + decimal(e.line as nat) + ": "@ + fault_text(e.what)
}

fn digit_text(d: usize) -> (r: &'static str)
    requires
        d < 10,
    ensures
        r@ == seq![digit_char(d as nat)],
{
    if d == 0 {
        proof {
            reveal_strlit("0");
        }
        "0"
    } else if d == 1 {
        proof {
            reveal_strlit("1");
        }
        "1"
    } else if d == 2 {
        proof {
            reveal_strlit("2");
        }
        "2"
    } else if d == 3 {
        proof {
            reveal_strlit("3");
        }
        "3"
    } else if d == 4 {
        proof {
            reveal_strlit("4");
        }
        "4"
    } else if d == 5 {
        proof {
            reveal_strlit("5");
        }
        "5"
    } else if d == 6 {
        proof {
            reveal_strlit("6");
        }
        "6"
    } else if d == 7 {
        proof {
            reveal_strlit("7");
        }
        "7"
    } else if d == 8 {
        proof {
            reveal_strlit("8");
        }
        "8"
    } else {
        proof {
            reveal_strlit("9");
        }
        "9"
    }
}

fn append_decimal(out: &mut String, n: usize)
    ensures
        final(out)@ == old(out)@ + decimal(n as nat),
    decreases n,
{
    if n >= 10 {
        append_decimal(out, n / 10);
    }
    let ghost mid = out@;
    out.append(digit_text(n % 10));
    proof {
        if n >= 10 {
            assert(out@ =~= old(out)@ + decimal(n as nat));
        } else {
            assert(out@ =~= old(out)@ + decimal(n as nat));
        }
    }
}

impl ParseError {
    /// What the error says, for a reader: the line it happened on, then what
    /// was wrong there.
    pub fn message(&self) -> (r: String)
        ensures
            r@ == message_of(*self),
    {
        let mut out = String::from_str("line ");
        append_decimal(&mut out, self.line);
        out.append(": ");
        match self.what {
            Fault::Unrecognised => out.append("no rule for this line"),
            Fault::Missing(k) => {
                out.append("missing ");
                out.append(k);
            },
            Fault::Malformed(k) => {
                out.append("malformed ");
                out.append(k);
            },
            Fault::StillBlank(k) => {
                out.append(k);
                out.append(" is still blank; a human has to supply it");
            },
            Fault::UnnamedClock => out.append(
                "a tick count must name the clock it was counted against",
            ),
            Fault::UnknownOperand(k) => {
                out.append(k);
                out.append(
                    " names a declaration this register has not made yet; a composition reads top down",
                );
            },
        }
        proof {
            assert(out@ =~= message_of(*self));
        }
        out
    }
}


// ---------------------------------------------------------------------------
// Laws of the format

proof fn lemma_scan_prefix(line: Seq<u8>, x: Seq<u8>, d: u8, i: int)
    requires
        0 <= i <= line.len(),
        line.len() < x.len(),
        x[line.len() as int] == d,
        forall|k: int| 0 <= k < line.len() ==> x[k] == line[k],
    ensures
        scan(x, d, i) == scan(line, d, i),
    decreases line.len() - i,
{
    if i < line.len() && line[i] != d {
        lemma_scan_prefix(line, x, d, i + 1);
    }
}

/// Everything after a `#` on a line is commentary: what follows it never
/// changes what the line declares.
pub proof fn lemma_commentary_is_ignored(line: Seq<u8>, note: Seq<u8>, st: RegisterView)
    ensures
        line_step(line + seq![35u8] + note, st) == line_step(line, st),
{
    reveal(line_step);
    let x = line + seq![35u8] + note;
    lemma_scan_prefix(line, x, 35u8, 0);
    lemma_scan_bounds(line, 35u8, 0);
    assert(before(x, 35u8) =~= before(line, 35u8));
}

proof fn lemma_all_space_skips(x: Seq<u8>, i: int)
    requires
        0 <= i <= x.len(),
        forall|k: int| 0 <= k < x.len() ==> ascii_space(#[trigger] x[k]),
    ensures
        skip_spaces(x, i) == x.len(),
    decreases x.len() - i,
{
    if i < x.len() {
        assert(ascii_space(x[i]));
        lemma_all_space_skips(x, i + 1);
    }
}

/// A line of nothing but white space, or one that is all commentary,
/// declares nothing.
pub proof fn lemma_blank_line_declares_nothing(line: Seq<u8>, note: Seq<u8>, st: RegisterView)
    requires
        forall|k: int| 0 <= k < line.len() ==> ascii_space(#[trigger] line[k]),
    ensures
        line_step(line, st) == Step::Next(st),
        line_step(line + seq![35u8] + note, st) == Step::Next(st),
{
    reveal(line_step);
    lemma_commentary_is_ignored(line, note, st);
    lemma_scan_bounds(line, 35u8, 0);
    let b = before(line, 35u8);
    assert forall|k: int| 0 <= k < b.len() implies ascii_space(#[trigger] b[k]) by {
        assert(b[k] == line[k]);
    }
    lemma_all_space_skips(b, 0);
    lemma_back_spaces_bounds(b, b.len() as int, b.len() as int);
}

/// The line of `t` that starts at `a`: everything up to the next line feed,
/// or to the end of the text.
pub open spec fn line_from(t: Seq<u8>, a: int) -> Seq<u8> {
    t.subrange(a, scan(t, 10u8, a))
}

/// Whether a line of `t` begins at `a`.
pub open spec fn line_begins(t: Seq<u8>, a: int) -> bool {
    a == 0 || (0 < a <= t.len() && t[a - 1] == 10u8)
}

/// Whether some whole line of `t` declares a wait with the identifier, budget
/// and counter of `w`, and carries the citation `c`.
pub open spec fn cited_by(t: Seq<u8>, c: CitationView, w: Wait) -> bool {
    exists|a: int|
        #![trigger line_from(t, a)]
        0 <= a <= t.len() && line_begins(t, a) && (line_parts(line_from(t, a)) matches Some(
            (kind, fs),
        ) && kind == "wait".spec_bytes() && c == citation_of(fs) && number_of(fs, "id") == Ok::<
            u128,
            Fault,
        >(w.id.0 as u128) && number_of(fs, "budget") == Ok::<u128, Fault>(w.budget)
            && counter_of(fs) == Ok::<Counter, Fault>(w.counter))
}

/// Whether every wait of `st` has exactly one citation, at its own position,
/// and both come from the same whole line of `t`.
pub open spec fn citations_paired(t: Seq<u8>, st: RegisterView) -> bool {
    &&& st.citations.len() == st.waits.len()
    &&& forall|i: int|
        0 <= i < st.waits.len() ==> #[trigger] cited_by(t, st.citations[i], st.waits[i])
}

proof fn lemma_declare_keeps_pairs(t: Seq<u8>, a: int, st: RegisterView)
    requires
        0 <= a <= t.len(),
        line_begins(t, a),
        citations_paired(t, st),
    ensures
        line_step(line_from(t, a), st) matches Step::Next(next) ==> citations_paired(t, next),
{
    reveal(line_step);
    reveal(declare);
    reveal(source_line);
    reveal(wait_line);
    reveal(window_line);
    reveal(compose_line);
    reveal(interrupt_line);
    lemma_scan_bounds(t, 10u8, a);
    let line = line_from(t, a);
    match line_parts(line) {
        None => {},
        Some((kind, fs)) => {
            if !(kind == "source".spec_bytes()) && kind == "wait".spec_bytes() {
                match wait_line(fs, st) {
                    Ok(next) => {
                        let w = next.waits.last();
                        assert(next.waits == st.waits.push(w));
                        assert(cited_by(t, next.citations[st.waits.len() as int], w)) by {
                            assert(line_parts(line_from(t, a)) == Some((kind, fs)));
                        }
                        assert forall|i: int| 0 <= i < next.waits.len() implies #[trigger] cited_by(
                            t,
                            next.citations[i],
                            next.waits[i],
                        ) by {
                            if i < st.waits.len() {
                                assert(next.citations[i] == st.citations[i]);
                                assert(next.waits[i] == st.waits[i]);
                            }
                        }
                    },
                    Err(_) => {},
                }
            }
        },
    }
}

proof fn lemma_run_keeps_pairs(t: Seq<u8>, i: int, n: nat, st: RegisterView)
    requires
        line_begins(t, i),
        citations_paired(t, st),
    ensures
        run(t, i, n, st) matches Parsed::Read(v) ==> citations_paired(t, v),
    decreases t.len() - i,
{
    if 0 <= i && i < t.len() {
        let e = scan(t, 10u8, i);
        lemma_scan_bounds(t, 10u8, i);
        lemma_declare_keeps_pairs(t, i, st);
        assert(line_from(t, i) == t.subrange(i, e));
        match line_step(t.subrange(i, e), st) {
            Step::Next(next) => {
                if e < t.len() {
                    lemma_run_keeps_pairs(t, e + 1, n + 1, next);
                }
            },
            _ => {},
        }
    }
}

/// Every wait a register declares has exactly one citation, at its own
/// position, and the citation carries the `file=` and `symbol=` written on the
/// line that declared that wait: a value written `?` or left out reads as
/// absent.
pub proof fn lemma_each_wait_cites_its_own_line(t: Seq<u8>)
    ensures
        parse_of(t) matches Parsed::Read(v) ==> citations_paired(t, v),
{
    assert(citations_paired(t, nothing_declared()));
    lemma_run_keeps_pairs(t, 0, 0, nothing_declared());
}

// ---------------------------------------------------------------------------
// Obligations

/// How many of its two obligations a wait fails: that its measure is
/// well-founded, and that its budget fits the counter holding it.
pub open spec fn wait_failures(w: Wait) -> nat {
    (if termination_of(w.measure) == Termination::WellFounded {
        0nat
    } else {
        1nat
    }) + (if w.budget <= counter_limit(w.counter) {
        0nat
    } else {
        1nat
    })
}

/// How many obligations a list of waits fails.
pub open spec fn failures_of(ws: Seq<Wait>) -> nat
    decreases ws.len(),
{
    if ws.len() == 0 {
        0
    } else {
        failures_of(ws.drop_last()) + wait_failures(ws.last())
    }
}

/// The failure count is the number of waits whose measure is not well-founded
/// plus the number of waits whose budget does not fit the counter holding it:
/// each wait answers for both obligations, and each failure counts once.
pub proof fn lemma_failures_count_each_obligation(ws: Seq<Wait>)
    ensures
        failures_of(ws) == ws.filter(
            |w: Wait| termination_of(w.measure) != Termination::WellFounded,
        ).len() + ws.filter(|w: Wait| w.budget > counter_limit(w.counter)).len(),
    decreases ws.len(),
{
    reveal(Seq::filter);
    if ws.len() > 0 {
        lemma_failures_count_each_obligation(ws.drop_last());
    }
}

/// The weakest provenance among a list of waits' costs.
pub open spec fn standing_of(ws: Seq<Wait>) -> Provenance
    decreases ws.len(),
{
    if ws.len() == 0 {
        Provenance::Derived
    } else {
        weaker(standing_of(ws.drop_last()), ws.last().cost_per_iter.spec_provenance())
    }
}

/// The standing of a register's waits is the weakest provenance among their
/// costs: no wait's cost is weaker, and it is the provenance of one of them,
/// or the strongest there is when there are none.
pub proof fn lemma_standing_is_the_weakest(ws: Seq<Wait>)
    ensures
        forall|k: int|
            0 <= k < ws.len() ==> rank(standing_of(ws)) <= rank(
                #[trigger] ws[k].cost_per_iter.spec_provenance(),
            ),
        ws.len() == 0 ==> standing_of(ws) == Provenance::Derived,
        ws.len() > 0 ==> exists|k: int|
            0 <= k < ws.len() && standing_of(ws) == #[trigger] ws[k].cost_per_iter.spec_provenance(),
    decreases ws.len(),
{
    if ws.len() > 0 {
        let init = ws.drop_last();
        lemma_standing_is_the_weakest(init);
        assert forall|k: int| 0 <= k < ws.len() implies rank(standing_of(ws)) <= rank(
            #[trigger] ws[k].cost_per_iter.spec_provenance(),
        ) by {
            if k < ws.len() - 1 {
                assert(init[k] == ws[k]);
            }
        }
        if init.len() > 0 {
            let k = choose|k: int|
                0 <= k < init.len() && standing_of(init)
                    == #[trigger] init[k].cost_per_iter.spec_provenance();
            assert(init[k] == ws[k]);
        }
        let last = ws.len() - 1;
        assert(ws[last] == ws.last());
    }
}

/// What holding a register's waits to their obligations found.
#[derive(Clone, Copy, PartialEq, Eq, Structural, Debug)]
pub struct Obligations {
    /// How many obligations failed.
    pub failed: Count,
    /// The weakest provenance anything rests on, which reaches the verdict.
    pub standing: Provenance,
}

impl Register {
    /// Hold every wait to its obligations.
    pub fn obligations(&self) -> (r: Obligations)
        ensures
            r.failed == failures_of(self@.waits),
            r.failed == self@.waits.filter(
                |w: Wait| termination_of(w.measure) != Termination::WellFounded,
            ).len() + self@.waits.filter(|w: Wait| w.budget > counter_limit(w.counter)).len(),
            r.standing == standing_of(self@.waits),
    {
        proof {
            lemma_failures_count_each_obligation(self@.waits);
        }
        let mut failed: Count = 0;
        let mut standing = Provenance::Derived;
        let mut i: usize = 0;
        proof {
            assert(self.waits@.subrange(0, 0) =~= Seq::<Wait>::empty());
        }
        while i < self.waits.len()
            invariant
                0 <= i <= self.waits@.len(),
                failed == failures_of(self.waits@.subrange(0, i as int)),
                failed <= 2 * i,
                standing == standing_of(self.waits@.subrange(0, i as int)),
            decreases self.waits@.len() - i,
        {
            let w = self.waits[i];
            proof {
                assert(self.waits@.subrange(0, i + 1).drop_last() =~= self.waits@.subrange(
                    0,
                    i as int,
                ));
                assert(self.waits@.subrange(0, i + 1).last() == w);
            }
            if w.termination() != Termination::WellFounded {
                failed = failed + 1;
            }
            match w.counter_fit() {
                CounterFit::Overruns { .. } => {
                    failed = failed + 1;
                },
                CounterFit::Fits { .. } => {},
            }
            standing = standing.join(w.cost_per_iter.provenance());
            i = i + 1;
        }
        proof {
            assert(self.waits@.subrange(0, i as int) =~= self.waits@);
        }
        Obligations { failed, standing }
    }
}

} // verus!
