//! Reading text as bytes.
//!
//! Every format this crate reads is line-oriented and its delimiters are ASCII,
//! so the text is handled as the bytes of a `str`. A piece of text is a range
//! `[lo, hi)` of one slice, and each reader here is stated over the piece as a
//! sequence of its own, so that the statements do not depend on where the piece
//! sits.
//!
//! White space is Unicode's, as `char::is_whitespace` has it: the ASCII set and
//! the wider characters of the `White_Space` property, matched by their UTF-8
//! encodings. A continuation byte never matches an ASCII delimiter or the first
//! byte of one of these encodings, so a match found by walking the bytes of a
//! `str` is always a whole character.
use vstd::prelude::*;
use vstd::string::StringSliceAdditionalSpecFns;
use vstd::utf8::{decode_utf8, valid_utf8};

verus! {

/// Tab, line feed, vertical tab, form feed, carriage return and space.
pub open spec fn ascii_space(b: u8) -> bool {
    b == 9 || b == 10 || b == 11 || b == 12 || b == 13 || b == 32
}

/// U+0085 and U+00A0, which encode in two bytes.
pub open spec fn wide_space2(a: u8, b: u8) -> bool {
    a == 0xC2 && (b == 0x85 || b == 0xA0)
}

/// U+1680, U+2000 to U+200A, U+2028, U+2029, U+202F, U+205F and U+3000, which
/// encode in three bytes.
pub open spec fn wide_space3(a: u8, b: u8, c: u8) -> bool {
    ||| a == 0xE1 && b == 0x9A && c == 0x80
    ||| a == 0xE2 && b == 0x80 && ((0x80 <= c && c <= 0x8A) || c == 0xA8 || c == 0xA9 || c == 0xAF)
    ||| a == 0xE2 && b == 0x81 && c == 0x9F
    ||| a == 0xE3 && b == 0x80 && c == 0x80
}

/// The width of the white-space character that starts at `i`, or zero.
pub open spec fn space_at(x: Seq<u8>, i: int) -> int {
    if 0 <= i && i < x.len() && ascii_space(x[i]) {
        1
    } else if 0 <= i && i + 1 < x.len() && wide_space2(x[i], x[i + 1]) {
        2
    } else if 0 <= i && i + 2 < x.len() && wide_space3(x[i], x[i + 1], x[i + 2]) {
        3
    } else {
        0
    }
}

/// The width of the white-space character that ends at `j` and starts no
/// earlier than `lo`, or zero.
pub open spec fn space_before(x: Seq<u8>, lo: int, j: int) -> int {
    if lo <= j - 1 && 0 <= j - 1 && j <= x.len() && ascii_space(x[j - 1]) {
        1
    } else if lo <= j - 2 && 0 <= j - 2 && j <= x.len() && wide_space2(x[j - 2], x[j - 1]) {
        2
    } else if lo <= j - 3 && 0 <= j - 3 && j <= x.len() && wide_space3(
        x[j - 3],
        x[j - 2],
        x[j - 1],
    ) {
        3
    } else {
        0
    }
}

/// Where the run of white space that starts at `i` ends.
pub open spec fn skip_spaces(x: Seq<u8>, i: int) -> int
    decreases x.len() - i,
{
    if 0 <= i && i < x.len() && space_at(x, i) > 0 {
        skip_spaces(x, i + space_at(x, i))
    } else {
        i
    }
}

/// Where the word that starts at `i` ends: at the first white space, or at
/// the end.
pub open spec fn word_end(x: Seq<u8>, i: int) -> int
    decreases x.len() - i,
{
    if 0 <= i && i < x.len() && space_at(x, i) == 0 {
        word_end(x, i + 1)
    } else {
        i
    }
}

/// Where the text that ends at `j` ends once its trailing white space is
/// dropped, going no further back than `lo`.
pub open spec fn back_spaces(x: Seq<u8>, lo: int, j: int) -> int
    decreases j,
{
    if j > 0 && space_before(x, lo, j) > 0 {
        back_spaces(x, lo, j - space_before(x, lo, j))
    } else {
        j
    }
}

/// The first position at or after `i` holding `d`, or the end.
pub open spec fn scan(x: Seq<u8>, d: u8, i: int) -> int
    decreases x.len() - i,
{
    if 0 <= i && i < x.len() && x[i] != d {
        scan(x, d, i + 1)
    } else {
        i
    }
}

/// The first position at or after `i` where `a` is followed by `b`, or the end.
pub open spec fn scan_pair(x: Seq<u8>, a: u8, b: u8, i: int) -> int
    decreases x.len() - i,
{
    if 0 <= i && i + 1 < x.len() && !(x[i] == a && x[i + 1] == b) {
        scan_pair(x, a, b, i + 1)
    } else if 0 <= i && i + 1 < x.len() {
        i
    } else {
        x.len() as int
    }
}

/// The text with the white space at both ends dropped, as `str::trim` does.
pub open spec fn trim(x: Seq<u8>) -> Seq<u8> {
    let a = skip_spaces(x, 0);
    x.subrange(a, back_spaces(x, a, x.len() as int))
}

/// The text before the first `d`, as `split(d).next()` gives it.
pub open spec fn before(x: Seq<u8>, d: u8) -> Seq<u8> {
    x.subrange(0, scan(x, d, 0))
}

/// Whether `x` opens with `p`.
pub open spec fn opens_with(x: Seq<u8>, p: Seq<u8>) -> bool {
    x.len() >= p.len() && x.subrange(0, p.len() as int) == p
}

pub proof fn lemma_skip_spaces_bounds(x: Seq<u8>, i: int)
    requires
        0 <= i <= x.len(),
    ensures
        i <= skip_spaces(x, i) <= x.len(),
        skip_spaces(x, i) < x.len() ==> space_at(x, skip_spaces(x, i)) == 0,
    decreases x.len() - i,
{
    if 0 <= i && i < x.len() && space_at(x, i) > 0 {
        lemma_skip_spaces_bounds(x, i + space_at(x, i));
    }
}

pub proof fn lemma_word_end_bounds(x: Seq<u8>, i: int)
    requires
        0 <= i <= x.len(),
    ensures
        i <= word_end(x, i) <= x.len(),
        i < x.len() && space_at(x, i) == 0 ==> i < word_end(x, i),
    decreases x.len() - i,
{
    if 0 <= i && i < x.len() && space_at(x, i) == 0 {
        lemma_word_end_bounds(x, i + 1);
    }
}

pub proof fn lemma_back_spaces_bounds(x: Seq<u8>, lo: int, j: int)
    requires
        0 <= lo <= j <= x.len(),
    ensures
        lo <= back_spaces(x, lo, j) <= j,
    decreases j,
{
    if j > 0 && space_before(x, lo, j) > 0 {
        lemma_back_spaces_bounds(x, lo, j - space_before(x, lo, j));
    }
}

pub proof fn lemma_scan_bounds(x: Seq<u8>, d: u8, i: int)
    requires
        0 <= i <= x.len(),
    ensures
        i <= scan(x, d, i) <= x.len(),
        scan(x, d, i) < x.len() ==> x[scan(x, d, i)] == d,
        forall|k: int| i <= k < scan(x, d, i) ==> x[k] != d,
    decreases x.len() - i,
{
    if 0 <= i && i < x.len() && x[i] != d {
        lemma_scan_bounds(x, d, i + 1);
    }
}

/// The width of the white-space character at `i` in `s[lo..hi]`.
pub fn space_width(s: &[u8], lo: usize, i: usize, hi: usize) -> (r: usize)
    requires
        lo <= i <= hi <= s@.len(),
    ensures
        r == space_at(s@.subrange(lo as int, hi as int), i - lo),
        r <= 3,
        i + r <= hi,
{
    let ghost x = s@.subrange(lo as int, hi as int);
    if i < hi {
        let a = s[i];
        if a == 9 || a == 10 || a == 11 || a == 12 || a == 13 || a == 32 {
            return 1;
        }
        if i + 1 < hi {
            let b = s[i + 1];
            if a == 0xC2 && (b == 0x85 || b == 0xA0) {
                return 2;
            }
            if i + 2 < hi {
                let c = s[i + 2];
                if (a == 0xE1 && b == 0x9A && c == 0x80) || (a == 0xE2 && b == 0x80 && ((0x80
                    <= c && c <= 0x8A) || c == 0xA8 || c == 0xA9 || c == 0xAF)) || (a == 0xE2
                    && b == 0x81 && c == 0x9F) || (a == 0xE3 && b == 0x80 && c == 0x80) {
                    return 3;
                }
            }
        }
    }
    0
}

/// The width of the white-space character that ends at `j` in `s[lo..hi]`,
/// starting no earlier than `from`.
pub fn space_width_before(s: &[u8], lo: usize, from: usize, j: usize, hi: usize) -> (r: usize)
    requires
        lo <= from <= j <= hi <= s@.len(),
    ensures
        r == space_before(s@.subrange(lo as int, hi as int), from - lo, j - lo),
        r <= j - from,
{
    let ghost x = s@.subrange(lo as int, hi as int);
    if j - from >= 1 {
        let c = s[j - 1];
        if c == 9 || c == 10 || c == 11 || c == 12 || c == 13 || c == 32 {
            return 1;
        }
        if j - from >= 2 {
            let b = s[j - 2];
            if b == 0xC2 && (c == 0x85 || c == 0xA0) {
                return 2;
            }
            if j - from >= 3 {
                let a = s[j - 3];
                if (a == 0xE1 && b == 0x9A && c == 0x80) || (a == 0xE2 && b == 0x80 && ((0x80
                    <= c && c <= 0x8A) || c == 0xA8 || c == 0xA9 || c == 0xAF)) || (a == 0xE2
                    && b == 0x81 && c == 0x9F) || (a == 0xE3 && b == 0x80 && c == 0x80) {
                    return 3;
                }
            }
        }
    }
    0
}

/// Past the white space that starts at `i` in `s[lo..hi]`.
pub fn skip_spaces_in(s: &[u8], lo: usize, i: usize, hi: usize) -> (r: usize)
    requires
        lo <= i <= hi <= s@.len(),
    ensures
        r == lo + skip_spaces(s@.subrange(lo as int, hi as int), i - lo),
        i <= r <= hi,
{
    let ghost x = s@.subrange(lo as int, hi as int);
    let mut k = i;
    while k < hi
        invariant
            lo <= i <= k <= hi <= s@.len(),
            x == s@.subrange(lo as int, hi as int),
            skip_spaces(x, k - lo) == skip_spaces(x, i - lo),
        ensures
            i <= k <= hi,
            skip_spaces(x, k - lo) == skip_spaces(x, i - lo),
            k < hi ==> space_at(x, k - lo) == 0,
        decreases hi - k,
    {
        let w = space_width(s, lo, k, hi);
        if w == 0 {
            break;
        }
        proof {
            lemma_skip_spaces_bounds(x, k - lo);
        }
        k = k + w;
    }
    proof {
        lemma_skip_spaces_bounds(x, k - lo);
    }
    k
}

/// The end of the word that starts at `i` in `s[lo..hi]`.
pub fn word_end_in(s: &[u8], lo: usize, i: usize, hi: usize) -> (r: usize)
    requires
        lo <= i <= hi <= s@.len(),
    ensures
        r == lo + word_end(s@.subrange(lo as int, hi as int), i - lo),
        i <= r <= hi,
{
    let ghost x = s@.subrange(lo as int, hi as int);
    let mut k = i;
    while k < hi
        invariant
            lo <= i <= k <= hi <= s@.len(),
            x == s@.subrange(lo as int, hi as int),
            word_end(x, k - lo) == word_end(x, i - lo),
        ensures
            i <= k <= hi,
            word_end(x, k - lo) == word_end(x, i - lo),
            k < hi ==> space_at(x, k - lo) != 0,
        decreases hi - k,
    {
        let w = space_width(s, lo, k, hi);
        if w != 0 {
            break;
        }
        k = k + 1;
    }
    k
}

/// Where `s[lo..j]` ends once its trailing white space is dropped, going no
/// further back than `from`.
pub fn back_spaces_in(s: &[u8], lo: usize, from: usize, j: usize, hi: usize) -> (r: usize)
    requires
        lo <= from <= j <= hi <= s@.len(),
    ensures
        r == lo + back_spaces(s@.subrange(lo as int, hi as int), from - lo, j - lo),
        from <= r <= j,
{
    let ghost x = s@.subrange(lo as int, hi as int);
    let mut k = j;
    while k > from
        invariant
            lo <= from <= k <= j <= hi <= s@.len(),
            x == s@.subrange(lo as int, hi as int),
            back_spaces(x, from - lo, k - lo) == back_spaces(x, from - lo, j - lo),
        ensures
            from <= k <= j,
            back_spaces(x, from - lo, k - lo) == back_spaces(x, from - lo, j - lo),
            k > from ==> space_before(x, from - lo, k - lo) == 0,
        decreases k,
    {
        let w = space_width_before(s, lo, from, k, hi);
        if w == 0 {
            break;
        }
        k = k - w;
    }
    proof {
        if k == from {
            assert(space_before(x, from - lo, k - lo) == 0);
        }
    }
    k
}

/// The first position at or after `i` in `s[lo..hi]` holding `d`, or `hi`.
pub fn scan_in(s: &[u8], d: u8, lo: usize, i: usize, hi: usize) -> (r: usize)
    requires
        lo <= i <= hi <= s@.len(),
    ensures
        r == lo + scan(s@.subrange(lo as int, hi as int), d, i - lo),
        i <= r <= hi,
{
    let ghost x = s@.subrange(lo as int, hi as int);
    let mut k = i;
    while k < hi
        invariant
            lo <= i <= k <= hi <= s@.len(),
            x == s@.subrange(lo as int, hi as int),
            scan(x, d, k - lo) == scan(x, d, i - lo),
        ensures
            i <= k <= hi,
            scan(x, d, k - lo) == scan(x, d, i - lo),
            k < hi ==> s@[k as int] == d,
        decreases hi - k,
    {
        if s[k] == d {
            break;
        }
        k = k + 1;
    }
    k
}

/// The first position at or after `i` in `s[lo..hi]` where `a` is followed by
/// `b`, or `hi`.
pub fn scan_pair_in(s: &[u8], a: u8, b: u8, lo: usize, i: usize, hi: usize) -> (r: usize)
    requires
        lo <= i <= hi <= s@.len(),
    ensures
        r == lo + scan_pair(s@.subrange(lo as int, hi as int), a, b, i - lo),
        i <= r <= hi,
        r < hi ==> r + 1 < hi,
{
    let ghost x = s@.subrange(lo as int, hi as int);
    let mut k = i;
    while k < hi && hi - k > 1
        invariant
            lo <= i <= k <= hi <= s@.len(),
            x == s@.subrange(lo as int, hi as int),
            scan_pair(x, a, b, k - lo) == scan_pair(x, a, b, i - lo),
        decreases hi - k,
    {
        if s[k] == a && s[k + 1] == b {
            return k;
        }
        k = k + 1;
    }
    hi
}

/// Whether `s[lo..hi]` is exactly `w`.
pub fn bytes_are(s: &[u8], lo: usize, hi: usize, w: &[u8]) -> (r: bool)
    requires
        lo <= hi <= s@.len(),
    ensures
        r == (s@.subrange(lo as int, hi as int) == w@),
{
    if hi - lo != w.len() {
        proof {
            assert(s@.subrange(lo as int, hi as int).len() != w@.len());
        }
        return false;
    }
    let mut k: usize = 0;
    while k < w.len()
        invariant
            lo <= hi <= s@.len(),
            hi - lo == w@.len(),
            0 <= k <= w@.len(),
            forall|m: int| 0 <= m < k ==> s@[lo + m] == w@[m],
        decreases w@.len() - k,
    {
        if s[lo + k] != w[k] {
            proof {
                assert(s@.subrange(lo as int, hi as int)[k as int] != w@[k as int]);
            }
            return false;
        }
        k = k + 1;
    }
    proof {
        assert(s@.subrange(lo as int, hi as int) =~= w@);
    }
    true
}

/// Whether `s[lo..hi]` is exactly the text `w`.
pub fn is_word(s: &[u8], lo: usize, hi: usize, w: &str) -> (r: bool)
    requires
        lo <= hi <= s@.len(),
    ensures
        r == (s@.subrange(lo as int, hi as int) == w.spec_bytes()),
{
    bytes_are(s, lo, hi, w.as_bytes())
}

/// Whether `s[lo..hi]` opens with the text `p`.
pub fn opens_with_in(s: &[u8], lo: usize, hi: usize, p: &str) -> (r: bool)
    requires
        lo <= hi <= s@.len(),
    ensures
        r == opens_with(s@.subrange(lo as int, hi as int), p.spec_bytes()),
{
    let pb = p.as_bytes();
    if hi - lo < pb.len() {
        return false;
    }
    let r = bytes_are(s, lo, lo + pb.len(), pb);
    proof {
        assert(s@.subrange(lo as int, hi as int).subrange(0, pb@.len() as int) =~= s@.subrange(
            lo as int,
            lo + pb@.len(),
        ));
    }
    r
}

/// What `String::from_utf8_lossy` makes of some bytes.
pub uninterp spec fn lossy_text(bytes: Seq<u8>) -> Seq<char>;

/// `s[lo..hi]` as text, through `String::from_utf8_lossy`.
///
/// Its documentation says that bytes which are valid UTF-8 come back as the
/// text they encode, and that each invalid sequence is replaced by U+FFFD.
/// The first is stated here; what the replacement gives is left to the name.
#[verifier::external_body]
pub(crate) fn text_of(s: &[u8], lo: usize, hi: usize) -> (r: String)
    requires
        lo <= hi <= s@.len(),
    ensures
        r@ == lossy_text(s@.subrange(lo as int, hi as int)),
        valid_utf8(s@.subrange(lo as int, hi as int)) ==> r@ == decode_utf8(
            s@.subrange(lo as int, hi as int),
        ),
{
    String::from_utf8_lossy(&s[lo..hi]).into_owned()
}

} // verus!
