//! Just enough ELF to find the functions in an image.
//!
//! Parsing an object file is bounded work against a published layout, which is
//! why it is done here: decoding instructions is architecture-specific and
//! unbounded, and is left to a disassembler.
//!
//! Every field is read with a bounds check and every offset is validated before
//! use, because the input is a binary somebody else built, and a census that
//! panicked on a malformed image would be worse than one that declined. The
//! offsets are held as plain integers, so none of them can wrap.
use vstd::prelude::*;
use crate::text::{lemma_scan_bounds, lossy_text, scan, scan_in, text_of};

verus! {

/// Why an image could not be read.
#[derive(Clone, Copy, PartialEq, Eq, Structural, Debug)]
pub enum NotAnImage {
    /// The magic number says this is something else.
    WrongMagic,
    /// Only 64-bit little-endian images are read. A big-endian or 32-bit part
    /// is a real case and simply is not handled yet.
    Unsupported,
    /// A header, table or name ran past the end of the file.
    Truncated,
}

/// A function the image declares.
#[derive(Clone, PartialEq, Eq, Debug)]
pub struct Function {
    pub name: String,
    pub size: u64,
}

/// A function as its name and its size.
pub struct FunctionView {
    pub name: Seq<char>,
    pub size: u64,
}

impl View for Function {
    type V = FunctionView;

    open spec fn view(&self) -> FunctionView {
        FunctionView { name: self.name@, size: self.size }
    }
}

/// The views of a list of functions.
pub open spec fn function_views(fs: Seq<Function>) -> Seq<FunctionView> {
    fs.map_values(|f: Function| f@)
}

/// The byte at `p`, where there is one.
pub open spec fn read_u8(b: Seq<u8>, p: int) -> Option<int> {
    if 0 <= p && p < b.len() {
        Some(b[p] as int)
    } else {
        None
    }
}

/// The little-endian 16-bit value at `p`, where the image holds one.
pub open spec fn read_u16(b: Seq<u8>, p: int) -> Option<int> {
    if 0 <= p && p + 2 <= b.len() {
        Some(b[p] + 0x100 * b[p + 1])
    } else {
        None
    }
}

/// The little-endian 32-bit value at `p`, where the image holds one.
pub open spec fn read_u32(b: Seq<u8>, p: int) -> Option<int> {
    if 0 <= p && p + 4 <= b.len() {
        Some(b[p] + 0x100 * b[p + 1] + 0x1_0000 * b[p + 2] + 0x100_0000 * b[p + 3])
    } else {
        None
    }
}

/// The little-endian 64-bit value at `p`, where the image holds one.
pub open spec fn read_u64(b: Seq<u8>, p: int) -> Option<int> {
    if 0 <= p && p + 8 <= b.len() {
        Some(
            b[p] + 0x100 * b[p + 1] + 0x1_0000 * b[p + 2] + 0x100_0000 * b[p + 3] + 0x1_0000_0000
                * b[p + 4] + 0x100_0000_0000 * b[p + 5] + 0x1_0000_0000_0000 * b[p + 6]
                + 0x100_0000_0000_0000 * b[p + 7],
        )
    } else {
        None
    }
}

/// A section header: its kind, where its contents sit, how large they are,
/// the section it links to, and the size of one entry.
pub struct SectionHeader {
    pub kind: int,
    pub offset: int,
    pub size: int,
    pub link: int,
    pub entsize: int,
}

/// Section header `i` of a table at `shoff` whose entries are `shentsize`
/// bytes apart, where the image holds all of it.
pub open spec fn section_of(b: Seq<u8>, shoff: int, shentsize: int, i: int) -> Option<
    SectionHeader,
> {
    let at = shoff + i * shentsize;
    let kind = read_u32(b, at + 4);
    let offset = read_u64(b, at + 0x18);
    let size = read_u64(b, at + 0x20);
    let link = read_u32(b, at + 0x28);
    let entsize = read_u64(b, at + 0x38);
    if kind is Some && offset is Some && size is Some && link is Some && entsize is Some {
        Some(
            SectionHeader {
                kind: kind->Some_0,
                offset: offset->Some_0,
                size: size->Some_0,
                link: link->Some_0,
                entsize: entsize->Some_0,
            },
        )
    } else {
        None
    }
}

/// What one symbol table entry gives.
pub enum SymbolRead {
    /// A function with a name, by the bytes of its name, and its size.
    Function(Seq<u8>, int),
    /// Something other than a named function.
    Other,
    /// The entry or its name runs past the end of the image.
    Truncated,
}

/// Symbol `k` of a table at `offset` with entries `entsize` apart, its names
/// in the string table at `strings`.
pub open spec fn symbol_of(b: Seq<u8>, offset: int, entsize: int, strings: int, k: int) -> SymbolRead {
    let at = offset + k * entsize;
    match read_u8(b, at + 4) {
        None => SymbolRead::Truncated,
        Some(info) => if info % 16 != 2 {
            SymbolRead::Other
        } else {
            match read_u32(b, at) {
                None => SymbolRead::Truncated,
                Some(name_at) => {
                    let start = strings + name_at;
                    if start > b.len() {
                        SymbolRead::Truncated
                    } else {
                        let rest = b.subrange(start, b.len() as int);
                        let name = rest.subrange(0, scan(rest, 0u8, 0));
                        if name.len() == 0 {
                            SymbolRead::Other
                        } else {
                            match read_u64(b, at + 0x10) {
                                None => SymbolRead::Truncated,
                                Some(size) => SymbolRead::Function(name, size),
                            }
                        }
                    }
                },
            }
        },
    }
}

/// `pre` placed before a list, where there is one.
pub open spec fn prepend(pre: Seq<FunctionView>, r: Result<Seq<FunctionView>, NotAnImage>) -> Result<
    Seq<FunctionView>,
    NotAnImage,
> {
    match r {
        Ok(rest) => Ok(pre + rest),
        Err(e) => Err(e),
    }
}

/// The functions among symbols `k` to `n` of a table.
pub open spec fn symbols_from(
    b: Seq<u8>,
    offset: int,
    entsize: int,
    strings: int,
    n: int,
    k: int,
) -> Result<Seq<FunctionView>, NotAnImage>
    decreases n - k,
{
    if 0 <= k && k < n {
        let rest = symbols_from(b, offset, entsize, strings, n, k + 1);
        match symbol_of(b, offset, entsize, strings, k) {
            SymbolRead::Truncated => Err(NotAnImage::Truncated),
            SymbolRead::Other => rest,
            SymbolRead::Function(name, size) => prepend(
                seq![FunctionView { name: lossy_text(name), size: size as u64 }],
                rest,
            ),
        }
    } else {
        Ok(seq![])
    }
}

/// The functions that section `i` declares, where it is a symbol table.
#[verifier::opaque]
pub open spec fn section_functions(b: Seq<u8>, shoff: int, shentsize: int, i: int) -> Result<
    Seq<FunctionView>,
    NotAnImage,
> {
    match section_of(b, shoff, shentsize, i) {
        None => Err(NotAnImage::Truncated),
        Some(sec) => if sec.kind != 2 || sec.entsize == 0 {
            Ok(seq![])
        } else {
            match section_of(b, shoff, shentsize, sec.link) {
                None => Err(NotAnImage::Truncated),
                Some(strs) => if strs.kind != 3 {
                    Err(NotAnImage::Truncated)
                } else {
                    symbols_from(
                        b,
                        sec.offset,
                        sec.entsize,
                        strs.offset,
                        sec.size / sec.entsize,
                        0,
                    )
                },
            }
        },
    }
}

/// The functions the symbol tables among sections `i` to `shnum` declare.
pub open spec fn sections_from(b: Seq<u8>, shoff: int, shentsize: int, shnum: int, i: int) -> Result<
    Seq<FunctionView>,
    NotAnImage,
>
    decreases shnum - i,
{
    if 0 <= i && i < shnum {
        match section_functions(b, shoff, shentsize, i) {
            Err(e) => Err(e),
            Ok(found) => prepend(found, sections_from(b, shoff, shentsize, shnum, i + 1)),
        }
    } else {
        Ok(seq![])
    }
}

/// Every function symbol an image declares, in the order its tables hold them.
pub open spec fn functions_of(b: Seq<u8>) -> Result<Seq<FunctionView>, NotAnImage> {
    if b.len() < 4 || b.subrange(0, 4) != seq![0x7fu8, 0x45u8, 0x4cu8, 0x46u8] {
        Err(NotAnImage::WrongMagic)
    } else if read_u8(b, 4) != Some(2int) || read_u8(b, 5) != Some(1int) {
        Err(NotAnImage::Unsupported)
    } else {
        let shoff = read_u64(b, 0x28);
        let shentsize = read_u16(b, 0x3a);
        let shnum = read_u16(b, 0x3c);
        if shoff is None || shentsize is None || shnum is None {
            Err(NotAnImage::Truncated)
        } else {
            sections_from(b, shoff->Some_0, shentsize->Some_0, shnum->Some_0, 0)
        }
    }
}

/// The 16-bit value at `p`, where the image holds one.
fn u16_at(b: &[u8], p: u128) -> (r: Option<u128>)
    ensures
        match read_u16(b@, p as int) {
            Some(v) => r == Some(v as u128),
            None => r is None,
        },
{
    if p > b.len() as u128 || b.len() as u128 - p < 2 {
        return None;
    }
    let q = p as usize;
    Some(b[q] as u128 + 0x100 * b[q + 1] as u128)
}

/// The 32-bit value at `p`, where the image holds one.
fn u32_at(b: &[u8], p: u128) -> (r: Option<u128>)
    ensures
        match read_u32(b@, p as int) {
            Some(v) => r == Some(v as u128),
            None => r is None,
        },
{
    if p > b.len() as u128 || b.len() as u128 - p < 4 {
        return None;
    }
    let q = p as usize;
    Some(
        b[q] as u128 + 0x100 * b[q + 1] as u128 + 0x1_0000 * b[q + 2] as u128 + 0x100_0000 * b[q
            + 3] as u128,
    )
}

/// The 64-bit value at `p`, where the image holds one.
fn u64_at(b: &[u8], p: u128) -> (r: Option<u128>)
    ensures
        match read_u64(b@, p as int) {
            Some(v) => r == Some(v as u128) && v <= u64::MAX,
            None => r is None,
        },
{
    if p > b.len() as u128 || b.len() as u128 - p < 8 {
        return None;
    }
    let q = p as usize;
    Some(
        b[q] as u128 + 0x100 * b[q + 1] as u128 + 0x1_0000 * b[q + 2] as u128 + 0x100_0000 * b[q
            + 3] as u128 + 0x1_0000_0000 * b[q + 4] as u128 + 0x100_0000_0000 * b[q + 5] as u128
            + 0x1_0000_0000_0000 * b[q + 6] as u128 + 0x100_0000_0000_0000 * b[q + 7] as u128,
    )
}

/// The section header at position `at`.
fn section_at(b: &[u8], at: u128) -> (r: Option<(u128, u128, u128, u128, u128)>)
    requires
        at <= 0x1_0000_0000_0000_0000_0000,
    ensures
        match section_of(b@, at as int, 0, 0) {
            Some(sec) => r == Some(
                (
                    sec.kind as u128,
                    sec.offset as u128,
                    sec.size as u128,
                    sec.link as u128,
                    sec.entsize as u128,
                ),
            ) && sec.offset <= u64::MAX && sec.size <= u64::MAX && sec.entsize <= u64::MAX
                && sec.link <= u32::MAX,
            None => r is None,
        },
{
    let kind = u32_at(b, at + 4);
    let offset = u64_at(b, at + 0x18);
    let size = u64_at(b, at + 0x20);
    let link = u32_at(b, at + 0x28);
    let entsize = u64_at(b, at + 0x38);
    match (kind, offset, size, link, entsize) {
        (Some(k), Some(o), Some(s), Some(l), Some(e)) => Some((k, o, s, l, e)),
        _ => None,
    }
}

/// Read the functions among the `n` symbols of a table into `out`.
fn symbols_in(
    b: &[u8],
    offset: u128,
    entsize: u128,
    strings: u128,
    size: u128,
    out: &mut Vec<Function>,
) -> (r: Result<(), NotAnImage>)
    requires
        offset <= u64::MAX,
        strings <= u64::MAX,
        size <= u64::MAX,
        0 < entsize <= u64::MAX,
    ensures
        match symbols_from(b@, offset as int, entsize as int, strings as int, (size / entsize) as int, 0) {
            Ok(found) => r is Ok && function_views(final(out)@) == function_views(old(out)@)
                + found,
            Err(e) => r == Err::<(), NotAnImage>(e),
        },
{
    let n = size / entsize;
    let ghost base = function_views(out@);
    let ghost whole = symbols_from(b@, offset as int, entsize as int, strings as int, n as int, 0);
    let mut k: u128 = 0;
    proof {
        assert(base + Seq::<FunctionView>::empty() =~= base);
        assert(function_views(out@) =~= base + Seq::<FunctionView>::empty());
        match whole {
            Ok(found) => {
                assert(Seq::<FunctionView>::empty() + found =~= found);
            },
            Err(_) => {},
        }
    }
    while k < n
        invariant
            0 <= k <= n,
            n == size / entsize,
            0 < entsize <= u64::MAX,
            offset <= u64::MAX,
            strings <= u64::MAX,
            size <= u64::MAX,
            whole == symbols_from(b@, offset as int, entsize as int, strings as int, n as int, 0),
            function_views(out@).len() >= base.len(),
            function_views(out@).subrange(0, base.len() as int) == base,
            whole == prepend(
                function_views(out@).subrange(base.len() as int, function_views(out@).len() as int),
                symbols_from(b@, offset as int, entsize as int, strings as int, n as int, k as int),
            ),
        decreases n - k,
    {
        proof {
            assert(k * entsize < size) by (nonlinear_arith)
                requires
                    k < n,
                    n == size / entsize,
                    entsize > 0,
            ;
        }
        let at = offset + k * entsize;
        let ghost rest = symbols_from(
            b@,
            offset as int,
            entsize as int,
            strings as int,
            n as int,
            k + 1,
        );
        let ghost now = function_views(out@);
        let info = if at + 4 < b.len() as u128 {
            b[(at + 4) as usize]
        } else {
            return Err(NotAnImage::Truncated);
        };
        if info % 16 == 2 {
            let name_at = match u32_at(b, at) {
                Some(v) => v,
                None => return Err(NotAnImage::Truncated),
            };
            let start = strings + name_at;
            if start > b.len() as u128 {
                return Err(NotAnImage::Truncated);
            }
            let st = start as usize;
            let end = scan_in(b, 0u8, st, st, b.len());
            proof {
                let whole_rest = b@.subrange(st as int, b@.len() as int);
                assert(whole_rest.subrange(0, end - st) =~= b@.subrange(st as int, end as int));
            }
            if end > st {
                let size_here = match u64_at(b, at + 0x10) {
                    Some(v) => v,
                    None => return Err(NotAnImage::Truncated),
                };
                let name = text_of(b, st, end);
                let f = Function { name, size: size_here as u64 };
                out.push(f);
                proof {
                    let fv = FunctionView { name: lossy_text(b@.subrange(st as int, end as int)), size: size_here as u64 };
                    assert(function_views(out@) =~= now.push(fv));
                    assert(function_views(out@).subrange(0, base.len() as int) =~= now.subrange(0, base.len() as int));
                    let added = now.subrange(base.len() as int, now.len() as int);
                    assert(function_views(out@).subrange(base.len() as int, function_views(out@).len() as int) =~= added.push(fv));
                    match rest {
                        Ok(tail) => {
                            assert(added + (seq![fv] + tail) =~= added.push(fv) + tail);
                        },
                        Err(_) => {},
                    }
                }
            }
        }
        k = k + 1;
    }
    proof {
        assert(function_views(out@) =~= base + function_views(out@).subrange(base.len() as int, function_views(out@).len() as int));
        match whole {
            Ok(found) => {
                assert(function_views(out@).subrange(base.len() as int, function_views(out@).len() as int) + Seq::<FunctionView>::empty() =~= function_views(out@).subrange(base.len() as int, function_views(out@).len() as int));
            },
            Err(_) => {},
        }
    }
    Ok(())
}

/// Read the functions that section `i` declares into `out`.
fn section_in(b: &[u8], shoff: u128, shentsize: u128, i: u128, out: &mut Vec<Function>) -> (r: Result<
    (),
    NotAnImage,
>)
    requires
        i < 0x1_0000,
        shentsize < 0x1_0000,
        shoff <= u64::MAX,
    ensures
        match section_functions(b@, shoff as int, shentsize as int, i as int) {
            Ok(found) => r is Ok && function_views(final(out)@) == function_views(old(out)@)
                + found,
            Err(e) => r == Err::<(), NotAnImage>(e),
        },
{
    proof {
        reveal(section_functions);
        assert(i * shentsize < 0x1_0000_0000) by (nonlinear_arith)
            requires
                i < 0x1_0000,
                shentsize < 0x1_0000,
        ;
    }
    let at = shoff + i * shentsize;
    proof {
        assert(section_of(b@, at as int, 0, 0) == section_of(
            b@,
            shoff as int,
            shentsize as int,
            i as int,
        ));
    }
    let (kind, offset, size, link, entsize) = match section_at(b, at) {
        Some(sec) => sec,
        None => return Err(NotAnImage::Truncated),
    };
    if kind != 2 || entsize == 0 {
        proof {
            assert(function_views(out@) + Seq::<FunctionView>::empty() =~= function_views(out@));
        }
        return Ok(());
    }
    proof {
        assert(link * shentsize <= 0xFFFF_FFFF * 0xFFFF) by (nonlinear_arith)
            requires
                link <= 0xFFFF_FFFF,
                shentsize < 0x1_0000,
        ;
    }
    let strs_at = shoff + link * shentsize;
    proof {
        assert(section_of(b@, strs_at as int, 0, 0) == section_of(
            b@,
            shoff as int,
            shentsize as int,
            link as int,
        ));
    }
    let (strkind, stroff, _, _, _) = match section_at(b, strs_at) {
        Some(sec) => sec,
        None => return Err(NotAnImage::Truncated),
    };
    if strkind != 3 {
        return Err(NotAnImage::Truncated);
    }
    symbols_in(b, offset, entsize, stroff, size, out)
}

/// Every function symbol the image declares, in the order the table holds them.
///
/// This is a list of candidates rather than a census of waits. Finding the
/// polling loops inside these functions needs a disassembler.
pub fn functions(image: &[u8]) -> (r: Result<Vec<Function>, NotAnImage>)
    ensures
        match functions_of(image@) {
            Ok(found) => r matches Ok(v) && function_views(v@) == found,
            Err(e) => r == Err::<Vec<Function>, NotAnImage>(e),
        },
{
    if image.len() < 4 || image[0] != 0x7f || image[1] != 0x45 || image[2] != 0x4c || image[3]
        != 0x46 {
        proof {
            if image@.len() >= 4 && image@.subrange(0, 4) == seq![0x7fu8, 0x45u8, 0x4cu8, 0x46u8] {
                assert(image@.subrange(0, 4)[0] == image@[0]);
                assert(image@.subrange(0, 4)[1] == image@[1]);
                assert(image@.subrange(0, 4)[2] == image@[2]);
                assert(image@.subrange(0, 4)[3] == image@[3]);
            }
        }
        return Err(NotAnImage::WrongMagic);
    }
    proof {
        assert(image@.subrange(0, 4) =~= seq![0x7fu8, 0x45u8, 0x4cu8, 0x46u8]);
    }
    if image.len() < 6 || image[4] != 2 || image[5] != 1 {
        return Err(NotAnImage::Unsupported);
    }
    let shoff = match u64_at(image, 0x28) {
        Some(v) => v,
        None => return Err(NotAnImage::Truncated),
    };
    let shentsize = match u16_at(image, 0x3a) {
        Some(v) => v,
        None => return Err(NotAnImage::Truncated),
    };
    let shnum = match u16_at(image, 0x3c) {
        Some(v) => v,
        None => return Err(NotAnImage::Truncated),
    };
    let ghost whole = sections_from(image@, shoff as int, shentsize as int, shnum as int, 0);
    proof {
        assert(functions_of(image@) == whole);
    }
    let mut out: Vec<Function> = Vec::new();
    let mut i: u128 = 0;
    proof {
        assert(function_views(out@) =~= Seq::<FunctionView>::empty());
        match whole {
            Ok(found) => {
                assert(Seq::<FunctionView>::empty() + found =~= found);
            },
            Err(_) => {},
        }
    }
    while i < shnum
        invariant
            0 <= i <= shnum,
            shnum < 0x1_0000,
            shentsize < 0x1_0000,
            shoff <= u64::MAX,
            whole == sections_from(image@, shoff as int, shentsize as int, shnum as int, 0),
            functions_of(image@) == whole,
            whole == prepend(
                function_views(out@),
                sections_from(image@, shoff as int, shentsize as int, shnum as int, i as int),
            ),
        decreases shnum - i,
    {
        let ghost rest = sections_from(
            image@,
            shoff as int,
            shentsize as int,
            shnum as int,
            i + 1,
        );
        let ghost now = function_views(out@);
        match section_in(image, shoff, shentsize, i, &mut out) {
            Ok(()) => {},
            Err(e) => return Err(e),
        }
        proof {
            let found = section_functions(image@, shoff as int, shentsize as int, i as int)->Ok_0;
            assert(function_views(out@) == now + found);
            match rest {
                Ok(tail) => {
                    assert(now + (found + tail) =~= function_views(out@) + tail);
                },
                Err(_) => {},
            }
        }
        i = i + 1;
    }
    proof {
        assert(function_views(out@) + Seq::<FunctionView>::empty() =~= function_views(out@));
    }
    Ok(out)
}

/// The positions from `i` on of the functions at least `min_size` bytes long.
pub open spec fn sized_from(fs: Seq<FunctionView>, min_size: u64, i: int) -> Seq<int>
    decreases fs.len() - i,
{
    if 0 <= i && i < fs.len() {
        if fs[i].size >= min_size {
            seq![i] + sized_from(fs, min_size, i + 1)
        } else {
            sized_from(fs, min_size, i + 1)
        }
    } else {
        seq![]
    }
}

/// The positions of the functions at least `min_size` bytes long, in order:
/// the candidates worth a look.
pub fn candidates(found: &Vec<Function>, min_size: u64) -> (r: Vec<usize>)
    ensures
        r@.map_values(|k: usize| k as int) == sized_from(function_views(found@), min_size, 0),
{
    let ghost fv = function_views(found@);
    let mut out: Vec<usize> = Vec::new();
    let mut i: usize = 0;
    proof {
        assert(out@.map_values(|k: usize| k as int) + sized_from(fv, min_size, 0) =~= sized_from(
            fv,
            min_size,
            0,
        ));
    }
    while i < found.len()
        invariant
            0 <= i <= found@.len(),
            fv == function_views(found@),
            out@.map_values(|k: usize| k as int) + sized_from(fv, min_size, i as int) == sized_from(
                fv,
                min_size,
                0,
            ),
        decreases found@.len() - i,
    {
        let ghost before = out@.map_values(|k: usize| k as int);
        proof {
            assert(fv[i as int].size == found@[i as int].size);
        }
        if found[i].size >= min_size {
            out.push(i);
            proof {
                assert(out@.map_values(|k: usize| k as int) =~= before.push(i as int));
                assert(before + (seq![i as int] + sized_from(fv, min_size, i + 1)) =~= before.push(
                    i as int,
                ) + sized_from(fv, min_size, i + 1));
            }
        }
        i = i + 1;
    }
    proof {
        assert(out@.map_values(|k: usize| k as int) + Seq::<int>::empty() =~= out@.map_values(
            |k: usize| k as int,
        ));
    }
    out
}

} // verus!
