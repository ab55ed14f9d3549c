//! Reading a container from bytes.

use crate::arch::Architecture;
use crate::error::ArfError;
use crate::format::views;
use crate::format::ArfFile;
use crate::format::Fix;
use crate::format::FixView;
use crate::format::Header;
use crate::format::Library;
use crate::format::LibraryView;
use crate::format::Request;
use crate::format::Section;
use crate::format::SectionView;
use crate::format::Symbol;
use crate::format::SymbolView;
use crate::format::LIB_RESOLVED;
use crate::format::canonical_tag;
use crate::laws::lemma_parsed_wf;
use crate::laws::lemma_read_then_written;
use crate::text::copy_range;
use crate::text::find_byte;
use crate::text::string_from_utf8;
use crate::wire::{
    emit, parse, parse_arch, parse_fix, parse_fixes, parse_header, parse_libraries,
    parse_library, parse_many, parse_name, parse_section, parse_sections, parse_symbol,
    parse_symbols, parse_tail, parse_u32, parse_u8, Parsed, TAG_DATA, TAG_FIX, TAG_LIBRARY,
    TAG_REQUESTS, TAG_SECTION, TAG_SYMBOL,
};
use vstd::prelude::*;
use vstd::utf8::*;

verus! {

/// `found` and `end` are what `expected` says is read at the front of
/// `data` from `pos` on: the value, and the place where the rest begins.
pub open spec fn reads_as<T>(
    data: Seq<u8>,
    pos: int,
    expected: Parsed<T>,
    found: T,
    end: int,
) -> bool {
    &&& pos <= end <= data.len()
    &&& expected == Ok::<_, ArfError>((found, data.skip(end)))
}

/// The items `first`, then what `then` holds.
pub open spec fn prepend<T>(first: Seq<T>, then: Parsed<Seq<T>>) -> Parsed<Seq<T>> {
    match then {
        Ok((items, rest)) => Ok((first + items, rest)),
        Err(e) => Err(e),
    }
}

/// Reads one byte at `pos`.
fn read_u8(data: &Vec<u8>, pos: usize) -> (r: Result<(u8, usize), ArfError>)
    requires
        pos <= data.len(),
    ensures
        match r {
            Ok((v, end)) => reads_as(data@, pos as int, parse_u8(data@.skip(pos as int)), v, end as int)
                && end == pos + 1,
            Err(e) => parse_u8(data@.skip(pos as int)) == Err::<(u8, Seq<u8>), _>(e),
        },
{
    if pos >= data.len() {
        return Err(ArfError::MalformedInput);
    }
    assert(data@.skip(pos as int).skip(1) =~= data@.skip(pos + 1));
    Ok((data[pos], pos + 1))
}

/// Reads a word of four bytes at `pos`, least significant first.
fn read_u32(data: &Vec<u8>, pos: usize) -> (r: Result<(u32, usize), ArfError>)
    requires
        pos <= data.len(),
    ensures
        match r {
            Ok((v, end)) => reads_as(
                data@,
                pos as int,
                parse_u32(data@.skip(pos as int)),
                v,
                end as int,
            ) && end == pos + 4,
            Err(e) => parse_u32(data@.skip(pos as int)) == Err::<(u32, Seq<u8>), _>(e),
        },
{
    if data.len() - pos < 4 {
        return Err(ArfError::MalformedInput);
    }
    let b0 = data[pos] as u32;
    let b1 = data[pos + 1] as u32;
    let b2 = data[pos + 2] as u32;
    let b3 = data[pos + 3] as u32;
    assert(data@.skip(pos as int).skip(4) =~= data@.skip(pos + 4));
    Ok((b0 + 256 * b1 + 65536 * b2 + 16777216 * b3, pos + 4))
}

/// Reads an architecture at `pos`.
fn read_arch(data: &Vec<u8>, pos: usize) -> (r: Result<(Architecture, usize), ArfError>)
    requires
        pos <= data.len(),
    ensures
        match r {
            Ok((v, end)) => reads_as(
                data@,
                pos as int,
                parse_arch(data@.skip(pos as int)),
                v,
                end as int,
            ) && end == pos + 1,
            Err(e) => parse_arch(data@.skip(pos as int)) == Err::<(Architecture, Seq<u8>), _>(e),
        },
{
    if pos >= data.len() {
        return Err(ArfError::MalformedInput);
    }
    assert(data@.skip(pos as int).skip(1) =~= data@.skip(pos + 1));
    match Architecture::from_byte(data[pos]) {
        Some(a) => Ok((a, pos + 1)),
        None => Err(ArfError::MalformedInput),
    }
}

/// Reads a name at `pos`: up to the next NUL, which must be there.
fn read_name(data: &Vec<u8>, pos: usize) -> (r: Result<(String, usize), ArfError>)
    requires
        pos <= data.len(),
    ensures
        match r {
            Ok((v, end)) => reads_as(
                data@,
                pos as int,
                parse_name(data@.skip(pos as int)),
                v@,
                end as int,
            ) && end > pos,
            Err(e) => parse_name(data@.skip(pos as int)) == Err::<(Seq<char>, Seq<u8>), _>(e),
        },
{
    assert(data@.subrange(pos as int, data@.len() as int) =~= data@.skip(pos as int));
    let k = find_byte(data.as_slice(), pos, data.len(), 0);
    if k >= data.len() {
        return Err(ArfError::MalformedInput);
    }
    let bytes = copy_range(data.as_slice(), pos, k);
    proof {
        let s = data@.skip(pos as int);
        assert(s.take(k - pos) =~= bytes@);
        assert(s.skip(k - pos + 1) =~= data@.skip(k + 1));
    }
    match string_from_utf8(bytes) {
        Some(name) => Ok((name, k + 1)),
        None => Err(ArfError::InvalidUtf8),
    }
}

/// Reads the header at the start of `data`.
fn read_header(data: &Vec<u8>) -> (r: Result<(Header, usize), ArfError>)
    ensures
        match r {
            Ok((v, end)) => reads_as(data@, 0, parse_header(data@), v@, end as int),
            Err(e) => parse_header(data@) == Err::<(crate::format::HeaderView, Seq<u8>), _>(e),
        },
{
    if data.len() < 6 {
        return Err(ArfError::MalformedInput);
    }
    let tag = copy_range(data.as_slice(), 0, 6);
    assert(data@.take(6) =~= tag@);
    let library = tag[0] == 0x41 && tag[1] == 0x52 && tag[2] == 0x4C;
    if string_from_utf8(tag).is_none() {
        return Err(ArfError::InvalidUtf8);
    }
    assert(data@.skip(0) =~= data@);
    let (architecture, p1) = match read_arch(data, 6) {
        Ok(v) => v,
        Err(e) => {
            return Err(e);
        },
    };
    let (host_architecture, p2) = match read_arch(data, p1) {
        Ok(v) => v,
        Err(e) => {
            return Err(e);
        },
    };
    let (entry_point, p3) = match read_u32(data, p2) {
        Ok(v) => v,
        Err(e) => {
            return Err(e);
        },
    };
    Ok((Header::new(library, architecture, host_architecture, entry_point), p3))
}

/// Reads a section entry behind its tag.
fn read_section(data: &Vec<u8>, pos: usize) -> (r: Result<(Section, usize), ArfError>)
    requires
        pos <= data.len(),
    ensures
        match r {
            Ok((v, end)) => reads_as(
                data@,
                pos as int,
                parse_section(data@.skip(pos as int)),
                v@,
                end as int,
            ) && end > pos,
            Err(e) => parse_section(data@.skip(pos as int)) == Err::<(SectionView, Seq<u8>), _>(e),
        },
{
    let (name, p1) = match read_name(data, pos) {
        Ok(v) => v,
        Err(e) => {
            return Err(e);
        },
    };
    let (offset, p2) = match read_u32(data, p1) {
        Ok(v) => v,
        Err(e) => {
            return Err(e);
        },
    };
    let (permissions, p3) = match read_u8(data, p2) {
        Ok(v) => v,
        Err(e) => {
            return Err(e);
        },
    };
    Ok((Section::new(name, offset, permissions), p3))
}

/// Reads a symbol entry behind its tag.
fn read_symbol(data: &Vec<u8>, pos: usize) -> (r: Result<(Symbol, usize), ArfError>)
    requires
        pos <= data.len(),
    ensures
        match r {
            Ok((v, end)) => reads_as(
                data@,
                pos as int,
                parse_symbol(data@.skip(pos as int)),
                v@,
                end as int,
            ) && end > pos,
            Err(e) => parse_symbol(data@.skip(pos as int)) == Err::<(SymbolView, Seq<u8>), _>(e),
        },
{
    let (name, p1) = match read_name(data, pos) {
        Ok(v) => v,
        Err(e) => {
            return Err(e);
        },
    };
    let (resolution, p2) = match read_u8(data, p1) {
        Ok(v) => v,
        Err(e) => {
            return Err(e);
        },
    };
    let (typ, p3) = match read_u8(data, p2) {
        Ok(v) => v,
        Err(e) => {
            return Err(e);
        },
    };
    let (addr, p4) = match read_u32(data, p3) {
        Ok(v) => v,
        Err(e) => {
            return Err(e);
        },
    };
    Ok((Symbol::new(name, resolution, typ, addr), p4))
}

/// Reads a library entry behind its tag.
fn read_library(data: &Vec<u8>, pos: usize) -> (r: Result<(Library, usize), ArfError>)
    requires
        pos <= data.len(),
    ensures
        match r {
            Ok((v, end)) => reads_as(
                data@,
                pos as int,
                parse_library(data@.skip(pos as int)),
                v@,
                end as int,
            ) && end > pos,
            Err(e) => parse_library(data@.skip(pos as int)) == Err::<(LibraryView, Seq<u8>), _>(e),
        },
{
    let (name, p1) = match read_name(data, pos) {
        Ok(v) => v,
        Err(e) => {
            return Err(e);
        },
    };
    let (availability, p2) = match read_u8(data, p1) {
        Ok(v) => v,
        Err(e) => {
            return Err(e);
        },
    };
    if availability == LIB_RESOLVED {
        let (path, p3) = match read_name(data, p2) {
            Ok(v) => v,
            Err(e) => {
                return Err(e);
            },
        };
        Ok((Library::resolved(name, path), p3))
    } else {
        Ok((Library::new(name, availability, String::new()), p2))
    }
}

/// Reads a fix entry behind its tag.
fn read_fix(data: &Vec<u8>, pos: usize) -> (r: Result<(Fix, usize), ArfError>)
    requires
        pos <= data.len(),
    ensures
        match r {
            Ok((v, end)) => reads_as(
                data@,
                pos as int,
                parse_fix(data@.skip(pos as int)),
                v@,
                end as int,
            ) && end > pos,
            Err(e) => parse_fix(data@.skip(pos as int)) == Err::<(FixView, Seq<u8>), _>(e),
        },
{
    let (name, p1) = match read_name(data, pos) {
        Ok(v) => v,
        Err(e) => {
            return Err(e);
        },
    };
    let (offset, p2) = match read_u32(data, p1) {
        Ok(v) => v,
        Err(e) => {
            return Err(e);
        },
    };
    Ok((Fix::new(name, offset), p2))
}

/// One turn of reading a region: the entry that was read at the front of
/// `s`, after the tag, goes behind those read before.
proof fn lemma_region_step<T>(
    whole: Parsed<Seq<T>>,
    done: Seq<T>,
    s: Seq<u8>,
    tag: u8,
    read: spec_fn(Seq<u8>) -> Parsed<T>,
    item: T,
    rest: Seq<u8>,
)
    requires
        whole == prepend(done, parse_many(s, tag, read)),
        s.len() > 0 && s[0] == tag,
        read(s.skip(1)) == Ok::<_, ArfError>((item, rest)),
        rest.len() < s.len(),
    ensures
        whole == prepend(done.push(item), parse_many(rest, tag, read)),
{
    match parse_many(rest, tag, read) {
        Ok((items, end)) => {
            assert(done + (seq![item] + items) =~= done.push(item) + items);
        },
        Err(e) => {},
    }
}

/// An entry that cannot be read fails the whole region.
proof fn lemma_region_fail<T>(
    whole: Parsed<Seq<T>>,
    done: Seq<T>,
    s: Seq<u8>,
    tag: u8,
    read: spec_fn(Seq<u8>) -> Parsed<T>,
    e: ArfError,
)
    requires
        whole == prepend(done, parse_many(s, tag, read)),
        s.len() > 0 && s[0] == tag,
        read(s.skip(1)) == Err::<(T, Seq<u8>), _>(e),
    ensures
        whole == Err::<(Seq<T>, Seq<u8>), _>(e),
{
}

/// Reads the sections region from `start` on.
fn read_sections(data: &Vec<u8>, start: usize) -> (r: Result<(Vec<Section>, usize), ArfError>)
    requires
        start <= data.len(),
    ensures
        match r {
            Ok((v, end)) => reads_as(
                data@,
                start as int,
                parse_sections(data@.skip(start as int)),
                views(v@),
                end as int,
            ),
            Err(e) => parse_sections(data@.skip(start as int)) == Err::<
                (Seq<SectionView>, Seq<u8>),
                _,
            >(e),
        },
{
    let ghost whole = parse_sections(data@.skip(start as int));
    let mut items: Vec<Section> = Vec::new();
    let mut pos: usize = start;
    assert(Seq::<SectionView>::empty() + Seq::<SectionView>::empty() =~= Seq::<SectionView>::empty());
    assert(views(items@) =~= Seq::<SectionView>::empty());
    while pos < data.len() && data[pos] == TAG_SECTION
        invariant
            start <= pos <= data.len(),
            whole == parse_sections(data@.skip(start as int)),
            whole == prepend(views(items@), parse_sections(data@.skip(pos as int))),
        decreases data.len() - pos,
    {
        let ghost s = data@.skip(pos as int);
        assert(s.skip(1) =~= data@.skip(pos + 1));
        match read_section(data, pos + 1) {
            Ok((item, end)) => {
                proof {
                    lemma_region_step(
                        whole,
                        views(items@),
                        s,
                        TAG_SECTION,
                        |t: Seq<u8>| parse_section(t),
                        item@,
                        data@.skip(end as int),
                    );
                    assert(views(items@.push(item)) =~= views(items@).push(item@));
                }
                items.push(item);
                pos = end;
            },
            Err(e) => {
                proof {
                    lemma_region_fail(
                        whole,
                        views(items@),
                        s,
                        TAG_SECTION,
                        |t: Seq<u8>| parse_section(t),
                        e,
                    );
                }
                return Err(e);
            },
        }
    }
    proof {
        let rest = data@.skip(pos as int);
        assert(parse_sections(rest) == Ok::<_, ArfError>((Seq::<SectionView>::empty(), rest)));
        assert(views(items@) + Seq::<SectionView>::empty() =~= views(items@));
    }
    Ok((items, pos))
}

/// Reads the symbols region from `start` on.
fn read_symbols(data: &Vec<u8>, start: usize) -> (r: Result<(Vec<Symbol>, usize), ArfError>)
    requires
        start <= data.len(),
    ensures
        match r {
            Ok((v, end)) => reads_as(
                data@,
                start as int,
                parse_symbols(data@.skip(start as int)),
                views(v@),
                end as int,
            ),
            Err(e) => parse_symbols(data@.skip(start as int)) == Err::<
                (Seq<SymbolView>, Seq<u8>),
                _,
            >(e),
        },
{
    let ghost whole = parse_symbols(data@.skip(start as int));
    let mut items: Vec<Symbol> = Vec::new();
    let mut pos: usize = start;
    assert(Seq::<SymbolView>::empty() + Seq::<SymbolView>::empty() =~= Seq::<SymbolView>::empty());
    assert(views(items@) =~= Seq::<SymbolView>::empty());
    while pos < data.len() && data[pos] == TAG_SYMBOL
        invariant
            start <= pos <= data.len(),
            whole == parse_symbols(data@.skip(start as int)),
            whole == prepend(views(items@), parse_symbols(data@.skip(pos as int))),
        decreases data.len() - pos,
    {
        let ghost s = data@.skip(pos as int);
        assert(s.skip(1) =~= data@.skip(pos + 1));
        match read_symbol(data, pos + 1) {
            Ok((item, end)) => {
                proof {
                    lemma_region_step(
                        whole,
                        views(items@),
                        s,
                        TAG_SYMBOL,
                        |t: Seq<u8>| parse_symbol(t),
                        item@,
                        data@.skip(end as int),
                    );
                    assert(views(items@.push(item)) =~= views(items@).push(item@));
                }
                items.push(item);
                pos = end;
            },
            Err(e) => {
                proof {
                    lemma_region_fail(
                        whole,
                        views(items@),
                        s,
                        TAG_SYMBOL,
                        |t: Seq<u8>| parse_symbol(t),
                        e,
                    );
                }
                return Err(e);
            },
        }
    }
    proof {
        let rest = data@.skip(pos as int);
        assert(parse_symbols(rest) == Ok::<_, ArfError>((Seq::<SymbolView>::empty(), rest)));
        assert(views(items@) + Seq::<SymbolView>::empty() =~= views(items@));
    }
    Ok((items, pos))
}

/// Reads the libraries region from `start` on.
fn read_libraries(data: &Vec<u8>, start: usize) -> (r: Result<(Vec<Library>, usize), ArfError>)
    requires
        start <= data.len(),
    ensures
        match r {
            Ok((v, end)) => reads_as(
                data@,
                start as int,
                parse_libraries(data@.skip(start as int)),
                views(v@),
                end as int,
            ),
            Err(e) => parse_libraries(data@.skip(start as int)) == Err::<
                (Seq<LibraryView>, Seq<u8>),
                _,
            >(e),
        },
{
    let ghost whole = parse_libraries(data@.skip(start as int));
    let mut items: Vec<Library> = Vec::new();
    let mut pos: usize = start;
    assert(Seq::<LibraryView>::empty() + Seq::<LibraryView>::empty() =~= Seq::<
        LibraryView,
    >::empty());
    assert(views(items@) =~= Seq::<LibraryView>::empty());
    while pos < data.len() && data[pos] == TAG_LIBRARY
        invariant
            start <= pos <= data.len(),
            whole == parse_libraries(data@.skip(start as int)),
            whole == prepend(views(items@), parse_libraries(data@.skip(pos as int))),
        decreases data.len() - pos,
    {
        let ghost s = data@.skip(pos as int);
        assert(s.skip(1) =~= data@.skip(pos + 1));
        match read_library(data, pos + 1) {
            Ok((item, end)) => {
                proof {
                    lemma_region_step(
                        whole,
                        views(items@),
                        s,
                        TAG_LIBRARY,
                        |t: Seq<u8>| parse_library(t),
                        item@,
                        data@.skip(end as int),
                    );
                    assert(views(items@.push(item)) =~= views(items@).push(item@));
                }
                items.push(item);
                pos = end;
            },
            Err(e) => {
                proof {
                    lemma_region_fail(
                        whole,
                        views(items@),
                        s,
                        TAG_LIBRARY,
                        |t: Seq<u8>| parse_library(t),
                        e,
                    );
                }
                return Err(e);
            },
        }
    }
    proof {
        let rest = data@.skip(pos as int);
        assert(parse_libraries(rest) == Ok::<_, ArfError>((Seq::<LibraryView>::empty(), rest)));
        assert(views(items@) + Seq::<LibraryView>::empty() =~= views(items@));
    }
    Ok((items, pos))
}

/// Reads the fixes region from `start` on.
fn read_fixes(data: &Vec<u8>, start: usize) -> (r: Result<(Vec<Fix>, usize), ArfError>)
    requires
        start <= data.len(),
    ensures
        match r {
            Ok((v, end)) => reads_as(
                data@,
                start as int,
                parse_fixes(data@.skip(start as int)),
                views(v@),
                end as int,
            ),
            Err(e) => parse_fixes(data@.skip(start as int)) == Err::<(Seq<FixView>, Seq<u8>), _>(e),
        },
{
    let ghost whole = parse_fixes(data@.skip(start as int));
    let mut items: Vec<Fix> = Vec::new();
    let mut pos: usize = start;
    assert(Seq::<FixView>::empty() + Seq::<FixView>::empty() =~= Seq::<FixView>::empty());
    assert(views(items@) =~= Seq::<FixView>::empty());
    while pos < data.len() && data[pos] == TAG_FIX
        invariant
            start <= pos <= data.len(),
            whole == parse_fixes(data@.skip(start as int)),
            whole == prepend(views(items@), parse_fixes(data@.skip(pos as int))),
        decreases data.len() - pos,
    {
        let ghost s = data@.skip(pos as int);
        assert(s.skip(1) =~= data@.skip(pos + 1));
        match read_fix(data, pos + 1) {
            Ok((item, end)) => {
                proof {
                    lemma_region_step(
                        whole,
                        views(items@),
                        s,
                        TAG_FIX,
                        |t: Seq<u8>| parse_fix(t),
                        item@,
                        data@.skip(end as int),
                    );
                    assert(views(items@.push(item)) =~= views(items@).push(item@));
                }
                items.push(item);
                pos = end;
            },
            Err(e) => {
                proof {
                    lemma_region_fail(
                        whole,
                        views(items@),
                        s,
                        TAG_FIX,
                        |t: Seq<u8>| parse_fix(t),
                        e,
                    );
                }
                return Err(e);
            },
        }
    }
    proof {
        let rest = data@.skip(pos as int);
        assert(parse_fixes(rest) == Ok::<_, ArfError>((Seq::<FixView>::empty(), rest)));
        assert(views(items@) + Seq::<FixView>::empty() =~= views(items@));
    }
    Ok((items, pos))
}

/// The requests and the data, from `start` on.
fn read_tail(data: &Vec<u8>, start: usize) -> (r: Result<(Vec<Request>, Vec<u8>), ArfError>)
    requires
        start <= data.len(),
    ensures
        match r {
            Ok((requests, blob)) => parse_tail(data@.skip(start as int)) == Ok::<_, ArfError>(
                (views(requests@), blob@),
            ),
            Err(e) => parse_tail(data@.skip(start as int)) == Err::<(Seq<u8>, Seq<u8>), _>(e),
        },
{
    if start >= data.len() || data[start] != TAG_REQUESTS {
        return Err(ArfError::MalformedInput);
    }
    let ghost r = data@.skip(start as int).skip(1);
    assert(r =~= data@.skip(start + 1));
    assert(data@.subrange(start + 1, data@.len() as int) =~= r);
    let k = find_byte(data.as_slice(), start + 1, data.len(), TAG_DATA);
    if k >= data.len() {
        return Err(ArfError::MalformedInput);
    }
    let mut requests: Vec<Request> = Vec::new();
    let mut i: usize = start + 1;
    while i < k
        invariant
            start + 1 <= i <= k < data.len(),
            views(requests@) == data@.subrange(start + 1, i as int),
        decreases k - i,
    {
        let ghost before = requests@;
        let request = Request::new(data[i]);
        requests.push(request);
        i += 1;
        assert(views(requests@) =~= views(before).push(request@));
        assert(views(requests@) =~= data@.subrange(start + 1, i as int));
    }
    let blob = copy_range(data.as_slice(), k + 1, data.len());
    proof {
        assert(r.take(k - start - 1) =~= views(requests@));
        assert(r.skip(k - start - 1 + 1) =~= blob@);
    }
    Ok((requests, blob))
}

impl ArfFile {
    /// Reads a container from its wire form: the container that `parse`
    /// describes, or the first thing that is wrong with the bytes. The
    /// container is well-formed, and its wire form is `data` with the
    /// canonical version tag.
    pub fn from_data(data: Vec<u8>) -> (r: Result<ArfFile, ArfError>)
        ensures
            match r {
                Ok(f) => {
                    &&& parse(data@) == Ok::<_, ArfError>(f@)
                    &&& f@.wf()
                    &&& emit(f@) == encode_utf8(canonical_tag(f@.header.library)) + data@.skip(6)
                },
                Err(e) => parse(data@) == Err::<crate::format::ArfFileView, _>(e),
            },
    {
        proof {
            lemma_parsed_wf(data@);
            lemma_read_then_written(data@);
        }
        let (header, p1) = match read_header(&data) {
            Ok(v) => v,
            Err(e) => {
                return Err(e);
            },
        };
        let (sections, p2) = match read_sections(&data, p1) {
            Ok(v) => v,
            Err(e) => {
                return Err(e);
            },
        };
        let (symbols, p3) = match read_symbols(&data, p2) {
            Ok(v) => v,
            Err(e) => {
                return Err(e);
            },
        };
        let (libraries, p4) = match read_libraries(&data, p3) {
            Ok(v) => v,
            Err(e) => {
                return Err(e);
            },
        };
        let (fixes, p5) = match read_fixes(&data, p4) {
            Ok(v) => v,
            Err(e) => {
                return Err(e);
            },
        };
        let (requests, blob) = match read_tail(&data, p5) {
            Ok(v) => v,
            Err(e) => {
                return Err(e);
            },
        };
        Ok(ArfFile::from_parts(header, sections, symbols, libraries, fixes, requests, blob))
    }
}

} // verus!
