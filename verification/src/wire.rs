//! The wire form of a container, as two functions on bytes: what a container
//! is written as, and what bytes are read as.

use crate::arch::Architecture;
use crate::error::ArfError;
use crate::format::ArfFileView;
use crate::format::FixView;
use crate::format::HeaderView;
use crate::format::LibraryView;
use crate::format::SectionView;
use crate::format::SymbolView;
use crate::format::canonical_tag;
use crate::format::LIB_RESOLVED;
use crate::text::from_le32;
use crate::text::index_of_byte;
use crate::text::le32;
use vstd::prelude::*;
use vstd::utf8::*;

verus! {

/// The byte before each section entry, and before the data.
pub const TAG_SECTION: u8 = 0xFF;

/// The byte before each symbol entry.
pub const TAG_SYMBOL: u8 = 0xEE;

/// The byte before each library entry.
pub const TAG_LIBRARY: u8 = 0xDD;

/// The byte before each fix entry.
pub const TAG_FIX: u8 = 0xCC;

/// The byte before the requests.
pub const TAG_REQUESTS: u8 = 0xBB;

/// The byte before the data.
pub const TAG_DATA: u8 = 0xFF;

/// What reading a value off the front of some bytes gives: the value and the
/// bytes that follow it.
pub type Parsed<T> = Result<(T, Seq<u8>), ArfError>;

/// A name on the wire: its UTF-8 bytes and a NUL.
pub open spec fn emit_name(name: Seq<char>) -> Seq<u8> {
    encode_utf8(name).push(0u8)
}

/// The header on the wire: the version tag, the two architectures and the
/// entry point, least significant byte first.
pub open spec fn emit_header(h: HeaderView) -> Seq<u8> {
    encode_utf8(h.version) + seq![h.architecture.spec_byte(), h.host_architecture.spec_byte()]
        + le32(h.entry_point)
}

/// A section entry after its tag.
pub open spec fn emit_section(s: SectionView) -> Seq<u8> {
    emit_name(s.name) + le32(s.offset) + seq![s.permissions]
}

/// A symbol entry after its tag.
pub open spec fn emit_symbol(s: SymbolView) -> Seq<u8> {
    emit_name(s.name) + seq![s.resolution, s.typ] + le32(s.addr)
}

/// A library entry after its tag. The path follows only where the
/// availability announces it.
pub open spec fn emit_library(l: LibraryView) -> Seq<u8> {
    emit_name(l.name) + seq![l.availability] + (if l.availability == LIB_RESOLVED {
        emit_name(
            match l.path {
                Some(p) => p,
                None => Seq::empty(),
            },
        )
    } else {
        Seq::empty()
    })
}

/// A fix entry after its tag.
pub open spec fn emit_fix(f: FixView) -> Seq<u8> {
    emit_name(f.name) + le32(f.offset)
}

/// The entries of a region one after the other, each behind the region's
/// tag.
pub open spec fn emit_all<T>(items: Seq<T>, tag: u8, one: spec_fn(T) -> Seq<u8>) -> Seq<u8>
    decreases items.len(),
{
    if items.len() == 0 {
        Seq::empty()
    } else {
        seq![tag] + one(items[0]) + emit_all(items.drop_first(), tag, one)
    }
}

/// The sections region.
pub open spec fn emit_sections(items: Seq<SectionView>) -> Seq<u8> {
    emit_all(items, TAG_SECTION, |s: SectionView| emit_section(s))
}

/// The symbols region.
pub open spec fn emit_symbols(items: Seq<SymbolView>) -> Seq<u8> {
    emit_all(items, TAG_SYMBOL, |s: SymbolView| emit_symbol(s))
}

/// The libraries region.
pub open spec fn emit_libraries(items: Seq<LibraryView>) -> Seq<u8> {
    emit_all(items, TAG_LIBRARY, |l: LibraryView| emit_library(l))
}

/// The fixes region.
pub open spec fn emit_fixes(items: Seq<FixView>) -> Seq<u8> {
    emit_all(items, TAG_FIX, |f: FixView| emit_fix(f))
}

/// The requests and the data: the requests behind their tag, one byte each,
/// then the data behind its tag, up to the end.
pub open spec fn emit_tail(requests: Seq<u8>, data: Seq<u8>) -> Seq<u8> {
    seq![TAG_REQUESTS] + requests + seq![TAG_DATA] + data
}

/// The wire form of a container.
pub open spec fn emit(f: ArfFileView) -> Seq<u8> {
    emit_header(f.header) + emit_sections(f.sections) + emit_symbols(f.symbols) + emit_libraries(
        f.libraries,
    ) + emit_fixes(f.fixes) + emit_tail(f.requests, f.data)
}

/// One byte.
pub open spec fn parse_u8(s: Seq<u8>) -> Parsed<u8> {
    if s.len() < 1 {
        Err(ArfError::MalformedInput)
    } else {
        Ok((s[0], s.skip(1)))
    }
}

/// A word of four bytes, least significant first.
pub open spec fn parse_u32(s: Seq<u8>) -> Parsed<u32> {
    if s.len() < 4 {
        Err(ArfError::MalformedInput)
    } else {
        Ok((from_le32(s[0], s[1], s[2], s[3]), s.skip(4)))
    }
}

/// A name runs up to the first NUL, which must be there, and must be valid
/// UTF-8.
pub open spec fn parse_name(s: Seq<u8>) -> Parsed<Seq<char>> {
    let k = index_of_byte(s, 0);
    if k >= s.len() {
        Err(ArfError::MalformedInput)
    } else if !valid_utf8(s.take(k)) {
        Err(ArfError::InvalidUtf8)
    } else {
        Ok((decode_utf8(s.take(k)), s.skip(k + 1)))
    }
}

/// An architecture: one byte, 1 to 4.
pub open spec fn parse_arch(s: Seq<u8>) -> Parsed<Architecture> {
    if s.len() < 1 {
        Err(ArfError::MalformedInput)
    } else {
        match Architecture::spec_from_byte(s[0]) {
            Some(a) => Ok((a, s.skip(1))),
            None => Err(ArfError::MalformedInput),
        }
    }
}

/// The first three bytes are those of `ARL`.
pub open spec fn has_library_prefix(tag: Seq<u8>) -> bool {
    tag.len() >= 3 && tag[0] == 0x41 && tag[1] == 0x52 && tag[2] == 0x4C
}

/// The header: six bytes of tag, which must be valid UTF-8 and of which only
/// the prefix `ARL` is looked at, two architectures and the entry point. The
/// tag that is handed back is the canonical one.
pub open spec fn parse_header(s: Seq<u8>) -> Parsed<HeaderView> {
    if s.len() < 6 {
        Err(ArfError::MalformedInput)
    } else if !valid_utf8(s.take(6)) {
        Err(ArfError::InvalidUtf8)
    } else {
        let library = has_library_prefix(s.take(6));
        match parse_arch(s.skip(6)) {
            Err(e) => Err(e),
            Ok((architecture, r1)) => match parse_arch(r1) {
                Err(e) => Err(e),
                Ok((host_architecture, r2)) => match parse_u32(r2) {
                    Err(e) => Err(e),
                    Ok((entry_point, r3)) => Ok(
                        (
                            HeaderView {
                                version: canonical_tag(library),
                                library,
                                architecture,
                                host_architecture,
                                entry_point,
                            },
                            r3,
                        ),
                    ),
                },
            },
        }
    }
}

/// A section entry after its tag: name, offset, permissions.
pub open spec fn parse_section(s: Seq<u8>) -> Parsed<SectionView> {
    match parse_name(s) {
        Err(e) => Err(e),
        Ok((name, r1)) => match parse_u32(r1) {
            Err(e) => Err(e),
            Ok((offset, r2)) => match parse_u8(r2) {
                Err(e) => Err(e),
                Ok((permissions, r3)) => Ok((SectionView { name, offset, permissions }, r3)),
            },
        },
    }
}

/// A symbol entry after its tag: name, resolution, type, address.
pub open spec fn parse_symbol(s: Seq<u8>) -> Parsed<SymbolView> {
    match parse_name(s) {
        Err(e) => Err(e),
        Ok((name, r1)) => match parse_u8(r1) {
            Err(e) => Err(e),
            Ok((resolution, r2)) => match parse_u8(r2) {
                Err(e) => Err(e),
                Ok((typ, r3)) => match parse_u32(r3) {
                    Err(e) => Err(e),
                    Ok((addr, r4)) => Ok((SymbolView { name, resolution, typ, addr }, r4)),
                },
            },
        },
    }
}

/// A library entry after its tag: name, availability, and the path where
/// the availability announces it.
pub open spec fn parse_library(s: Seq<u8>) -> Parsed<LibraryView> {
    match parse_name(s) {
        Err(e) => Err(e),
        Ok((name, r1)) => match parse_u8(r1) {
            Err(e) => Err(e),
            Ok((availability, r2)) => if availability == LIB_RESOLVED {
                match parse_name(r2) {
                    Err(e) => Err(e),
                    Ok((path, r3)) => Ok((LibraryView { name, availability, path: Some(path) }, r3)),
                }
            } else {
                Ok((LibraryView { name, availability, path: None }, r2))
            },
        },
    }
}

/// A fix entry after its tag: name, offset.
pub open spec fn parse_fix(s: Seq<u8>) -> Parsed<FixView> {
    match parse_name(s) {
        Err(e) => Err(e),
        Ok((name, r1)) => match parse_u32(r1) {
            Err(e) => Err(e),
            Ok((offset, r2)) => Ok((FixView { name, offset }, r2)),
        },
    }
}

/// The entries of a region: as long as the next byte is the region's tag,
/// one more entry follows it. An entry that cannot be read ends the reading
/// with its error.
pub open spec fn parse_many<T>(s: Seq<u8>, tag: u8, one: spec_fn(Seq<u8>) -> Parsed<T>) -> Parsed<
    Seq<T>,
>
    decreases s.len(),
{
    if s.len() > 0 && s[0] == tag {
        match one(s.skip(1)) {
            Err(e) => Err(e),
            Ok((item, rest)) => if rest.len() < s.len() {
                match parse_many(rest, tag, one) {
                    Err(e) => Err(e),
                    Ok((items, end)) => Ok((seq![item] + items, end)),
                }
            } else {
                Err(ArfError::MalformedInput)
            },
        }
    } else {
        Ok((Seq::empty(), s))
    }
}

/// The sections region.
pub open spec fn parse_sections(s: Seq<u8>) -> Parsed<Seq<SectionView>> {
    parse_many(s, TAG_SECTION, |t: Seq<u8>| parse_section(t))
}

/// The symbols region.
pub open spec fn parse_symbols(s: Seq<u8>) -> Parsed<Seq<SymbolView>> {
    parse_many(s, TAG_SYMBOL, |t: Seq<u8>| parse_symbol(t))
}

/// The libraries region.
pub open spec fn parse_libraries(s: Seq<u8>) -> Parsed<Seq<LibraryView>> {
    parse_many(s, TAG_LIBRARY, |t: Seq<u8>| parse_library(t))
}

/// The fixes region.
pub open spec fn parse_fixes(s: Seq<u8>) -> Parsed<Seq<FixView>> {
    parse_many(s, TAG_FIX, |t: Seq<u8>| parse_fix(t))
}

/// The requests and the data: the tag of the requests must come first; the
/// requests run up to the first data tag, which must be there; all that
/// follows it is the data.
pub open spec fn parse_tail(s: Seq<u8>) -> Result<(Seq<u8>, Seq<u8>), ArfError> {
    if s.len() == 0 || s[0] != TAG_REQUESTS {
        Err(ArfError::MalformedInput)
    } else {
        let r = s.skip(1);
        let k = index_of_byte(r, TAG_DATA);
        if k >= r.len() {
            Err(ArfError::MalformedInput)
        } else {
            Ok((r.take(k), r.skip(k + 1)))
        }
    }
}

/// What bytes are read as: the container, or the first thing that is wrong
/// with them.
pub open spec fn parse(s: Seq<u8>) -> Result<ArfFileView, ArfError> {
    match parse_header(s) {
        Err(e) => Err(e),
        Ok((header, r1)) => match parse_sections(r1) {
            Err(e) => Err(e),
            Ok((sections, r2)) => match parse_symbols(r2) {
                Err(e) => Err(e),
                Ok((symbols, r3)) => match parse_libraries(r3) {
                    Err(e) => Err(e),
                    Ok((libraries, r4)) => match parse_fixes(r4) {
                        Err(e) => Err(e),
                        Ok((fixes, r5)) => match parse_tail(r5) {
                            Err(e) => Err(e),
                            Ok((requests, data)) => Ok(
                                ArfFileView {
                                    header,
                                    sections,
                                    symbols,
                                    libraries,
                                    fixes,
                                    requests,
                                    data,
                                },
                            ),
                        },
                    },
                },
            },
        },
    }
}

} // verus!
