//! Reading back what was written: the laws that tie the two halves of the
//! wire form together.

use crate::format::ArfFileView;
use crate::format::FixView;
use crate::format::HeaderView;
use crate::format::LibraryView;
use crate::format::SectionView;
use crate::format::SymbolView;
use crate::format::canonical_tag;
use crate::format::LIB_RESOLVED;
use crate::text::is_c_name;
use crate::text::le32;
use crate::text::index_of_byte;
use crate::text::lemma_index_of_byte;
use crate::text::lemma_index_of_byte_is_first;
use crate::text::lemma_le32_decode;
use crate::text::lemma_le32_encode;
use crate::error::ArfError;
use crate::wire::{
    emit, emit_all, emit_fix, emit_fixes, emit_header, emit_libraries, emit_library, emit_name,
    emit_section, emit_sections, emit_symbol, emit_symbols, emit_tail, has_library_prefix, parse,
    parse_fix, parse_fixes, parse_header, parse_libraries, parse_library, parse_many, parse_name,
    parse_section, parse_sections, parse_symbol, parse_symbols, parse_tail, parse_u32, Parsed,
    TAG_DATA, TAG_FIX, TAG_LIBRARY, TAG_REQUESTS, TAG_SECTION, TAG_SYMBOL,
};
use vstd::prelude::*;
use vstd::utf8::*;

verus! {

/// A name that holds no NUL is read back from its wire form, whatever
/// follows.
pub proof fn lemma_parse_name(name: Seq<char>, rest: Seq<u8>)
    requires
        is_c_name(name),
    ensures
        parse_name(emit_name(name) + rest) == Ok::<_, ArfError>((name, rest)),
{
    let b = encode_utf8(name);
    let s = emit_name(name) + rest;
    let k = b.len() as int;
    assert forall|i: int| 0 <= i < k implies #[trigger] s[i] != 0 by {
        assert(s[i] == b[i]);
    }
    assert(s[k] == 0);
    lemma_index_of_byte(s, 0, k);
    assert(s.take(k) =~= b);
    assert(s.skip(k + 1) =~= rest);
    encode_utf8_valid_utf8(name);
    encode_utf8_decode_utf8(name);
}

/// A word is read back from its four bytes, whatever follows.
pub proof fn lemma_parse_u32(x: u32, rest: Seq<u8>)
    ensures
        parse_u32(le32(x) + rest) == Ok::<_, ArfError>((x, rest)),
{
    let s = le32(x) + rest;
    lemma_le32_decode(x);
    assert(s[0] == le32(x)[0] && s[1] == le32(x)[1] && s[2] == le32(x)[2] && s[3] == le32(x)[3]);
    assert(s.skip(4) =~= rest);
}

/// A section whose name holds no NUL is read back from its wire form,
/// whatever follows.
pub proof fn lemma_parse_section(v: SectionView, rest: Seq<u8>)
    requires
        is_c_name(v.name),
    ensures
        parse_section(emit_section(v) + rest) == Ok::<_, ArfError>((v, rest)),
{
    let r2 = seq![v.permissions] + rest;
    let r1 = le32(v.offset) + r2;
    assert(emit_section(v) + rest =~= emit_name(v.name) + r1);
    lemma_parse_name(v.name, r1);
    lemma_parse_u32(v.offset, r2);
    assert(r2.skip(1) =~= rest);
}

/// A symbol whose name holds no NUL is read back from its wire form,
/// whatever follows.
pub proof fn lemma_parse_symbol(v: SymbolView, rest: Seq<u8>)
    requires
        is_c_name(v.name),
    ensures
        parse_symbol(emit_symbol(v) + rest) == Ok::<_, ArfError>((v, rest)),
{
    let r3 = le32(v.addr) + rest;
    let r2 = seq![v.typ] + r3;
    let r1 = seq![v.resolution] + r2;
    assert(emit_symbol(v) + rest =~= emit_name(v.name) + r1);
    lemma_parse_name(v.name, r1);
    assert(r1.skip(1) =~= r2);
    assert(r2.skip(1) =~= r3);
    lemma_parse_u32(v.addr, rest);
}

/// A well-formed library is read back from its wire form, whatever
/// follows.
pub proof fn lemma_parse_library(v: LibraryView, rest: Seq<u8>)
    requires
        v.wf(),
    ensures
        parse_library(emit_library(v) + rest) == Ok::<_, ArfError>((v, rest)),
{
    if v.availability == LIB_RESOLVED {
        let p = v.path->0;
        let r2 = emit_name(p) + rest;
        let r1 = seq![v.availability] + r2;
        assert(emit_library(v) + rest =~= emit_name(v.name) + r1);
        lemma_parse_name(v.name, r1);
        assert(r1.skip(1) =~= r2);
        lemma_parse_name(p, rest);
    } else {
        let r1 = seq![v.availability] + rest;
        assert(emit_library(v) + rest =~= emit_name(v.name) + r1);
        lemma_parse_name(v.name, r1);
        assert(r1.skip(1) =~= rest);
    }
}

/// A fix whose name holds no NUL is read back from its wire form, whatever
/// follows.
pub proof fn lemma_parse_fix(v: FixView, rest: Seq<u8>)
    requires
        is_c_name(v.name),
    ensures
        parse_fix(emit_fix(v) + rest) == Ok::<_, ArfError>((v, rest)),
{
    let r1 = le32(v.offset) + rest;
    assert(emit_fix(v) + rest =~= emit_name(v.name) + r1);
    lemma_parse_name(v.name, r1);
    lemma_parse_u32(v.offset, rest);
}

/// A region is empty or starts with its tag.
pub proof fn lemma_emit_all_first<T>(items: Seq<T>, tag: u8, one: spec_fn(T) -> Seq<u8>)
    ensures
        items.len() == 0 ==> emit_all(items, tag, one) == Seq::<u8>::empty(),
        items.len() > 0 ==> emit_all(items, tag, one).len() > 0 && emit_all(items, tag, one)[0]
            == tag,
{
}

/// Adding an entry to a region adds its tag and its bytes at the end.
pub proof fn lemma_emit_all_push<T>(items: Seq<T>, item: T, tag: u8, one: spec_fn(T) -> Seq<u8>)
    ensures
        emit_all(items.push(item), tag, one) == emit_all(items, tag, one) + seq![tag] + one(item),
    decreases items.len(),
{
    let more = items.push(item);
    if items.len() == 0 {
        assert(more.drop_first() =~= Seq::<T>::empty());
        assert(emit_all(more.drop_first(), tag, one) =~= Seq::<u8>::empty());
        assert(emit_all(more, tag, one) =~= emit_all(items, tag, one) + seq![tag] + one(item));
    } else {
        assert(more.drop_first() =~= items.drop_first().push(item));
        lemma_emit_all_push(items.drop_first(), item, tag, one);
        assert(emit_all(more, tag, one) =~= emit_all(items, tag, one) + seq![tag] + one(item));
    }
}

/// A region whose entries are each read back from their bytes is read back
/// as a whole, if what follows it does not start with its tag.
pub proof fn lemma_parse_many<T>(
    items: Seq<T>,
    tag: u8,
    one: spec_fn(T) -> Seq<u8>,
    read: spec_fn(Seq<u8>) -> Parsed<T>,
    rest: Seq<u8>,
)
    requires
        forall|i: int, r: Seq<u8>|
            0 <= i < items.len() ==> #[trigger] read(one(items[i]) + r) == Ok::<
                _,
                ArfError,
            >((items[i], r)),
        rest.len() == 0 || rest[0] != tag,
    ensures
        parse_many(emit_all(items, tag, one) + rest, tag, read) == Ok::<_, ArfError>(
            (items, rest),
        ),
    decreases items.len(),
{
    let s = emit_all(items, tag, one) + rest;
    if items.len() == 0 {
        assert(s =~= rest);
        assert(items =~= Seq::<T>::empty());
    } else {
        let tail = items.drop_first();
        let after = emit_all(tail, tag, one) + rest;
        assert(s[0] == tag);
        assert(s.skip(1) =~= one(items[0]) + after);
        assert(read(one(items[0]) + after) == Ok::<_, ArfError>((items[0], after)));
        assert forall|i: int, r: Seq<u8>| 0 <= i < tail.len() implies #[trigger] read(
            one(tail[i]) + r,
        ) == Ok::<_, ArfError>((tail[i], r)) by {
            assert(tail[i] == items[i + 1]);
        }
        lemma_parse_many(tail, tag, one, read, rest);
        assert(seq![items[0]] + tail =~= items);
    }
}

/// The header of a well-formed container is read back, whatever follows.
pub proof fn lemma_parse_header(h: HeaderView, rest: Seq<u8>)
    requires
        h.wf(),
    ensures
        parse_header(emit_header(h) + rest) == Ok::<_, ArfError>((h, rest)),
{
    let tag = canonical_tag(h.library);
    let b = encode_utf8(tag);
    let s = emit_header(h) + rest;
    assert(is_ascii_chars(tag));
    is_ascii_chars_encode_utf8(tag);
    assert(b.len() == 6);
    assert(b[0] == tag[0] as u8 && b[1] == tag[1] as u8 && b[2] == tag[2] as u8);
    assert(s.take(6) =~= b);
    encode_utf8_valid_utf8(tag);
    assert(has_library_prefix(b) == h.library);
    let r2 = le32(h.entry_point) + rest;
    let r1 = seq![h.host_architecture.spec_byte()] + r2;
    let r0 = seq![h.architecture.spec_byte()] + r1;
    assert(s.skip(6) =~= r0);
    assert(r0.skip(1) =~= r1);
    assert(r1.skip(1) =~= r2);
    h.architecture.lemma_byte_round_trip(0);
    h.host_architecture.lemma_byte_round_trip(0);
    lemma_parse_u32(h.entry_point, rest);
}

/// Requests that hold no data tag, and the data, are read back.
pub proof fn lemma_parse_tail(requests: Seq<u8>, data: Seq<u8>)
    requires
        forall|i: int| 0 <= i < requests.len() ==> #[trigger] requests[i] != TAG_DATA,
    ensures
        parse_tail(emit_tail(requests, data)) == Ok::<_, ArfError>((requests, data)),
{
    let s = emit_tail(requests, data);
    let r = s.skip(1);
    let k = requests.len() as int;
    assert(s[0] == TAG_REQUESTS);
    assert forall|i: int| 0 <= i < k implies #[trigger] r[i] != TAG_DATA by {
        assert(r[i] == requests[i]);
    }
    assert(r[k] == TAG_DATA);
    lemma_index_of_byte(r, TAG_DATA, k);
    assert(r.take(k) =~= requests);
    assert(r.skip(k + 1) =~= data);
}

/// The sections are read back, if what follows does not start with their
/// tag.
pub proof fn lemma_parse_sections(items: Seq<SectionView>, rest: Seq<u8>)
    requires
        forall|i: int| 0 <= i < items.len() ==> is_c_name(#[trigger] items[i].name),
        rest.len() == 0 || rest[0] != TAG_SECTION,
    ensures
        parse_sections(emit_sections(items) + rest) == Ok::<_, ArfError>((items, rest)),
{
    assert forall|i: int, r: Seq<u8>| 0 <= i < items.len() implies #[trigger] parse_section(
        emit_section(items[i]) + r,
    ) == Ok::<_, ArfError>((items[i], r)) by {
        lemma_parse_section(items[i], r);
    }
    lemma_parse_many(
        items,
        TAG_SECTION,
        |v: SectionView| emit_section(v),
        |t: Seq<u8>| parse_section(t),
        rest,
    );
}

/// The symbols are read back, if what follows does not start with their
/// tag.
pub proof fn lemma_parse_symbols(items: Seq<SymbolView>, rest: Seq<u8>)
    requires
        forall|i: int| 0 <= i < items.len() ==> is_c_name(#[trigger] items[i].name),
        rest.len() == 0 || rest[0] != TAG_SYMBOL,
    ensures
        parse_symbols(emit_symbols(items) + rest) == Ok::<_, ArfError>((items, rest)),
{
    assert forall|i: int, r: Seq<u8>| 0 <= i < items.len() implies #[trigger] parse_symbol(
        emit_symbol(items[i]) + r,
    ) == Ok::<_, ArfError>((items[i], r)) by {
        lemma_parse_symbol(items[i], r);
    }
    lemma_parse_many(
        items,
        TAG_SYMBOL,
        |v: SymbolView| emit_symbol(v),
        |t: Seq<u8>| parse_symbol(t),
        rest,
    );
}

/// The libraries are read back, if what follows does not start with their
/// tag.
pub proof fn lemma_parse_libraries(items: Seq<LibraryView>, rest: Seq<u8>)
    requires
        forall|i: int| 0 <= i < items.len() ==> (#[trigger] items[i]).wf(),
        rest.len() == 0 || rest[0] != TAG_LIBRARY,
    ensures
        parse_libraries(emit_libraries(items) + rest) == Ok::<_, ArfError>((items, rest)),
{
    assert forall|i: int, r: Seq<u8>| 0 <= i < items.len() implies #[trigger] parse_library(
        emit_library(items[i]) + r,
    ) == Ok::<_, ArfError>((items[i], r)) by {
        lemma_parse_library(items[i], r);
    }
    lemma_parse_many(
        items,
        TAG_LIBRARY,
        |v: LibraryView| emit_library(v),
        |t: Seq<u8>| parse_library(t),
        rest,
    );
}

/// The fixes are read back, if what follows does not start with their tag.
pub proof fn lemma_parse_fixes(items: Seq<FixView>, rest: Seq<u8>)
    requires
        forall|i: int| 0 <= i < items.len() ==> is_c_name(#[trigger] items[i].name),
        rest.len() == 0 || rest[0] != TAG_FIX,
    ensures
        parse_fixes(emit_fixes(items) + rest) == Ok::<_, ArfError>((items, rest)),
{
    assert forall|i: int, r: Seq<u8>| 0 <= i < items.len() implies #[trigger] parse_fix(
        emit_fix(items[i]) + r,
    ) == Ok::<_, ArfError>((items[i], r)) by {
        lemma_parse_fix(items[i], r);
    }
    lemma_parse_many(items, TAG_FIX, |v: FixView| emit_fix(v), |t: Seq<u8>| parse_fix(t), rest);
}

/// What follows the fixes of `f` on the wire.
spec fn after_fixes(f: ArfFileView) -> Seq<u8> {
    emit_tail(f.requests, f.data)
}

/// What follows the libraries of `f` on the wire.
spec fn after_libraries(f: ArfFileView) -> Seq<u8> {
    emit_fixes(f.fixes) + after_fixes(f)
}

/// What follows the symbols of `f` on the wire.
spec fn after_symbols(f: ArfFileView) -> Seq<u8> {
    emit_libraries(f.libraries) + after_libraries(f)
}

/// What follows the sections of `f` on the wire.
spec fn after_sections(f: ArfFileView) -> Seq<u8> {
    emit_symbols(f.symbols) + after_symbols(f)
}

/// What follows the header of `f` on the wire.
spec fn after_header(f: ArfFileView) -> Seq<u8> {
    emit_sections(f.sections) + after_sections(f)
}

/// What follows a region never starts with the tag of that region.
proof fn lemma_region_starts(f: ArfFileView)
    ensures
        after_fixes(f).len() > 0 && after_fixes(f)[0] == TAG_REQUESTS,
        after_libraries(f).len() > 0 && after_libraries(f)[0] != TAG_LIBRARY,
        after_symbols(f).len() > 0 && after_symbols(f)[0] != TAG_SYMBOL,
        after_sections(f).len() > 0 && after_sections(f)[0] != TAG_SECTION,
{
    let t5 = after_fixes(f);
    let t4 = after_libraries(f);
    let t3 = after_symbols(f);
    let t2 = after_sections(f);
    lemma_emit_all_first(f.fixes, TAG_FIX, |v: FixView| emit_fix(v));
    lemma_emit_all_first(f.libraries, TAG_LIBRARY, |v: LibraryView| emit_library(v));
    lemma_emit_all_first(f.symbols, TAG_SYMBOL, |v: SymbolView| emit_symbol(v));
    assert(t5[0] == TAG_REQUESTS);
    assert(t4[0] == TAG_FIX || t4[0] == TAG_REQUESTS);
    assert(t3[0] == TAG_LIBRARY || t3[0] == TAG_FIX || t3[0] == TAG_REQUESTS);
    assert(t2[0] == TAG_SYMBOL || t2[0] == TAG_LIBRARY || t2[0] == TAG_FIX || t2[0]
        == TAG_REQUESTS);
}

/// The wire form of a container, region by region.
proof fn lemma_emit_split(f: ArfFileView)
    ensures
        emit(f) == emit_header(f.header) + after_header(f),
{
    assert(emit(f) =~= emit_header(f.header) + after_header(f));
}

/// Each region of a well-formed container is read back from where it
/// stands on the wire.
proof fn lemma_regions_round_trip(f: ArfFileView)
    requires
        f.wf(),
    ensures
        parse_header(emit(f)) == Ok::<_, ArfError>((f.header, after_header(f))),
        parse_sections(after_header(f)) == Ok::<_, ArfError>((f.sections, after_sections(f))),
        parse_symbols(after_sections(f)) == Ok::<_, ArfError>((f.symbols, after_symbols(f))),
        parse_libraries(after_symbols(f)) == Ok::<_, ArfError>((f.libraries, after_libraries(f))),
        parse_fixes(after_libraries(f)) == Ok::<_, ArfError>((f.fixes, after_fixes(f))),
        parse_tail(after_fixes(f)) == Ok::<_, ArfError>((f.requests, f.data)),
{
    lemma_emit_split(f);
    lemma_region_starts(f);
    lemma_parse_header(f.header, after_header(f));
    lemma_parse_sections(f.sections, after_sections(f));
    lemma_parse_symbols(f.symbols, after_symbols(f));
    lemma_parse_libraries(f.libraries, after_libraries(f));
    lemma_parse_fixes(f.fixes, after_fixes(f));
    lemma_parse_tail(f.requests, f.data);
}

/// The whole is read as its parts are.
proof fn lemma_parse_parts(
    s: Seq<u8>,
    f: ArfFileView,
    r1: Seq<u8>,
    r2: Seq<u8>,
    r3: Seq<u8>,
    r4: Seq<u8>,
    r5: Seq<u8>,
)
    requires
        parse_header(s) == Ok::<_, ArfError>((f.header, r1)),
        parse_sections(r1) == Ok::<_, ArfError>((f.sections, r2)),
        parse_symbols(r2) == Ok::<_, ArfError>((f.symbols, r3)),
        parse_libraries(r3) == Ok::<_, ArfError>((f.libraries, r4)),
        parse_fixes(r4) == Ok::<_, ArfError>((f.fixes, r5)),
        parse_tail(r5) == Ok::<_, ArfError>((f.requests, f.data)),
    ensures
        parse(s) == Ok::<_, ArfError>(f),
{
}

/// Reading the wire form of a well-formed container gives that container.
pub proof fn lemma_round_trip(f: ArfFileView)
    requires
        f.wf(),
    ensures
        parse(emit(f)) == Ok::<_, ArfError>(f),
{
    lemma_regions_round_trip(f);
    lemma_parse_parts(
        emit(f),
        f,
        after_header(f),
        after_sections(f),
        after_symbols(f),
        after_libraries(f),
        after_fixes(f),
    );
}

/// Writing what was read from the wire form of a well-formed container
/// gives the same bytes again.
pub proof fn lemma_emit_idempotent(f: ArfFileView)
    requires
        f.wf(),
    ensures
        parse(emit(f)) matches Ok(g) && emit(g) == emit(f),
{
    lemma_round_trip(f);
}

/// A name that was read holds no NUL.
pub proof fn lemma_parsed_name_wf(s: Seq<u8>)
    ensures
        parse_name(s) matches Ok((name, rest)) ==> is_c_name(name) && rest.len() < s.len(),
{
    let k = index_of_byte(s, 0);
    lemma_index_of_byte_is_first(s, 0);
    if k < s.len() && valid_utf8(s.take(k)) {
        decode_utf8_encode_utf8(s.take(k));
        assert forall|i: int| 0 <= i < s.take(k).len() implies #[trigger] s.take(k)[i] != 0 by {
            assert(s[i] != 0);
        }
    }
}

/// In a region that was read, every entry has what each entry that can be
/// read has.
pub proof fn lemma_parsed_many<T>(
    s: Seq<u8>,
    tag: u8,
    read: spec_fn(Seq<u8>) -> Parsed<T>,
    good: spec_fn(T) -> bool,
)
    requires
        forall|t: Seq<u8>| (#[trigger] read(t)) matches Ok((item, rest)) ==> good(item),
    ensures
        parse_many(s, tag, read) matches Ok((items, rest)) ==> forall|i: int|
            0 <= i < items.len() ==> good(#[trigger] items[i]),
    decreases s.len(),
{
    if s.len() > 0 && s[0] == tag {
        if let Ok((item, rest)) = read(s.skip(1)) {
            if rest.len() < s.len() {
                lemma_parsed_many(rest, tag, read, good);
            }
        }
    }
}

/// Whatever is read is well-formed.
pub proof fn lemma_parsed_wf(s: Seq<u8>)
    ensures
        parse(s) matches Ok(f) ==> f.wf(),
{
    if let Ok(f) = parse(s) {
        let r1 = parse_header(s)->Ok_0.1;
        let r2 = parse_sections(r1)->Ok_0.1;
        let r3 = parse_symbols(r2)->Ok_0.1;
        let r4 = parse_libraries(r3)->Ok_0.1;
        let r5 = parse_fixes(r4)->Ok_0.1;
        assert(f.header.wf());
        assert forall|i: int| 0 <= i < f.sections.len() implies is_c_name(
            #[trigger] f.sections[i].name,
        ) by {
            assert forall|t: Seq<u8>| (#[trigger] parse_section(t)) matches Ok((item, rest)) ==> is_c_name(item.name) by {
                lemma_parsed_name_wf(t);
            }
            lemma_parsed_many(
                r1,
                TAG_SECTION,
                |t: Seq<u8>| parse_section(t),
                |v: SectionView| is_c_name(v.name),
            );
        }
        assert forall|i: int| 0 <= i < f.symbols.len() implies is_c_name(
            #[trigger] f.symbols[i].name,
        ) by {
            assert forall|t: Seq<u8>| (#[trigger] parse_symbol(t)) matches Ok((item, rest)) ==> is_c_name(item.name) by {
                lemma_parsed_name_wf(t);
            }
            lemma_parsed_many(
                r2,
                TAG_SYMBOL,
                |t: Seq<u8>| parse_symbol(t),
                |v: SymbolView| is_c_name(v.name),
            );
        }
        assert forall|i: int| 0 <= i < f.libraries.len() implies (#[trigger] f.libraries[i]).wf() by {
            assert forall|t: Seq<u8>| (#[trigger] parse_library(t)) matches Ok((item, rest)) ==> item.wf() by {
                lemma_parsed_name_wf(t);
                if let Ok((name, t1)) = parse_name(t) {
                    if t1.len() >= 1 {
                        lemma_parsed_name_wf(t1.skip(1));
                    }
                }
            }
            lemma_parsed_many(
                r3,
                TAG_LIBRARY,
                |t: Seq<u8>| parse_library(t),
                |v: LibraryView| v.wf(),
            );
        }
        assert forall|i: int| 0 <= i < f.fixes.len() implies is_c_name(#[trigger] f.fixes[i].name) by {
            assert forall|t: Seq<u8>| (#[trigger] parse_fix(t)) matches Ok((item, rest)) ==> is_c_name(item.name) by {
                lemma_parsed_name_wf(t);
            }
            lemma_parsed_many(r4, TAG_FIX, |t: Seq<u8>| parse_fix(t), |v: FixView| is_c_name(v.name));
        }
        assert forall|i: int| 0 <= i < f.requests.len() implies #[trigger] f.requests[i]
            != TAG_DATA by {
            lemma_index_of_byte_is_first(r5.skip(1), TAG_DATA);
        }
    }
}

/// What a name was read from is its wire form, and then what follows.
pub proof fn lemma_name_read_from(s: Seq<u8>)
    ensures
        parse_name(s) matches Ok((name, rest)) ==> s == emit_name(name) + rest,
{
    let k = index_of_byte(s, 0);
    lemma_index_of_byte_is_first(s, 0);
    if k < s.len() && valid_utf8(s.take(k)) {
        decode_utf8_encode_utf8(s.take(k));
        assert(s =~= s.take(k).push(0u8) + s.skip(k + 1));
    }
}

/// What a word was read from is its four bytes, and then what follows.
pub proof fn lemma_u32_read_from(s: Seq<u8>)
    ensures
        parse_u32(s) matches Ok((x, rest)) ==> s == le32(x) + rest,
{
    if s.len() >= 4 {
        lemma_le32_encode(s[0], s[1], s[2], s[3]);
        assert(s =~= seq![s[0], s[1], s[2], s[3]] + s.skip(4));
    }
}

/// What a section was read from is its wire form, and then what follows.
pub proof fn lemma_section_read_from(s: Seq<u8>)
    ensures
        parse_section(s) matches Ok((v, rest)) ==> s == emit_section(v) + rest,
{
    if let Ok((v, rest)) = parse_section(s) {
        let r1 = parse_name(s)->Ok_0.1;
        let r2 = parse_u32(r1)->Ok_0.1;
        lemma_name_read_from(s);
        lemma_u32_read_from(r1);
        assert(r2 =~= seq![v.permissions] + rest);
        assert(s =~= emit_section(v) + rest);
    }
}

/// What a symbol was read from is its wire form, and then what follows.
pub proof fn lemma_symbol_read_from(s: Seq<u8>)
    ensures
        parse_symbol(s) matches Ok((v, rest)) ==> s == emit_symbol(v) + rest,
{
    if let Ok((v, rest)) = parse_symbol(s) {
        let r1 = parse_name(s)->Ok_0.1;
        let r2 = r1.skip(1);
        let r3 = r2.skip(1);
        lemma_name_read_from(s);
        lemma_u32_read_from(r3);
        assert(r1 =~= seq![v.resolution, v.typ] + r3);
        assert(s =~= emit_symbol(v) + rest);
    }
}

/// What a library was read from is its wire form, and then what follows.
pub proof fn lemma_library_read_from(s: Seq<u8>)
    ensures
        parse_library(s) matches Ok((v, rest)) ==> s == emit_library(v) + rest,
{
    if let Ok((v, rest)) = parse_library(s) {
        let r1 = parse_name(s)->Ok_0.1;
        let r2 = r1.skip(1);
        lemma_name_read_from(s);
        assert(r1 =~= seq![v.availability] + r2);
        if v.availability == LIB_RESOLVED {
            lemma_name_read_from(r2);
        }
        assert(s =~= emit_library(v) + rest);
    }
}

/// What a fix was read from is its wire form, and then what follows.
pub proof fn lemma_fix_read_from(s: Seq<u8>)
    ensures
        parse_fix(s) matches Ok((v, rest)) ==> s == emit_fix(v) + rest,
{
    if let Ok((v, rest)) = parse_fix(s) {
        let r1 = parse_name(s)->Ok_0.1;
        lemma_name_read_from(s);
        lemma_u32_read_from(r1);
        assert(s =~= emit_fix(v) + rest);
    }
}

/// What a region was read from is its wire form, and then what follows, if
/// that holds of each entry.
pub proof fn lemma_many_read_from<T>(
    s: Seq<u8>,
    tag: u8,
    one: spec_fn(T) -> Seq<u8>,
    read: spec_fn(Seq<u8>) -> Parsed<T>,
)
    requires
        forall|t: Seq<u8>| (#[trigger] read(t)) matches Ok((item, rest)) ==> t == one(item) + rest,
    ensures
        parse_many(s, tag, read) matches Ok((items, rest)) ==> s == emit_all(items, tag, one) + rest,
    decreases s.len(),
{
    if let Ok((items, end)) = parse_many(s, tag, read) {
        if s.len() > 0 && s[0] == tag {
            let (item, rest) = read(s.skip(1))->Ok_0;
            lemma_many_read_from(rest, tag, one, read);
            let others = parse_many(rest, tag, read)->Ok_0.0;
            assert(items == seq![item] + others);
            assert(items.drop_first() =~= others);
            assert(s =~= seq![tag] + s.skip(1));
            assert(s =~= emit_all(items, tag, one) + end);
        } else {
            assert(s =~= emit_all(items, tag, one) + end);
        }
    }
}

/// What the requests and the data were read from is their wire form.
pub proof fn lemma_tail_read_from(s: Seq<u8>)
    ensures
        parse_tail(s) matches Ok((requests, data)) ==> s == emit_tail(requests, data),
{
    if let Ok((requests, data)) = parse_tail(s) {
        let r = s.skip(1);
        let k = index_of_byte(r, TAG_DATA);
        lemma_index_of_byte_is_first(r, TAG_DATA);
        assert(r =~= r.take(k) + seq![TAG_DATA] + r.skip(k + 1));
        assert(s =~= seq![TAG_REQUESTS] + r);
        assert(s =~= emit_tail(requests, data));
    }
}

/// What follows the tag of a header that was read is the rest of the wire
/// form of the header, and then what follows the header.
pub proof fn lemma_header_read_from(s: Seq<u8>)
    ensures
        parse_header(s) matches Ok((h, rest)) ==> h.wf() && emit_header(h) + rest == encode_utf8(
            canonical_tag(h.library),
        ) + s.skip(6),
{
    if let Ok((h, rest)) = parse_header(s) {
        let r0 = s.skip(6);
        let r1 = r0.skip(1);
        let r2 = r1.skip(1);
        h.architecture.lemma_byte_round_trip(r0[0]);
        h.host_architecture.lemma_byte_round_trip(r1[0]);
        lemma_u32_read_from(r2);
        assert(r0 =~= seq![h.architecture.spec_byte(), h.host_architecture.spec_byte()] + r2);
        assert(emit_header(h) + rest =~= encode_utf8(canonical_tag(h.library)) + r0);
    }
}

/// The regions of what was read, as they stand on the wire.
proof fn lemma_regions_read_from(s: Seq<u8>)
    ensures
        parse(s) matches Ok(f) ==> {
            let r1 = parse_header(s)->Ok_0.1;
            let r2 = parse_sections(r1)->Ok_0.1;
            let r3 = parse_symbols(r2)->Ok_0.1;
            let r4 = parse_libraries(r3)->Ok_0.1;
            let r5 = parse_fixes(r4)->Ok_0.1;
            &&& emit_header(f.header) + r1 == encode_utf8(canonical_tag(f.header.library)) + s.skip(
                6,
            )
            &&& r1 == emit_sections(f.sections) + r2
            &&& r2 == emit_symbols(f.symbols) + r3
            &&& r3 == emit_libraries(f.libraries) + r4
            &&& r4 == emit_fixes(f.fixes) + r5
            &&& r5 == emit_tail(f.requests, f.data)
        },
{
    if let Ok(f) = parse(s) {
        let r1 = parse_header(s)->Ok_0.1;
        let r2 = parse_sections(r1)->Ok_0.1;
        let r3 = parse_symbols(r2)->Ok_0.1;
        let r4 = parse_libraries(r3)->Ok_0.1;
        let r5 = parse_fixes(r4)->Ok_0.1;
        lemma_header_read_from(s);
        assert forall|t: Seq<u8>| (#[trigger] parse_section(t)) matches Ok((item, rest)) ==> t
            == emit_section(item) + rest by {
            lemma_section_read_from(t);
        }
        lemma_many_read_from(
            r1,
            TAG_SECTION,
            |v: SectionView| emit_section(v),
            |t: Seq<u8>| parse_section(t),
        );
        assert forall|t: Seq<u8>| (#[trigger] parse_symbol(t)) matches Ok((item, rest)) ==> t
            == emit_symbol(item) + rest by {
            lemma_symbol_read_from(t);
        }
        lemma_many_read_from(
            r2,
            TAG_SYMBOL,
            |v: SymbolView| emit_symbol(v),
            |t: Seq<u8>| parse_symbol(t),
        );
        assert forall|t: Seq<u8>| (#[trigger] parse_library(t)) matches Ok((item, rest)) ==> t
            == emit_library(item) + rest by {
            lemma_library_read_from(t);
        }
        lemma_many_read_from(
            r3,
            TAG_LIBRARY,
            |v: LibraryView| emit_library(v),
            |t: Seq<u8>| parse_library(t),
        );
        assert forall|t: Seq<u8>| (#[trigger] parse_fix(t)) matches Ok((item, rest)) ==> t
            == emit_fix(item) + rest by {
            lemma_fix_read_from(t);
        }
        lemma_many_read_from(r4, TAG_FIX, |v: FixView| emit_fix(v), |t: Seq<u8>| parse_fix(t));
        lemma_tail_read_from(r5);
    }
}

/// Writing what was read gives the bytes that were read, but for the
/// version tag, which is the canonical one.
pub proof fn lemma_read_then_written(s: Seq<u8>)
    ensures
        parse(s) matches Ok(f) ==> s.len() >= 6 && emit(f) == encode_utf8(
            canonical_tag(f.header.library),
        ) + s.skip(6),
{
    if let Ok(f) = parse(s) {
        let r1 = parse_header(s)->Ok_0.1;
        let r2 = parse_sections(r1)->Ok_0.1;
        let r3 = parse_symbols(r2)->Ok_0.1;
        let r4 = parse_libraries(r3)->Ok_0.1;
        lemma_regions_read_from(s);
        assert(emit(f) =~= emit_header(f.header) + (emit_sections(f.sections) + (emit_symbols(
            f.symbols,
        ) + (emit_libraries(f.libraries) + (emit_fixes(f.fixes) + emit_tail(f.requests, f.data))))));
    }
}

} // verus!
