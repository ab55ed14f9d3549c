//! Writing a container as bytes.

use crate::format::views;
use crate::format::ArfFile;
use crate::format::Fix;
use crate::format::FixView;
use crate::format::Library;
use crate::format::LibraryView;
use crate::format::Request;
use crate::format::Section;
use crate::format::SectionView;
use crate::format::Symbol;
use crate::format::SymbolView;
use crate::format::LIB_RESOLVED;
use crate::laws::lemma_emit_all_push;
use crate::laws::lemma_round_trip;
use crate::text::push_bytes;
use crate::text::push_le32;
use crate::wire::{
    emit, emit_fix, emit_fixes, emit_header, emit_libraries, emit_library, emit_name,
    emit_section, emit_sections, emit_symbol, emit_symbols, emit_tail, parse, TAG_DATA, TAG_FIX,
    TAG_LIBRARY, TAG_REQUESTS, TAG_SECTION, TAG_SYMBOL,
};
use vstd::prelude::*;
use vstd::string::*;

verus! {

/// Appends a name and its terminator.
fn write_name(out: &mut Vec<u8>, name: &str)
    ensures
        final(out)@ == old(out)@ + emit_name(name@),
{
    push_bytes(out, name.as_bytes());
    out.push(0u8);
    assert(out@ =~= old(out)@ + emit_name(name@));
}

/// Appends the sections region.
fn write_sections(out: &mut Vec<u8>, items: &Vec<Section>)
    ensures
        final(out)@ == old(out)@ + emit_sections(views(items@)),
{
    let ghost all = views(items@);
    let mut i: usize = 0;
    assert(all.take(0) =~= Seq::<SectionView>::empty());
    while i < items.len()
        invariant
            i <= items.len(),
            all == views(items@),
            out@ == old(out)@ + emit_sections(all.take(i as int)),
        decreases items.len() - i,
    {
        let ghost before = out@;
        let item = &items[i];
        out.push(TAG_SECTION);
        write_name(out, item.name());
        push_le32(out, item.offset());
        out.push(item.permissions());
        proof {
            let v = all[i as int];
            assert(v == item@);
            assert(out@ =~= before + seq![TAG_SECTION] + emit_section(v));
            lemma_emit_all_push(
                all.take(i as int),
                v,
                TAG_SECTION,
                |s: SectionView| emit_section(s),
            );
            assert(all.take(i as int + 1) =~= all.take(i as int).push(v));
            assert(out@ =~= old(out)@ + emit_sections(all.take(i as int + 1)));
        }
        i += 1;
    }
    assert(all.take(i as int) =~= all);
}

/// Appends the symbols region.
fn write_symbols(out: &mut Vec<u8>, items: &Vec<Symbol>)
    ensures
        final(out)@ == old(out)@ + emit_symbols(views(items@)),
{
    let ghost all = views(items@);
    let mut i: usize = 0;
    assert(all.take(0) =~= Seq::<SymbolView>::empty());
    while i < items.len()
        invariant
            i <= items.len(),
            all == views(items@),
            out@ == old(out)@ + emit_symbols(all.take(i as int)),
        decreases items.len() - i,
    {
        let ghost before = out@;
        let item = &items[i];
        out.push(TAG_SYMBOL);
        write_name(out, item.name());
        out.push(item.resolution());
        out.push(item.typ());
        push_le32(out, item.addr());
        proof {
            let v = all[i as int];
            assert(v == item@);
            assert(out@ =~= before + seq![TAG_SYMBOL] + emit_symbol(v));
            lemma_emit_all_push(all.take(i as int), v, TAG_SYMBOL, |s: SymbolView| emit_symbol(s));
            assert(all.take(i as int + 1) =~= all.take(i as int).push(v));
            assert(out@ =~= old(out)@ + emit_symbols(all.take(i as int + 1)));
        }
        i += 1;
    }
    assert(all.take(i as int) =~= all);
}

/// Appends the libraries region.
fn write_libraries(out: &mut Vec<u8>, items: &Vec<Library>)
    ensures
        final(out)@ == old(out)@ + emit_libraries(views(items@)),
{
    let ghost all = views(items@);
    let mut i: usize = 0;
    assert(all.take(0) =~= Seq::<LibraryView>::empty());
    while i < items.len()
        invariant
            i <= items.len(),
            all == views(items@),
            out@ == old(out)@ + emit_libraries(all.take(i as int)),
        decreases items.len() - i,
    {
        let ghost before = out@;
        let item = &items[i];
        out.push(TAG_LIBRARY);
        write_name(out, item.name());
        out.push(item.availability());
        if item.availability() == LIB_RESOLVED {
            match item.path() {
                Some(p) => write_name(out, p),
                None => {
                    proof {
                        reveal_strlit("");
                    }
                    assert(""@ =~= Seq::<char>::empty());
                    write_name(out, "")
                },
            }
        }
        proof {
            let v = all[i as int];
            assert(v == item@);
            assert(out@ =~= before + seq![TAG_LIBRARY] + emit_library(v));
            lemma_emit_all_push(
                all.take(i as int),
                v,
                TAG_LIBRARY,
                |l: LibraryView| emit_library(l),
            );
            assert(all.take(i as int + 1) =~= all.take(i as int).push(v));
            assert(out@ =~= old(out)@ + emit_libraries(all.take(i as int + 1)));
        }
        i += 1;
    }
    assert(all.take(i as int) =~= all);
}

/// Appends the fixes region.
fn write_fixes(out: &mut Vec<u8>, items: &Vec<Fix>)
    ensures
        final(out)@ == old(out)@ + emit_fixes(views(items@)),
{
    let ghost all = views(items@);
    let mut i: usize = 0;
    assert(all.take(0) =~= Seq::<FixView>::empty());
    while i < items.len()
        invariant
            i <= items.len(),
            all == views(items@),
            out@ == old(out)@ + emit_fixes(all.take(i as int)),
        decreases items.len() - i,
    {
        let ghost before = out@;
        let item = &items[i];
        out.push(TAG_FIX);
        write_name(out, item.name());
        push_le32(out, item.offset());
        proof {
            let v = all[i as int];
            assert(v == item@);
            assert(out@ =~= before + seq![TAG_FIX] + emit_fix(v));
            lemma_emit_all_push(all.take(i as int), v, TAG_FIX, |f: FixView| emit_fix(f));
            assert(all.take(i as int + 1) =~= all.take(i as int).push(v));
            assert(out@ =~= old(out)@ + emit_fixes(all.take(i as int + 1)));
        }
        i += 1;
    }
    assert(all.take(i as int) =~= all);
}

/// Appends the request bytes.
fn write_requests(out: &mut Vec<u8>, items: &Vec<Request>)
    ensures
        final(out)@ == old(out)@ + views(items@),
{
    let mut i: usize = 0;
    while i < items.len()
        invariant
            i <= items.len(),
            out@ == old(out)@ + views(items@).take(i as int),
        decreases items.len() - i,
    {
        out.push(items[i].byte());
        i += 1;
        assert(out@ =~= old(out)@ + views(items@).take(i as int));
    }
    assert(views(items@).take(i as int) =~= views(items@));
}

impl ArfFile {
    /// The wire form of the container. A well-formed container is read back
    /// from it unchanged.
    pub fn to_bytes(&self) -> (bytes: Vec<u8>)
        ensures
            bytes@ == emit(self@),
            self@.wf() ==> parse(bytes@) == Ok::<_, crate::error::ArfError>(self@),
    {
        let mut out: Vec<u8> = Vec::new();
        let header = self.header();
        push_bytes(&mut out, header.version_str().as_bytes());
        out.push(header.architecture().to_byte());
        out.push(header.host_architecture().to_byte());
        push_le32(&mut out, header.entry_point());
        assert(out@ =~= emit_header(self@.header));
        write_sections(&mut out, self.sections());
        write_symbols(&mut out, self.symbols());
        write_libraries(&mut out, self.libraries());
        write_fixes(&mut out, self.fixes());
        let ghost regions = out@;
        out.push(TAG_REQUESTS);
        write_requests(&mut out, self.requests());
        out.push(TAG_DATA);
        push_bytes(&mut out, self.data().as_slice());
        proof {
            assert(out@ =~= regions + emit_tail(self@.requests, self@.data));
            if self@.wf() {
                lemma_round_trip(self@);
            }
        }
        out
    }
}

} // verus!
