//! The symbols table of a container, from the static symbol table of an
//! ELF object.

use crate::elf_image::ElfImage;
use crate::elf_image::ElfImageView;
use crate::elf_image::ElfSectionView;
use crate::elf_image::ElfSymbolView;
use crate::elf_image::SHN_COMMON;
use crate::elf_image::SHN_UNDEF;
use crate::elf_image::STB_GLOBAL;
use crate::elf_image::STB_LOCAL;
use crate::elf_image::STB_WEAK;
use crate::error::ArfError;
use crate::format::symbol_names_distinct;
use crate::format::views;
use crate::format::ArfFile;
use crate::format::Section;
use crate::format::SectionView;
use crate::format::Symbol;
use crate::format::SymbolView;
use crate::sections::find_section;
use crate::sections::lemma_str_len;
use crate::sections::has_section;
use crate::sections::low32;
use crate::sections::sections_table;
use crate::sections::truncate32;
use crate::text::is_c_name;
use crate::text::is_c_str;
use crate::text::str_eq;
use vstd::prelude::*;
use vstd::string::*;

verus! {

/// A symbol that is defined in the object.
pub const RESOLUTION_DEFINED: u8 = 0;

/// A symbol that the object leaves undefined.
pub const RESOLUTION_UNDEFINED: u8 = 1;

/// A common symbol.
pub const RESOLUTION_COMMON: u8 = 2;

/// Some symbol of `symbols` has the name `name`.
pub open spec fn has_symbol(symbols: Seq<SymbolView>, name: Seq<char>) -> bool {
    exists|i: int| 0 <= i < symbols.len() && (#[trigger] symbols[i]).name == name
}

/// The type byte for a binding: 0 for local, 1 for global, 2 for weak; a
/// symbol of another binding is left out.
pub open spec fn binding_of(bind: u8) -> Option<u8> {
    if bind == STB_LOCAL {
        Some(0u8)
    } else if bind == STB_GLOBAL {
        Some(1u8)
    } else if bind == STB_WEAK {
        Some(2u8)
    } else {
        None
    }
}

/// The resolution byte for a section index.
pub open spec fn resolution_of(shndx: u16) -> u8 {
    if shndx == SHN_UNDEF {
        RESOLUTION_UNDEFINED
    } else if shndx == SHN_COMMON {
        RESOLUTION_COMMON
    } else {
        RESOLUTION_DEFINED
    }
}

/// The offset of the first section of `table` that has the name `name`; 0
/// if there is none.
pub open spec fn section_offset(table: Seq<SectionView>, name: Seq<char>) -> u32
    decreases table.len(),
{
    if table.len() == 0 {
        0
    } else if table[0].name == name {
        table[0].offset
    } else {
        section_offset(table.drop_first(), name)
    }
}

/// What is added to the value of a symbol of section index `shndx`: the
/// offset under which the sections table has the section of that index; 0
/// where there is no such section, where its name is empty, and where the
/// table does not have it.
pub open spec fn symbol_base(
    headers: Seq<ElfSectionView>,
    table: Seq<SectionView>,
    shndx: u16,
) -> u32 {
    if shndx < headers.len() && headers[shndx as int].name.len() > 0 {
        section_offset(table, headers[shndx as int].name)
    } else {
        0
    }
}

/// The address of a symbol in the container: the low 32 bits of its value,
/// plus the offset of its section.
pub open spec fn symbol_address(
    headers: Seq<ElfSectionView>,
    table: Seq<SectionView>,
    s: ElfSymbolView,
) -> int {
    low32(s.value) + symbol_base(headers, table, s.shndx)
}

/// Whether a symbol adds an entry to `symbols`: its name is not empty and
/// not in the table yet, and its binding is local, global or weak.
pub open spec fn is_new_symbol(symbols: Seq<SymbolView>, s: ElfSymbolView) -> bool {
    &&& s.name.len() > 0
    &&& !has_symbol(symbols, s.name)
    &&& binding_of(s.bind) is Some
}

/// The entry that a symbol is recorded as.
pub open spec fn recorded_symbol(
    headers: Seq<ElfSectionView>,
    table: Seq<SectionView>,
    s: ElfSymbolView,
) -> SymbolView {
    SymbolView {
        name: s.name,
        resolution: resolution_of(s.shndx),
        typ: binding_of(s.bind)->0,
        addr: symbol_address(headers, table, s) as u32,
    }
}

/// The symbols table for the first `n` symbols: one entry for each symbol
/// that adds one, in the order of the symbols. A name that holds a NUL is
/// malformed input; an address beyond 32 bits is an overflow.
pub open spec fn symbols_table(
    symbols: Seq<ElfSymbolView>,
    headers: Seq<ElfSectionView>,
    table: Seq<SectionView>,
    n: int,
) -> Result<Seq<SymbolView>, ArfError>
    decreases n,
{
    if n <= 0 {
        Ok(Seq::empty())
    } else {
        match symbols_table(symbols, headers, table, n - 1) {
            Err(e) => Err(e),
            Ok(done) => if !is_new_symbol(done, symbols[n - 1]) {
                Ok(done)
            } else if !is_c_name(symbols[n - 1].name) {
                Err(ArfError::MalformedInput)
            } else if symbol_address(headers, table, symbols[n - 1]) > u32::MAX {
                Err(ArfError::IntegerOverflow)
            } else {
                Ok(done.push(recorded_symbol(headers, table, symbols[n - 1])))
            },
        }
    }
}

/// The symbols table of a container made from `image`, whose sections
/// table is `table`: empty for an object without a static symbol table.
pub open spec fn symbols_of(image: ElfImageView, table: Seq<SectionView>) -> Result<
    Seq<SymbolView>,
    ArfError,
> {
    match image.symbols {
        None => Ok(Seq::empty()),
        Some(symbols) => symbols_table(symbols, image.sections, table, symbols.len() as int),
    }
}

/// The place of the first symbol of `symbols` that has the name `name`.
fn find_symbol(symbols: &Vec<Symbol>, name: &str) -> (r: Option<usize>)
    ensures
        match r {
            Some(i) => i < symbols.len() && symbols@[i as int]@.name == name@,
            None => !has_symbol(views(symbols@), name@),
        },
{
    let mut i: usize = 0;
    while i < symbols.len()
        invariant
            i <= symbols.len(),
            forall|j: int| 0 <= j < i ==> (#[trigger] symbols@[j])@.name != name@,
        decreases symbols.len() - i,
    {
        if str_eq(symbols[i].name(), name) {
            return Some(i);
        }
        i += 1;
    }
    assert forall|j: int| 0 <= j < views(symbols@).len() implies (#[trigger] views(
        symbols@,
    )[j]).name != name@ by {
        assert(symbols@[j]@.name != name@);
    }
    None
}

/// The offset of the first section that has the name `name`, or 0.
pub fn offset_of_section(sections: &Vec<Section>, name: &str) -> (r: u32)
    ensures
        r == section_offset(views(sections@), name@),
{
    let found = find_section(sections, name);
    proof {
        match found {
            Some(i) => lemma_section_offset_at(views(sections@), name@, i as int),
            None => lemma_section_offset_none(views(sections@), name@),
        }
    }
    match found {
        Some(i) => sections[i].offset(),
        None => 0,
    }
}

/// The offset of a name is that of the first section that has it.
pub proof fn lemma_section_offset_at(table: Seq<SectionView>, name: Seq<char>, i: int)
    requires
        0 <= i < table.len(),
        table[i].name == name,
        forall|j: int| 0 <= j < i ==> (#[trigger] table[j]).name != name,
    ensures
        section_offset(table, name) == table[i].offset,
    decreases i,
{
    if i > 0 {
        assert(table[0].name != name);
        let tail = table.drop_first();
        assert forall|j: int| 0 <= j < i - 1 implies (#[trigger] tail[j]).name != name by {
            assert(table[j + 1].name != name);
        }
        lemma_section_offset_at(tail, name, i - 1);
    }
}

/// The offset of a name that no section has is 0.
pub proof fn lemma_section_offset_none(table: Seq<SectionView>, name: Seq<char>)
    requires
        !has_section(table, name),
    ensures
        section_offset(table, name) == 0,
    decreases table.len(),
{
    if table.len() > 0 {
        assert(table[0].name != name);
        let tail = table.drop_first();
        assert forall|j: int| 0 <= j < tail.len() implies (#[trigger] tail[j]).name != name by {
            assert(table[j + 1].name != name);
        }
        lemma_section_offset_none(tail, name);
    }
}

/// The symbols table of a container: one entry for each symbol of the
/// static symbol table of `image` whose name is not empty and was not
/// recorded before and whose binding is local, global or weak. The address
/// of a symbol is its value plus the offset under which `executable` has
/// the symbol's section.
pub fn get_symbols(image: &ElfImage, executable: &ArfFile) -> (r: Result<Vec<Symbol>, ArfError>)
    ensures
        match r {
            Ok(table) => symbols_of(image@, executable@.sections) == Ok::<_, ArfError>(
                views(table@),
            ),
            Err(e) => symbols_of(image@, executable@.sections) == Err::<Seq<SymbolView>, _>(e),
        },
{
    let symbols = match &image.symbols {
        Some(s) => s,
        None => {
            let none: Vec<Symbol> = Vec::new();
            assert(views(none@) =~= Seq::<SymbolView>::empty());
            return Ok(none);
        },
    };
    let sections = executable.sections();
    let ghost source = image@.symbols->0;
    let ghost headers = image@.sections;
    let ghost table = executable@.sections;
    let mut done: Vec<Symbol> = Vec::new();
    let mut i: usize = 0;
    assert(views(done@) =~= Seq::<SymbolView>::empty());
    while i < symbols.len()
        invariant
            i <= symbols.len(),
            source == Seq::new(symbols@.len(), |k: int| symbols@[k]@),
            image@.symbols == Some(source),
            headers == image@.sections,
            table == views(sections@),
            table == executable@.sections,
            symbols_table(source, headers, table, i as int) == Ok::<_, ArfError>(views(done@)),
        decreases symbols.len() - i,
    {
        let symbol = &symbols[i];
        assert(source[i as int] == symbol@);
        let name = symbol.name.as_str();
        let empty = name.as_bytes().len() == 0;
        let found = find_symbol(&done, name);
        let typ: Option<u8> = if symbol.bind == STB_LOCAL {
            Some(0u8)
        } else if symbol.bind == STB_GLOBAL {
            Some(1u8)
        } else if symbol.bind == STB_WEAK {
            Some(2u8)
        } else {
            None
        };
        proof {
            lemma_str_len(name@);
            if found is Some {
                assert(views(done@)[found->0 as int].name == name@);
            }
        }
        if !empty && found.is_none() && typ.is_some() {
            if !is_c_str(name) {
                proof {
                    lemma_symbols_table_fails(source, headers, table, i + 1, symbols.len() as int);
                }
                return Err(ArfError::MalformedInput);
            }
            let resolution = if symbol.shndx == SHN_UNDEF {
                RESOLUTION_UNDEFINED
            } else if symbol.shndx == SHN_COMMON {
                RESOLUTION_COMMON
            } else {
                RESOLUTION_DEFINED
            };
            let index = symbol.shndx as usize;
            let base: u32 = if index < image.sections.len() {
                let header = &image.sections[index];
                assert(headers[index as int] == header@);
                let section = header.name.as_str();
                proof {
                    lemma_str_len(section@);
                }
                if section.as_bytes().len() > 0 {
                    offset_of_section(sections, section)
                } else {
                    0
                }
            } else {
                0
            };
            let value = truncate32(symbol.value);
            if value > u32::MAX - base {
                proof {
                    lemma_symbols_table_fails(source, headers, table, i + 1, symbols.len() as int);
                }
                return Err(ArfError::IntegerOverflow);
            }
            let entry = Symbol::new(name.to_owned(), resolution, typ.unwrap(), value + base);
            assert(views(done@.push(entry)) =~= views(done@).push(entry@));
            done.push(entry);
        }
        i += 1;
    }
    Ok(done)
}

/// Once a symbol cannot be recorded, the table has failed for good.
pub proof fn lemma_symbols_table_fails(
    symbols: Seq<ElfSymbolView>,
    headers: Seq<ElfSectionView>,
    table: Seq<SectionView>,
    k: int,
    m: int,
)
    requires
        0 <= k <= m,
        symbols_table(symbols, headers, table, k) is Err,
    ensures
        symbols_table(symbols, headers, table, m) == symbols_table(symbols, headers, table, k),
    decreases m - k,
{
    if k < m {
        lemma_symbols_table_fails(symbols, headers, table, k, m - 1);
    }
}

/// The symbols table holds names without NUL, and no name twice.
pub proof fn lemma_symbols_table_names(
    symbols: Seq<ElfSymbolView>,
    headers: Seq<ElfSectionView>,
    table: Seq<SectionView>,
    n: int,
)
    ensures
        symbols_table(symbols, headers, table, n) matches Ok(done) ==> symbol_names_distinct(done)
            && forall|i: int| 0 <= i < done.len() ==> is_c_name(#[trigger] done[i].name),
    decreases n,
{
    if n > 0 {
        lemma_symbols_table_names(symbols, headers, table, n - 1);
        if let Ok(before) = symbols_table(symbols, headers, table, n - 1) {
            if let Ok(done) = symbols_table(symbols, headers, table, n) {
                if done != before {
                    let entry = recorded_symbol(headers, table, symbols[n - 1]);
                    assert(done == before.push(entry));
                    assert forall|i: int, j: int| 0 <= i < j < done.len() implies (
                    #[trigger] done[i]).name != (#[trigger] done[j]).name by {
                        if j == before.len() {
                            assert(before[i].name != entry.name);
                        } else {
                            assert(before[i].name != before[j].name);
                        }
                    }
                    assert forall|i: int| 0 <= i < done.len() implies is_c_name(
                        #[trigger] done[i].name,
                    ) by {
                        if i < before.len() {
                            assert(is_c_name(before[i].name));
                        }
                    }
                }
            }
        }
    }
}

/// Each entry of the symbols table stands for a symbol of the object: it
/// has that symbol's name and the resolution of its section
/// index, and its address is the low 32 bits of the symbol's value plus the
/// offset under which the sections table has the symbol's section.
pub proof fn lemma_symbol_rebasing(
    symbols: Seq<ElfSymbolView>,
    headers: Seq<ElfSectionView>,
    table: Seq<SectionView>,
    n: int,
    k: int,
)
    requires
        0 <= n <= symbols.len(),
        symbols_table(symbols, headers, table, n) matches Ok(done) && 0 <= k < done.len(),
    ensures
        exists|i: int|
            #![trigger symbols[i]]
            {
                let entry = symbols_table(symbols, headers, table, n)->Ok_0[k];
                &&& 0 <= i < n
                &&& entry.name == symbols[i].name
                &&& entry.resolution == resolution_of(symbols[i].shndx)
                &&& entry.addr == low32(symbols[i].value) + symbol_base(
                    headers,
                    table,
                    symbols[i].shndx,
                )
            },
    decreases n,
{
    let done = symbols_table(symbols, headers, table, n)->Ok_0;
    if n > 0 {
        let before = symbols_table(symbols, headers, table, n - 1)->Ok_0;
        if k < before.len() {
            assert(done[k] == before[k]);
            lemma_symbol_rebasing(symbols, headers, table, n - 1, k);
            let i = choose|i: int|
                #![trigger symbols[i]]
                {
                    &&& 0 <= i < n - 1
                    &&& before[k].name == symbols[i].name
                    &&& before[k].resolution == resolution_of(symbols[i].shndx)
                    &&& before[k].addr == low32(symbols[i].value) + symbol_base(
                        headers,
                        table,
                        symbols[i].shndx,
                    )
                };
            assert(0 <= i < n && done[k].name == symbols[i].name);
        } else {
            assert(recorded_symbol(headers, table, symbols[n - 1]) == done[k]);
            assert(done[k].name == symbols[n - 1].name);
        }
    }
}

/// An entry that is added behind a table does not change the offset of a
/// name that the table has.
pub proof fn lemma_section_offset_kept(table: Seq<SectionView>, entry: SectionView, name: Seq<char>)
    requires
        has_section(table, name),
    ensures
        section_offset(table.push(entry), name) == section_offset(table, name),
    decreases table.len(),
{
    let i = choose|i: int| 0 <= i < table.len() && (#[trigger] table[i]).name == name;
    let more = table.push(entry);
    assert(more[0] == table[0]);
    if table[0].name != name {
        let tail = table.drop_first();
        assert(tail[i - 1].name == name);
        assert(more.drop_first() =~= tail.push(entry));
        lemma_section_offset_kept(tail, entry, name);
    }
}

/// An entry that is added behind a table that does not have its name gives
/// the name its offset.
pub proof fn lemma_section_offset_added(table: Seq<SectionView>, entry: SectionView)
    requires
        !has_section(table, entry.name),
    ensures
        section_offset(table.push(entry), entry.name) == entry.offset,
    decreases table.len(),
{
    let more = table.push(entry);
    if table.len() > 0 {
        assert(table[0].name != entry.name);
        assert(more[0] == table[0]);
        let tail = table.drop_first();
        assert forall|j: int| 0 <= j < tail.len() implies (#[trigger] tail[j]).name
            != entry.name by {
            assert(table[j + 1].name != entry.name);
        }
        assert(more.drop_first() =~= tail.push(entry));
        lemma_section_offset_added(tail, entry);
    } else {
        assert(more[0] == entry);
    }
}

/// The sections table has the names of the section headers that have one,
/// and no others.
pub proof fn lemma_sections_table_holds(headers: Seq<ElfSectionView>, n: int)
    requires
        0 <= n <= headers.len(),
    ensures
        sections_table(headers, n) matches Ok(table) ==> {
            &&& forall|t: int|
                0 <= t < table.len() ==> exists|i: int|
                    0 <= i < n && (#[trigger] headers[i]).name == (#[trigger] table[t]).name
            &&& forall|i: int|
                0 <= i < n && (#[trigger] headers[i]).name.len() > 0 ==> has_section(
                    table,
                    headers[i].name,
                )
        },
    decreases n,
{
    if n > 0 {
        lemma_sections_table_holds(headers, n - 1);
        if let Ok(table) = sections_table(headers, n) {
            let before = sections_table(headers, n - 1)->Ok_0;
            let last = headers[n - 1];
            assert forall|t: int| 0 <= t < table.len() implies exists|i: int|
                0 <= i < n && (#[trigger] headers[i]).name == (#[trigger] table[t]).name by {
                if t < before.len() {
                    assert(table[t] == before[t]);
                    let i = choose|i: int|
                        0 <= i < n - 1 && (#[trigger] headers[i]).name == before[t].name;
                    assert(0 <= i < n && headers[i].name == table[t].name);
                } else {
                    assert(headers[n - 1].name == table[t].name);
                }
            }
            assert forall|i: int| 0 <= i < n && (#[trigger] headers[i]).name.len() > 0 implies has_section(
                table,
                headers[i].name,
            ) by {
                if i < n - 1 {
                    let t = choose|t: int|
                        0 <= t < before.len() && (#[trigger] before[t]).name == headers[i].name;
                    assert(table[t].name == headers[i].name);
                } else if has_section(before, last.name) {
                    let t = choose|t: int|
                        0 <= t < before.len() && (#[trigger] before[t]).name == last.name;
                    assert(table[t].name == last.name);
                } else {
                    assert(table[before.len() as int].name == last.name);
                }
            }
        }
    }
}

/// The offset under which the sections table has the name of a section
/// header that is the first of its name is the low 32 bits of the address
/// of that section.
pub proof fn lemma_recorded_offset(headers: Seq<ElfSectionView>, n: int, j: int)
    requires
        0 <= j < n <= headers.len(),
        sections_table(headers, n) is Ok,
        headers[j].name.len() > 0,
        forall|i: int| 0 <= i < j ==> (#[trigger] headers[i]).name != headers[j].name,
    ensures
        section_offset(sections_table(headers, n)->Ok_0, headers[j].name) == low32(
            headers[j].sh_addr,
        ),
    decreases n,
{
    let table = sections_table(headers, n)->Ok_0;
    let before = sections_table(headers, n - 1)->Ok_0;
    let name = headers[j].name;
    lemma_sections_table_holds(headers, n - 1);
    if j < n - 1 {
        lemma_recorded_offset(headers, n - 1, j);
        assert(has_section(before, name));
        if table != before {
            lemma_section_offset_kept(before, crate::sections::recorded(headers[n - 1]), name);
        }
    } else {
        assert(!has_section(before, name)) by {
            if has_section(before, name) {
                let t = choose|t: int| 0 <= t < before.len() && (#[trigger] before[t]).name == name;
                let i = choose|i: int|
                    0 <= i < n - 1 && (#[trigger] headers[i]).name == before[t].name;
                assert(headers[i].name != headers[j].name);
            }
        }
        lemma_section_offset_added(before, crate::sections::recorded(headers[j]));
    }
}

/// A symbol of a section that is the first of its name is moved by the low
/// 32 bits of the address of that section.
pub proof fn lemma_symbol_base(headers: Seq<ElfSectionView>, shndx: u16)
    requires
        shndx < headers.len(),
        sections_table(headers, headers.len() as int) is Ok,
        headers[shndx as int].name.len() > 0,
        forall|i: int| 0 <= i < shndx ==> (#[trigger] headers[i]).name != headers[shndx as int].name,
    ensures
        symbol_base(headers, sections_table(headers, headers.len() as int)->Ok_0, shndx) == low32(
            headers[shndx as int].sh_addr,
        ),
{
    lemma_recorded_offset(headers, headers.len() as int, shndx as int);
}

/// Symbols whose names hold no NUL and whose addresses fit in 32 bits have
/// a symbols table.
pub proof fn lemma_symbols_table_ok(
    symbols: Seq<ElfSymbolView>,
    headers: Seq<ElfSectionView>,
    table: Seq<SectionView>,
    n: int,
)
    requires
        0 <= n <= symbols.len(),
        forall|i: int|
            0 <= i < n ==> is_c_name((#[trigger] symbols[i]).name) && symbol_address(
                headers,
                table,
                symbols[i],
            ) <= u32::MAX,
    ensures
        symbols_table(symbols, headers, table, n) is Ok,
    decreases n,
{
    if n > 0 {
        lemma_symbols_table_ok(symbols, headers, table, n - 1);
        assert(is_c_name(symbols[n - 1].name));
    }
}

} // verus!
