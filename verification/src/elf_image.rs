//! What the builder reads of an ELF object, as plain values, and how it
//! is read from the bytes of the object.

use crate::error::ArfError;
use crate::text::copy_range;
use crate::text::string_from_utf8;
use elf::dynamic::DynamicTable;
use elf::endian::AnyEndian;
use elf::endian::EndianParse;
use elf::file::Class;
use elf::relocation::RelIterator;
use elf::relocation::RelaIterator;
use elf::ElfBytes;
use vstd::prelude::*;
use vstd::utf8::*;

verus! {

/// Section flag: the section holds writable data.
pub const SHF_WRITE: u64 = 0x1;

/// Section flag: the section occupies memory when the object runs.
pub const SHF_ALLOC: u64 = 0x2;

/// Section flag: the section holds instructions.
pub const SHF_EXECINSTR: u64 = 0x4;

/// Section type: relocations with addend.
pub const SHT_RELA: u32 = 4;

/// Section type: the section occupies no space in the file.
pub const SHT_NOBITS: u32 = 8;

/// Section type: relocations without addend.
pub const SHT_REL: u32 = 9;

/// Section index of an undefined symbol.
pub const SHN_UNDEF: u16 = 0;

/// Section index of a common symbol.
pub const SHN_COMMON: u16 = 0xFFF2;

/// Binding of a local symbol.
pub const STB_LOCAL: u8 = 0;

/// Binding of a global symbol.
pub const STB_GLOBAL: u8 = 1;

/// Binding of a weak symbol.
pub const STB_WEAK: u8 = 2;

/// Tag of a dynamic entry that names a needed library.
pub const DT_NEEDED: i64 = 1;

/// What is read of the file header.
#[derive(Clone, Copy, Debug, PartialEq, Eq, Structural)]
pub struct ElfHeader {
    /// `e_machine`.
    pub machine: u16,
    /// `e_entry`.
    pub entry: u64,
    /// Whether the object is little-endian.
    pub little_endian: bool,
    /// Whether the object is of the 64-bit class.
    pub is_64: bool,
}

/// One entry of the section header table, as it is read.
#[derive(Debug)]
pub struct ElfSectionEntry {
    /// The bytes of the name that `sh_name` stands for in the section name
    /// string table, where there is such a table and it holds a name there.
    pub name: Option<Vec<u8>>,
    pub sh_type: u32,
    pub sh_flags: u64,
    pub sh_addr: u64,
    pub sh_size: u64,
}

/// An entry of the section header table, as a mathematical value.
pub struct ElfSectionEntryView {
    pub name: Option<Seq<u8>>,
    pub sh_type: u32,
    pub sh_flags: u64,
    pub sh_addr: u64,
    pub sh_size: u64,
}

/// One entry of the static symbol table, as it is read.
#[derive(Debug)]
pub struct ElfSymbolEntry {
    /// The bytes of the name that `st_name` stands for in the string table
    /// of the symbols, where it holds a name there.
    pub name: Option<Vec<u8>>,
    /// The binding: the upper four bits of `st_info`.
    pub bind: u8,
    /// `st_shndx`.
    pub shndx: u16,
    /// `st_value`.
    pub value: u64,
}

/// An entry of the static symbol table, as a mathematical value.
pub struct ElfSymbolEntryView {
    pub name: Option<Seq<u8>>,
    pub bind: u8,
    pub shndx: u16,
    pub value: u64,
}

/// A section: its header entry and its bytes.
#[derive(Debug)]
pub struct ElfSection {
    pub name: String,
    pub sh_type: u32,
    pub sh_flags: u64,
    pub sh_addr: u64,
    pub sh_size: u64,
    /// The bytes of the section, where they could be read.
    pub data: Option<Vec<u8>>,
}

/// A section, as a mathematical value.
pub struct ElfSectionView {
    pub name: Seq<char>,
    pub sh_type: u32,
    pub sh_flags: u64,
    pub sh_addr: u64,
    pub sh_size: u64,
    pub data: Option<Seq<u8>>,
}

/// A symbol of the static symbol table.
#[derive(Debug)]
pub struct ElfSymbol {
    pub name: String,
    /// The binding: the upper four bits of `st_info`.
    pub bind: u8,
    /// `st_shndx`.
    pub shndx: u16,
    /// `st_value`.
    pub value: u64,
}

/// A symbol, as a mathematical value.
pub struct ElfSymbolView {
    pub name: Seq<char>,
    pub bind: u8,
    pub shndx: u16,
    pub value: u64,
}

/// An entry of a dynamic table.
#[derive(Clone, Copy, Debug, PartialEq, Eq, Structural)]
pub struct DynEntry {
    /// `d_tag`.
    pub tag: i64,
    /// `d_val`.
    pub value: u64,
}

/// An entry of a relocation section, with or without addend.
#[derive(Clone, Copy, Debug, PartialEq, Eq, Structural)]
pub struct RelEntry {
    /// `r_offset`.
    pub offset: u64,
    /// The index of the symbol that the relocation refers to.
    pub symbol: u32,
}

/// An ELF object as the builder sees it.
#[derive(Debug)]
pub struct ElfImage {
    pub machine: u16,
    pub entry: u64,
    pub little_endian: bool,
    pub is_64: bool,
    /// The sections, in the order of the section header table.
    pub sections: Vec<ElfSection>,
    /// The static symbol table, if the object has one.
    pub symbols: Option<Vec<ElfSymbol>>,
}

/// An ELF object, as a mathematical value.
pub struct ElfImageView {
    pub machine: u16,
    pub entry: u64,
    pub little_endian: bool,
    pub is_64: bool,
    pub sections: Seq<ElfSectionView>,
    pub symbols: Option<Seq<ElfSymbolView>>,
}

/// The bytes, if there are any.
pub open spec fn bytes_view(bytes: Option<Vec<u8>>) -> Option<Seq<u8>> {
    match bytes {
        Some(b) => Some(b@),
        None => None,
    }
}

impl View for ElfSectionEntry {
    type V = ElfSectionEntryView;

    open spec fn view(&self) -> ElfSectionEntryView {
        ElfSectionEntryView {
            name: bytes_view(self.name),
            sh_type: self.sh_type,
            sh_flags: self.sh_flags,
            sh_addr: self.sh_addr,
            sh_size: self.sh_size,
        }
    }
}

impl View for ElfSymbolEntry {
    type V = ElfSymbolEntryView;

    open spec fn view(&self) -> ElfSymbolEntryView {
        ElfSymbolEntryView {
            name: bytes_view(self.name),
            bind: self.bind,
            shndx: self.shndx,
            value: self.value,
        }
    }
}

impl View for ElfSection {
    type V = ElfSectionView;

    open spec fn view(&self) -> ElfSectionView {
        ElfSectionView {
            name: self.name@,
            sh_type: self.sh_type,
            sh_flags: self.sh_flags,
            sh_addr: self.sh_addr,
            sh_size: self.sh_size,
            data: bytes_view(self.data),
        }
    }
}

impl View for ElfSymbol {
    type V = ElfSymbolView;

    open spec fn view(&self) -> ElfSymbolView {
        ElfSymbolView { name: self.name@, bind: self.bind, shndx: self.shndx, value: self.value }
    }
}

/// The views of the entries of a section header table.
pub open spec fn entries_view(entries: Seq<ElfSectionEntry>) -> Seq<ElfSectionEntryView> {
    Seq::new(entries.len(), |i: int| entries[i]@)
}

/// The views of the entries of a symbol table, if there is one.
pub open spec fn symbol_entries_view(symbols: Option<Vec<ElfSymbolEntry>>) -> Option<
    Seq<ElfSymbolEntryView>,
> {
    match symbols {
        Some(v) => Some(Seq::new(v@.len(), |i: int| v@[i]@)),
        None => None,
    }
}

/// The views of the symbols of a table, if there is one.
pub open spec fn symbols_view(symbols: Option<Vec<ElfSymbol>>) -> Option<Seq<ElfSymbolView>> {
    match symbols {
        Some(v) => Some(Seq::new(v@.len(), |i: int| v@[i]@)),
        None => None,
    }
}

/// The bytes of each section, where they could be read.
pub open spec fn data_view(data: Seq<Option<Vec<u8>>>) -> Seq<Option<Seq<u8>>> {
    Seq::new(data.len(), |i: int| bytes_view(data[i]))
}

impl View for ElfImage {
    type V = ElfImageView;

    open spec fn view(&self) -> ElfImageView {
        ElfImageView {
            machine: self.machine,
            entry: self.entry,
            little_endian: self.little_endian,
            is_64: self.is_64,
            sections: Seq::new(self.sections@.len(), |i: int| self.sections@[i]@),
            symbols: symbols_view(self.symbols),
        }
    }
}

/// What `elf::ElfBytes::minimal_parse` finds in the file header of the
/// object that is `bytes`; `None` where it fails.
pub uninterp spec fn elf_header_of(bytes: Seq<u8>) -> Option<ElfHeader>;

/// The section header table that `elf::ElfBytes::section_headers_with_strtab`
/// finds in the object that is `bytes`, each entry with the bytes of its
/// name; `None` where the object cannot be parsed, the call fails or the
/// object has no section headers.
pub uninterp spec fn elf_section_table_of(bytes: Seq<u8>) -> Option<Seq<ElfSectionEntryView>>;

/// The bytes that `elf::ElfBytes::section_data` gives for the section of
/// index `index` of the object that is `bytes`; `None` where there is no
/// such section or the call fails.
pub uninterp spec fn elf_section_data_of(bytes: Seq<u8>, index: int) -> Option<Seq<u8>>;

/// The static symbol table that `elf::ElfBytes::symbol_table` finds in the
/// object that is `bytes`, each entry with the bytes of its name: `None`
/// where the object cannot be parsed or the call fails, `Some(None)` where
/// the object has no such table.
pub uninterp spec fn elf_symbols_of(bytes: Seq<u8>) -> Option<Option<Seq<ElfSymbolEntryView>>>;

/// The entries that `elf::dynamic::DynamicTable` reads from `data`, for the
/// given byte order and class.
pub uninterp spec fn dynamic_entries_of(little_endian: bool, is_64: bool, data: Seq<u8>) -> Seq<
    DynEntry,
>;

/// The entries that `elf::relocation::RelIterator` reads from `data`, for
/// the given byte order and class.
pub uninterp spec fn rel_entries_of(little_endian: bool, is_64: bool, data: Seq<u8>) -> Seq<
    RelEntry,
>;

/// The entries that `elf::relocation::RelaIterator` reads from `data`, for
/// the given byte order and class.
pub uninterp spec fn rela_entries_of(little_endian: bool, is_64: bool, data: Seq<u8>) -> Seq<
    RelEntry,
>;

/// Parses the file header with `elf::ElfBytes::minimal_parse`. The result
/// depends on the bytes alone; `None` stands for a failure of the parser.
#[verifier::external_body]
fn elf_header(bytes: &[u8]) -> (r: Option<ElfHeader>)
    ensures
        r == elf_header_of(bytes@),
{
    let ehdr = ElfBytes::<AnyEndian>::minimal_parse(bytes).ok()?.ehdr;
    Some(
        ElfHeader {
            machine: ehdr.e_machine,
            entry: ehdr.e_entry,
            little_endian: ehdr.endianness.is_little(),
            is_64: match ehdr.class {
                Class::ELF32 => false,
                Class::ELF64 => true,
            },
        },
    )
}

/// Reads the section header table with
/// `elf::ElfBytes::section_headers_with_strtab`, and the bytes of the name
/// of each entry with `elf::string_table::StringTable::get_raw`; a name is
/// `None` where the object has no section name string table or the table
/// holds no name at `sh_name`. The result depends on the bytes alone;
/// `None` stands for a failure of the parser or an object without section
/// headers.
#[verifier::external_body]
fn elf_section_table(bytes: &[u8]) -> (r: Option<Vec<ElfSectionEntry>>)
    ensures
        r matches Some(t) ==> elf_section_table_of(bytes@) == Some(entries_view(t@)),
        r is None ==> elf_section_table_of(bytes@) is None,
{
    let elf = ElfBytes::<AnyEndian>::minimal_parse(bytes).ok()?;
    let (headers, names) = elf.section_headers_with_strtab().ok()?;
    Some(headers?.iter().map(|h| ElfSectionEntry {
        name: names.and_then(|t| t.get_raw(h.sh_name as usize).ok()).map(<[u8]>::to_vec),
        sh_type: h.sh_type,
        sh_flags: h.sh_flags,
        sh_addr: h.sh_addr,
        sh_size: h.sh_size,
    }).collect())
}

/// Reads the bytes of the section of index `index` with
/// `elf::ElfBytes::section_data`. The result depends on the arguments
/// alone; `None` stands for a failure of the parser or an index beyond the
/// table.
#[verifier::external_body]
fn elf_section_data(bytes: &[u8], index: usize) -> (r: Option<Vec<u8>>)
    ensures
        r matches Some(d) ==> elf_section_data_of(bytes@, index as int) == Some(d@),
        r is None ==> elf_section_data_of(bytes@, index as int) is None,
{
    let elf = ElfBytes::<AnyEndian>::minimal_parse(bytes).ok()?;
    let header = elf.section_headers()?.get(index).ok()?;
    Some(elf.section_data(&header).ok()?.0.to_vec())
}

/// Reads the static symbol table with `elf::ElfBytes::symbol_table`, and the
/// bytes of the name of each symbol with
/// `elf::string_table::StringTable::get_raw`; a name is `None` where the
/// table holds no name at `st_name`. The result depends on the bytes alone;
/// `None` stands for a failure of the parser, `Some(None)` for an object
/// without such a table.
#[verifier::external_body]
fn elf_symbols(bytes: &[u8]) -> (r: Option<Option<Vec<ElfSymbolEntry>>>)
    ensures
        r matches Some(t) ==> elf_symbols_of(bytes@) == Some(symbol_entries_view(t)),
        r is None ==> elf_symbols_of(bytes@) is None,
{
    let elf = ElfBytes::<AnyEndian>::minimal_parse(bytes).ok()?;
    let table = elf.symbol_table().ok()?;
    Some(table.map(|(symbols, names)| symbols.iter().map(|s| ElfSymbolEntry {
        name: names.get_raw(s.st_name as usize).ok().map(<[u8]>::to_vec),
        bind: s.st_bind(),
        shndx: s.st_shndx,
        value: s.st_value,
    }).collect()))
}

/// Reads the entries of a dynamic table from `data` with
/// `elf::dynamic::DynamicTable`, up to the first that cannot be read. The
/// result depends on the arguments alone.
#[verifier::external_body]
pub(crate) fn dynamic_entries(little_endian: bool, is_64: bool, data: &[u8]) -> (r: Vec<DynEntry>)
    ensures
        r@ == dynamic_entries_of(little_endian, is_64, data@),
{
    let endian = if little_endian { AnyEndian::Little } else { AnyEndian::Big };
    let class = if is_64 { Class::ELF64 } else { Class::ELF32 };
    DynamicTable::new(endian, class, data).iter().map(|d| DynEntry {
        tag: d.d_tag,
        value: d.d_val(),
    }).collect()
}

/// Reads relocations without addend from `data` with
/// `elf::relocation::RelIterator`, up to the first that cannot be read. The
/// result depends on the arguments alone.
#[verifier::external_body]
pub(crate) fn rel_entries(little_endian: bool, is_64: bool, data: &[u8]) -> (r: Vec<RelEntry>)
    ensures
        r@ == rel_entries_of(little_endian, is_64, data@),
{
    let endian = if little_endian { AnyEndian::Little } else { AnyEndian::Big };
    let class = if is_64 { Class::ELF64 } else { Class::ELF32 };
    RelIterator::new(endian, class, data).map(|r| RelEntry {
        offset: r.r_offset,
        symbol: r.r_sym,
    }).collect()
}

/// Reads relocations with addend from `data` with
/// `elf::relocation::RelaIterator`, up to the first that cannot be read.
/// The result depends on the arguments alone.
#[verifier::external_body]
pub(crate) fn rela_entries(little_endian: bool, is_64: bool, data: &[u8]) -> (r: Vec<RelEntry>)
    ensures
        r@ == rela_entries_of(little_endian, is_64, data@),
{
    let endian = if little_endian { AnyEndian::Little } else { AnyEndian::Big };
    let class = if is_64 { Class::ELF64 } else { Class::ELF32 };
    RelaIterator::new(endian, class, data).map(|r| RelEntry {
        offset: r.r_offset,
        symbol: r.r_sym,
    }).collect()
}

/// The name that was looked up: a lookup that gave nothing is malformed
/// input, and bytes that are not UTF-8 are no name.
pub open spec fn name_of(bytes: Option<Seq<u8>>) -> Result<Seq<char>, ArfError> {
    match bytes {
        None => Err(ArfError::MalformedInput),
        Some(b) => if valid_utf8(b) {
            Ok(decode_utf8(b))
        } else {
            Err(ArfError::InvalidUtf8)
        },
    }
}

/// The first `n` sections of a table with their names and their bytes, in
/// the order of the table; the error of the first name that is none. A
/// section for which `data` holds nothing has no bytes.
pub open spec fn named_sections(
    table: Seq<ElfSectionEntryView>,
    data: Seq<Option<Seq<u8>>>,
    n: int,
) -> Result<Seq<ElfSectionView>, ArfError>
    decreases n,
{
    if n <= 0 {
        Ok(Seq::empty())
    } else {
        match named_sections(table, data, n - 1) {
            Err(e) => Err(e),
            Ok(done) => match name_of(table[n - 1].name) {
                Err(e) => Err(e),
                Ok(name) => Ok(
                    done.push(
                        ElfSectionView {
                            name,
                            sh_type: table[n - 1].sh_type,
                            sh_flags: table[n - 1].sh_flags,
                            sh_addr: table[n - 1].sh_addr,
                            sh_size: table[n - 1].sh_size,
                            data: if n - 1 < data.len() {
                                data[n - 1]
                            } else {
                                None
                            },
                        },
                    ),
                ),
            },
        }
    }
}

/// The first `n` symbols of a table with their names; the error of the
/// first name that is none.
pub open spec fn named_symbols(table: Seq<ElfSymbolEntryView>, n: int) -> Result<
    Seq<ElfSymbolView>,
    ArfError,
>
    decreases n,
{
    if n <= 0 {
        Ok(Seq::empty())
    } else {
        match named_symbols(table, n - 1) {
            Err(e) => Err(e),
            Ok(done) => match name_of(table[n - 1].name) {
                Err(e) => Err(e),
                Ok(name) => Ok(
                    done.push(
                        ElfSymbolView {
                            name,
                            bind: table[n - 1].bind,
                            shndx: table[n - 1].shndx,
                            value: table[n - 1].value,
                        },
                    ),
                ),
            },
        }
    }
}

/// The object made of what was read of it: the sections with their names
/// and bytes, then the symbols with their names. The first name that could
/// not be looked up makes the input malformed; the first that is not UTF-8
/// is an error of its own.
pub open spec fn assembled(
    header: ElfHeader,
    table: Seq<ElfSectionEntryView>,
    data: Seq<Option<Seq<u8>>>,
    symbols: Option<Seq<ElfSymbolEntryView>>,
) -> Result<ElfImageView, ArfError> {
    match named_sections(table, data, table.len() as int) {
        Err(e) => Err(e),
        Ok(sections) => match symbols {
            None => Ok(
                ElfImageView {
                    machine: header.machine,
                    entry: header.entry,
                    little_endian: header.little_endian,
                    is_64: header.is_64,
                    sections,
                    symbols: None,
                },
            ),
            Some(entries) => match named_symbols(entries, entries.len() as int) {
                Err(e) => Err(e),
                Ok(named) => Ok(
                    ElfImageView {
                        machine: header.machine,
                        entry: header.entry,
                        little_endian: header.little_endian,
                        is_64: header.is_64,
                        sections,
                        symbols: Some(named),
                    },
                ),
            },
        },
    }
}

/// The object that is `bytes`, as the builder sees it. Where the ELF
/// parser fails on the file header, the section header table or the symbol
/// table, and where the object has no section headers, the input is
/// malformed.
pub open spec fn image_of(bytes: Seq<u8>) -> Result<ElfImageView, ArfError> {
    match (elf_header_of(bytes), elf_section_table_of(bytes), elf_symbols_of(bytes)) {
        (Some(header), Some(table), Some(symbols)) => assembled(
            header,
            table,
            Seq::new(table.len(), |i: int| elf_section_data_of(bytes, i)),
            symbols,
        ),
        _ => Err(ArfError::MalformedInput),
    }
}

/// The name that was looked up.
fn decode_name(bytes: &Option<Vec<u8>>) -> (r: Result<String, ArfError>)
    ensures
        match r {
            Ok(name) => name_of(bytes_view(*bytes)) == Ok::<_, ArfError>(name@),
            Err(e) => name_of(bytes_view(*bytes)) == Err::<Seq<char>, _>(e),
        },
{
    match bytes {
        None => Err(ArfError::MalformedInput),
        Some(b) => {
            let copy = copy_range(b.as_slice(), 0, b.len());
            assert(b@.subrange(0, b@.len() as int) =~= b@);
            match string_from_utf8(copy) {
                Some(name) => Ok(name),
                None => Err(ArfError::InvalidUtf8),
            }
        },
    }
}

/// A copy of the bytes of a section.
fn copy_data(data: &Option<Vec<u8>>) -> (r: Option<Vec<u8>>)
    ensures
        bytes_view(r) == bytes_view(*data),
{
    match data {
        Some(d) => {
            let copy = copy_range(d.as_slice(), 0, d.len());
            assert(d@.subrange(0, d@.len() as int) =~= d@);
            Some(copy)
        },
        None => None,
    }
}

/// Once a name is none, the sections have failed for good.
pub proof fn lemma_named_sections_fails(
    table: Seq<ElfSectionEntryView>,
    data: Seq<Option<Seq<u8>>>,
    k: int,
    m: int,
)
    requires
        0 <= k <= m,
        named_sections(table, data, k) is Err,
    ensures
        named_sections(table, data, m) == named_sections(table, data, k),
    decreases m - k,
{
    if k < m {
        lemma_named_sections_fails(table, data, k, m - 1);
    }
}

/// Once a name is none, the symbols have failed for good.
pub proof fn lemma_named_symbols_fails(table: Seq<ElfSymbolEntryView>, k: int, m: int)
    requires
        0 <= k <= m,
        named_symbols(table, k) is Err,
    ensures
        named_symbols(table, m) == named_symbols(table, k),
    decreases m - k,
{
    if k < m {
        lemma_named_symbols_fails(table, k, m - 1);
    }
}

/// The sections of a table with their names and bytes.
fn name_sections(table: &Vec<ElfSectionEntry>, data: &Vec<Option<Vec<u8>>>) -> (r: Result<
    Vec<ElfSection>,
    ArfError,
>)
    ensures
        match r {
            Ok(sections) => named_sections(
                entries_view(table@),
                data_view(data@),
                table@.len() as int,
            ) == Ok::<_, ArfError>(Seq::new(sections@.len(), |i: int| sections@[i]@)),
            Err(e) => named_sections(entries_view(table@), data_view(data@), table@.len() as int)
                == Err::<Seq<ElfSectionView>, _>(e),
        },
{
    let ghost entries = entries_view(table@);
    let ghost bytes = data_view(data@);
    let mut sections: Vec<ElfSection> = Vec::new();
    let mut i: usize = 0;
    assert(Seq::new(sections@.len(), |k: int| sections@[k]@) =~= Seq::<ElfSectionView>::empty());
    while i < table.len()
        invariant
            i <= table.len(),
            entries == entries_view(table@),
            bytes == data_view(data@),
            named_sections(entries, bytes, i as int) == Ok::<_, ArfError>(
                Seq::new(sections@.len(), |k: int| sections@[k]@),
            ),
        decreases table.len() - i,
    {
        let entry = &table[i];
        assert(entries[i as int] == entry@);
        let name = match decode_name(&entry.name) {
            Ok(name) => name,
            Err(e) => {
                proof {
                    lemma_named_sections_fails(entries, bytes, i + 1, table@.len() as int);
                }
                return Err(e);
            },
        };
        let section = ElfSection {
            name,
            sh_type: entry.sh_type,
            sh_flags: entry.sh_flags,
            sh_addr: entry.sh_addr,
            sh_size: entry.sh_size,
            data: if i < data.len() {
                copy_data(&data[i])
            } else {
                None
            },
        };
        let ghost before = Seq::new(sections@.len(), |k: int| sections@[k]@);
        sections.push(section);
        assert(Seq::new(sections@.len(), |k: int| sections@[k]@) =~= before.push(section@));
        i += 1;
    }
    Ok(sections)
}

/// The symbols of a table with their names.
fn name_symbols(table: &Vec<ElfSymbolEntry>) -> (r: Result<Vec<ElfSymbol>, ArfError>)
    ensures
        match r {
            Ok(symbols) => named_symbols(
                symbol_entries_view(Some(*table))->0,
                table@.len() as int,
            ) == Ok::<_, ArfError>(symbols_view(Some(symbols))->0),
            Err(e) => named_symbols(symbol_entries_view(Some(*table))->0, table@.len() as int)
                == Err::<Seq<ElfSymbolView>, _>(e),
        },
{
    let ghost entries = symbol_entries_view(Some(*table))->0;
    let mut symbols: Vec<ElfSymbol> = Vec::new();
    let mut i: usize = 0;
    assert(Seq::new(symbols@.len(), |k: int| symbols@[k]@) =~= Seq::<ElfSymbolView>::empty());
    while i < table.len()
        invariant
            i <= table.len(),
            entries == symbol_entries_view(Some(*table))->0,
            named_symbols(entries, i as int) == Ok::<_, ArfError>(
                Seq::new(symbols@.len(), |k: int| symbols@[k]@),
            ),
        decreases table.len() - i,
    {
        let entry = &table[i];
        assert(entries[i as int] == entry@);
        let name = match decode_name(&entry.name) {
            Ok(name) => name,
            Err(e) => {
                proof {
                    lemma_named_symbols_fails(entries, i + 1, table@.len() as int);
                }
                return Err(e);
            },
        };
        let symbol = ElfSymbol { name, bind: entry.bind, shndx: entry.shndx, value: entry.value };
        let ghost before = Seq::new(symbols@.len(), |k: int| symbols@[k]@);
        symbols.push(symbol);
        assert(Seq::new(symbols@.len(), |k: int| symbols@[k]@) =~= before.push(symbol@));
        i += 1;
    }
    Ok(symbols)
}

impl ElfImage {
    /// Puts an object together from its header, its section header table,
    /// the bytes of each section in the order of the table, and its symbol
    /// table. A section for which `data` holds nothing has no bytes. A
    /// section or a symbol whose name could not be looked up makes the
    /// input malformed; a name that is not UTF-8 is an error of its own.
    pub fn from_parts(
        header: ElfHeader,
        table: &Vec<ElfSectionEntry>,
        data: &Vec<Option<Vec<u8>>>,
        symbols: &Option<Vec<ElfSymbolEntry>>,
    ) -> (r: Result<ElfImage, ArfError>)
        ensures
            match r {
                Ok(image) => assembled(
                    header,
                    entries_view(table@),
                    data_view(data@),
                    symbol_entries_view(*symbols),
                ) == Ok::<_, ArfError>(image@),
                Err(e) => assembled(
                    header,
                    entries_view(table@),
                    data_view(data@),
                    symbol_entries_view(*symbols),
                ) == Err::<ElfImageView, _>(e),
            },
    {
        let sections = match name_sections(table, data) {
            Ok(s) => s,
            Err(e) => {
                return Err(e);
            },
        };
        let named = match symbols {
            None => None,
            Some(entries) => match name_symbols(entries) {
                Ok(s) => Some(s),
                Err(e) => {
                    return Err(e);
                },
            },
        };
        Ok(
            ElfImage {
                machine: header.machine,
                entry: header.entry,
                little_endian: header.little_endian,
                is_64: header.is_64,
                sections,
                symbols: named,
            },
        )
    }

    /// Reads an ELF object: its header, its sections with their names and
    /// bytes, and its static symbol table. What the ELF parser cannot read
    /// is malformed input.
    pub fn from_bytes(bytes: &[u8]) -> (r: Result<ElfImage, ArfError>)
        ensures
            match r {
                Ok(image) => image_of(bytes@) == Ok::<_, ArfError>(image@),
                Err(e) => image_of(bytes@) == Err::<ElfImageView, _>(e),
            },
    {
        let header = match elf_header(bytes) {
            Some(h) => h,
            None => {
                return Err(ArfError::MalformedInput);
            },
        };
        let table = match elf_section_table(bytes) {
            Some(t) => t,
            None => {
                return Err(ArfError::MalformedInput);
            },
        };
        let symbols = match elf_symbols(bytes) {
            Some(s) => s,
            None => {
                return Err(ArfError::MalformedInput);
            },
        };
        let mut data: Vec<Option<Vec<u8>>> = Vec::new();
        let mut i: usize = 0;
        while i < table.len()
            invariant
                i <= table.len(),
                data@.len() == i,
                forall|j: int|
                    0 <= j < i ==> bytes_view(#[trigger] data@[j]) == elf_section_data_of(bytes@, j),
            decreases table.len() - i,
        {
            let read = elf_section_data(bytes, i);
            data.push(read);
            i += 1;
        }
        assert(data_view(data@) =~= Seq::new(
            entries_view(table@).len(),
            |i: int| elf_section_data_of(bytes@, i),
        ));
        ElfImage::from_parts(header, &table, &data, &symbols)
    }
}

} // verus!
