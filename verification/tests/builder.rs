use arf::elf_image::{DynEntry, RelEntry};
use arf::fixes::{bytes_less, fixes_from_relocations, gather_relocations};
use arf::libraries::libraries_from_entries;
use arf::sections::section_permissions;
use arf::{
    build_arf_file, extract_section_data, get_fixes, get_libraries, get_sections_table,
    get_symbols, ArfError, ArfFile, Architecture, ElfImage, ElfSection, ElfSymbol, Fix,
};

const ALLOC: u64 = 0x2;
const WRITE: u64 = 0x1;
const EXEC: u64 = 0x4;
const PROGBITS: u32 = 1;
const SYMTAB: u32 = 2;
const STRTAB: u32 = 3;
const RELA: u32 = 4;
const NOBITS: u32 = 8;
const REL: u32 = 9;

fn section(name: &str, sh_type: u32, flags: u64, addr: u64, data: Vec<u8>) -> ElfSection {
    ElfSection {
        name: name.to_string(),
        sh_type,
        sh_flags: flags,
        sh_addr: addr,
        sh_size: data.len() as u64,
        data: Some(data),
    }
}

fn null_section() -> ElfSection {
    section("", 0, 0, 0, Vec::new())
}

fn symbol(name: &str, bind: u8, shndx: u16, value: u64) -> ElfSymbol {
    ElfSymbol { name: name.to_string(), bind, shndx, value }
}

fn image(sections: Vec<ElfSection>, symbols: Vec<ElfSymbol>) -> ElfImage {
    ElfImage {
        machine: 62,
        entry: 0x1000,
        little_endian: true,
        is_64: true,
        sections,
        symbols: Some(symbols),
    }
}

fn metadata() -> Vec<ElfSection> {
    vec![
        section(".symtab", SYMTAB, 0, 0, vec![0; 24]),
        section(".strtab", STRTAB, 0, 0, b"\0main\0".to_vec()),
        section(".shstrtab", STRTAB, 0, 0, b"\0.symtab\0.strtab\0.shstrtab\0".to_vec()),
    ]
}

fn minimal_executable() -> ElfImage {
    let mut sections = vec![
        null_section(),
        section(".text", PROGBITS, ALLOC | EXEC, 0x1000, vec![0x90, 0x90, 0x90, 0x90]),
    ];
    sections.extend(metadata());
    image(sections, vec![symbol("", 0, 0, 0), symbol("main", 1, 1, 0x1000)])
}

fn rela64(offset: u64, sym: u32) -> Vec<u8> {
    let mut bytes = offset.to_le_bytes().to_vec();
    bytes.extend_from_slice(&(((sym as u64) << 32) | 1).to_le_bytes());
    bytes.extend_from_slice(&0i64.to_le_bytes());
    bytes
}

fn rel64(offset: u64, sym: u32) -> Vec<u8> {
    let mut bytes = offset.to_le_bytes().to_vec();
    bytes.extend_from_slice(&(((sym as u64) << 32) | 1).to_le_bytes());
    bytes
}

fn dyn64(tag: i64, value: u64) -> Vec<u8> {
    let mut bytes = tag.to_le_bytes().to_vec();
    bytes.extend_from_slice(&value.to_le_bytes());
    bytes
}

fn fix_pairs(fixes: &[Fix]) -> Vec<(String, u32)> {
    fixes.iter().map(|f| (f.name().to_string(), f.offset())).collect()
}

#[test]
fn empty_object() {
    let mut sections = vec![null_section()];
    sections.extend(metadata());
    let object = image(sections, vec![symbol("", 0, 0, 0)]);
    let file = build_arf_file(false, &object, None, "x86_64").unwrap();
    assert!(file.data().is_empty());
    assert!(file.fixes().is_empty());
    assert!(file.libraries().is_empty());
    assert!(file.requests().is_empty());
    assert!(file.symbols().is_empty());
    assert_eq!(file.sections().len(), 3);
    let bytes = file.to_bytes();
    let read = ArfFile::from_data(bytes.clone()).unwrap();
    assert_eq!(read.to_bytes(), bytes);
    assert_eq!(read.sections().len(), 3);
    assert!(read.data().is_empty());
}

#[test]
fn minimal_executable_is_built() {
    let file = build_arf_file(false, &minimal_executable(), None, "x86_64").unwrap();
    assert_eq!(file.header().version_str(), "ARF003");
    assert!(!file.header().library());
    assert_eq!(file.header().architecture(), Architecture::X86_64);
    assert_eq!(file.header().host_architecture(), Architecture::X86_64);
    assert_eq!(file.header().entry_point(), 0x1000);
    let mut data = vec![0x90u8; 4];
    data.extend_from_slice(&[0; 12]);
    assert_eq!(file.data(), &data);
    assert_eq!(file.symbols().len(), 1);
    assert_eq!(file.symbols()[0].name(), "main");
    assert_eq!(file.symbols()[0].addr(), 0x2000);
    assert_eq!(file.symbols()[0].typ(), 1);
    assert_eq!(file.symbols()[0].resolution(), 0);
    assert_eq!(file.sections()[0].name(), ".text");
    assert_eq!(file.sections()[0].offset(), 0x1000);
    assert_eq!(file.sections()[0].permissions(), 0x04);
    let bytes = file.to_bytes();
    assert_eq!(&bytes[..6], b"ARF003");
    assert_eq!(&bytes[6..8], &[2, 2]);
    assert_eq!(&bytes[8..12], &[0x00, 0x10, 0x00, 0x00]);
    assert_eq!(&bytes[bytes.len() - 16..], &data[..]);
}

#[test]
fn gaps_between_sections_are_kept() {
    let object = image(
        vec![
            null_section(),
            section(".text", PROGBITS, ALLOC | EXEC, 0x1000, vec![1, 2, 3, 4]),
            section(".data", PROGBITS, ALLOC | WRITE, 0x100C, vec![5, 6, 7, 8]),
        ],
        Vec::new(),
    );
    let data = extract_section_data(&object).unwrap();
    assert_eq!(data, vec![1, 2, 3, 4, 0, 0, 0, 0, 0, 0, 0, 0, 5, 6, 7, 8]);
}

#[test]
fn descriptor_sets_library_and_requests() {
    let file = build_arf_file(
        false,
        &minimal_executable(),
        Some("[library]\nconsole\nfilesystem"),
        "x86_64",
    )
    .unwrap();
    assert_eq!(file.header().version_str(), "ARL003");
    assert!(file.header().library());
    let requests: Vec<u8> = file.requests().iter().map(|r| r.byte()).collect();
    assert_eq!(requests, vec![0x00, 0x02]);
    assert_eq!(&file.to_bytes()[..6], b"ARL003");
}

#[test]
fn library_hint_and_descriptor_both_make_a_library() {
    for (hint, text, library) in [
        (true, Some("console\n"), true),
        (true, Some("[library]\n"), true),
        (false, Some("[library]\n"), true),
        (false, Some("console\n"), false),
        (true, None, true),
        (false, None, false),
    ] {
        let file = build_arf_file(hint, &minimal_executable(), text, "x86_64").unwrap();
        assert_eq!(file.header().library(), library);
        assert_eq!(file.header().version_str(), if library { "ARL003" } else { "ARF003" });
        assert_eq!(&file.to_bytes()[..6], file.header().version_str().as_bytes());
    }
}

#[test]
fn addlib_round_trip() {
    let built = build_arf_file(false, &minimal_executable(), None, "x86_64").unwrap();
    let mut file = ArfFile::from_data(built.to_bytes()).unwrap();
    assert!(file.add_library("libc.so", "/lib/libc.so"));
    let read = ArfFile::from_data(file.to_bytes()).unwrap();
    assert_eq!(read.libraries().len(), 1);
    assert_eq!(read.libraries()[0].name(), "libc.so");
    assert_eq!(read.libraries()[0].availability(), 0xFF);
    assert_eq!(read.libraries()[0].path(), Some("/lib/libc.so"));
    assert_eq!(read.header().version_str(), built.header().version_str());
    assert_eq!(read.header().entry_point(), built.header().entry_point());
    assert_eq!(read.sections().len(), built.sections().len());
    assert_eq!(read.symbols().len(), 1);
    assert_eq!(read.symbols()[0].addr(), 0x2000);
    assert_eq!(read.data(), built.data());
    assert!(read.fixes().is_empty());
    assert!(read.requests().is_empty());
}

#[test]
fn unknown_extension_is_fatal() {
    let r = build_arf_file(false, &minimal_executable(), Some("nosuch"), "x86_64");
    assert!(matches!(r, Err(ArfError::UnknownExtension)));
}

#[test]
fn unsupported_machine_and_host() {
    let mut object = minimal_executable();
    object.machine = 8;
    assert!(matches!(
        build_arf_file(false, &object, None, "x86_64"),
        Err(ArfError::UnsupportedArchitecture)
    ));
    assert!(matches!(
        build_arf_file(false, &minimal_executable(), None, "riscv64"),
        Err(ArfError::UnsupportedArchitecture)
    ));
}

#[test]
fn machines_and_hosts() {
    for (machine, arch) in [
        (3u16, Architecture::X86),
        (62, Architecture::X86_64),
        (40, Architecture::ARMv7),
        (183, Architecture::Aarch64),
    ] {
        let mut object = minimal_executable();
        object.machine = machine;
        let file = build_arf_file(false, &object, None, "arm").unwrap();
        assert_eq!(file.header().architecture(), arch);
        assert_eq!(file.header().host_architecture(), Architecture::ARMv7);
    }
    assert_eq!(Architecture::from_host_name("x86"), Some(Architecture::X86));
    assert_eq!(Architecture::from_host_name("x86_64"), Some(Architecture::X86_64));
    assert_eq!(Architecture::from_host_name("aarch64"), Some(Architecture::Aarch64));
    assert_eq!(Architecture::from_host_name("X86"), None);
}

#[test]
fn entry_point_keeps_the_low_bits() {
    let mut object = minimal_executable();
    object.entry = 0x1_2345_6789;
    let file = build_arf_file(false, &object, None, "x86_64").unwrap();
    assert_eq!(file.header().entry_point(), 0x2345_6789);
}

#[test]
fn object_without_symbol_table_has_no_symbols() {
    let mut object = minimal_executable();
    object.symbols = None;
    let file = build_arf_file(false, &object, None, "x86_64").unwrap();
    assert!(file.symbols().is_empty());
    assert!(file.fixes().is_empty());
    assert_eq!(file.sections().len(), 4);
    assert_eq!(file.data().len(), 16);
    assert!(get_fixes(&object).unwrap().is_empty());
    let read = ArfFile::from_data(file.to_bytes()).unwrap();
    assert_eq!(read.to_bytes(), file.to_bytes());
}

#[test]
fn sections_are_recorded_once() {
    let object = image(
        vec![
            null_section(),
            section(".text", PROGBITS, ALLOC | EXEC, 0x1000, vec![1]),
            section(".text", PROGBITS, ALLOC, 0x2000, vec![1]),
            section("", PROGBITS, ALLOC, 0x3000, vec![1]),
            section(".high", PROGBITS, ALLOC | WRITE | 0x10, 0x1_0000_2000, vec![1]),
            section(".tls", NOBITS, ALLOC | WRITE | EXEC | 0x400, 0x5000, Vec::new()),
            section(".top", PROGBITS, 1 << 40, 0, vec![1]),
        ],
        Vec::new(),
    );
    let table = get_sections_table(&object).unwrap();
    let got: Vec<(&str, u32, u8)> =
        table.iter().map(|s| (s.name(), s.offset(), s.permissions())).collect();
    assert_eq!(
        got,
        vec![
            (".text", 0x1000, 0x04),
            (".high", 0x2000, 0x10),
            (".tls", 0x5000, 0x14),
            (".top", 0, 0x10),
        ]
    );
}

#[test]
fn permissions_byte() {
    assert_eq!(section_permissions(0), 0x00);
    assert_eq!(section_permissions(ALLOC), 0x00);
    assert_eq!(section_permissions(ALLOC | WRITE), 0x00);
    assert_eq!(section_permissions(EXEC), 0x04);
    assert_eq!(section_permissions(ALLOC | EXEC), 0x04);
    assert_eq!(section_permissions(0x8), 0x10);
    assert_eq!(section_permissions(EXEC | 0x8000_0000_0000_0000), 0x14);
}

#[test]
fn section_name_with_nul_is_malformed() {
    let object = image(vec![section("a\0b", PROGBITS, ALLOC, 0, vec![1])], Vec::new());
    assert!(matches!(get_sections_table(&object), Err(ArfError::MalformedInput)));
}

#[test]
fn symbols_are_mapped() {
    let object = image(
        vec![
            null_section(),
            section(".text", PROGBITS, ALLOC | EXEC, 0x1000, vec![1]),
            section(".data", PROGBITS, ALLOC | WRITE, 0x2000, vec![1]),
            section(".text", PROGBITS, ALLOC | EXEC, 0x9000, vec![1]),
        ],
        vec![
            symbol("", 0, 0, 0),
            symbol("local", 0, 1, 0x10),
            symbol("global", 1, 2, 0x20),
            symbol("weak", 2, 1, 0x30),
            symbol("os", 10, 1, 0x40),
            symbol("global", 1, 1, 0x50),
            symbol("undef", 1, 0, 0x60),
            symbol("common", 1, 0xFFF2, 0x70),
            symbol("abs", 1, 0xFFF1, 0x80),
            symbol("dup_text", 1, 3, 0x90),
            symbol("os", 1, 2, 0xA0),
            symbol("wide", 1, 1, 0x7_0000_0004),
            symbol("nowhere", 1, 0, 0x7),
            symbol("beyond", 1, 9, 0x8),
        ],
    );
    let file = build_arf_file(false, &object, None, "x86_64").unwrap();
    let got: Vec<(&str, u8, u8, u32)> = file
        .symbols()
        .iter()
        .map(|s| (s.name(), s.resolution(), s.typ(), s.addr()))
        .collect();
    assert_eq!(
        got,
        vec![
            ("local", 0, 0, 0x1010),
            ("global", 0, 1, 0x2020),
            ("weak", 0, 2, 0x1030),
            ("undef", 1, 1, 0x60),
            ("common", 2, 1, 0x70),
            ("abs", 0, 1, 0x80),
            ("dup_text", 0, 1, 0x1090),
            ("os", 0, 1, 0x20A0),
            ("wide", 0, 1, 0x1004),
            ("nowhere", 1, 1, 0x7),
            ("beyond", 0, 1, 0x8),
        ]
    );
}

#[test]
fn symbol_address_overflow() {
    let object = image(
        vec![null_section(), section(".text", PROGBITS, ALLOC | EXEC, 0xFFFF_FFF0, vec![1])],
        vec![symbol("far", 1, 1, 0x10)],
    );
    let table = ArfFile::from_parts(
        arf::Header::new(false, Architecture::X86, Architecture::X86, 0),
        get_sections_table(&object).unwrap(),
        Vec::new(),
        Vec::new(),
        Vec::new(),
        Vec::new(),
        Vec::new(),
    );
    assert!(matches!(get_symbols(&object, &table), Err(ArfError::IntegerOverflow)));
    let object = image(
        vec![null_section(), section(".text", PROGBITS, ALLOC | EXEC, 0xFFFF_FFF0, vec![1])],
        vec![symbol("near", 1, 1, 0xF)],
    );
    let symbols = get_symbols(&object, &table).unwrap();
    assert_eq!(symbols[0].addr(), 0xFFFF_FFFF);
}

#[test]
fn symbol_name_with_nul_is_malformed() {
    let object = image(vec![null_section()], vec![symbol("a\0", 1, 0, 0)]);
    assert!(matches!(
        build_arf_file(false, &object, None, "x86_64"),
        Err(ArfError::MalformedInput)
    ));
}

#[test]
fn libraries_come_from_the_dynamic_table() {
    let mut table = dyn64(1, 1);
    table.extend(dyn64(14, 9));
    table.extend(dyn64(1, 9));
    table.extend(dyn64(1, 1));
    table.extend(dyn64(1, 0));
    table.extend(dyn64(1, 17));
    table.extend(dyn64(0, 0));
    let object = image(
        vec![
            null_section(),
            section(".dynstr", STRTAB, ALLOC, 0x100, b"\0libc.so\0libm.so\0tail".to_vec()),
            section(".dynamic", 6, ALLOC | WRITE, 0x200, table),
        ],
        Vec::new(),
    );
    let libraries = get_libraries(&object).unwrap();
    let got: Vec<(&str, u8, Option<&str>)> =
        libraries.iter().map(|l| (l.name(), l.availability(), l.path())).collect();
    assert_eq!(
        got,
        vec![("libc.so", 0, None), ("libm.so", 0, None), ("", 0, None), ("tail", 0, None)]
    );
}

#[test]
fn libraries_need_both_sections() {
    let object = image(
        vec![null_section(), section(".dynamic", 6, ALLOC, 0x200, dyn64(1, 1))],
        Vec::new(),
    );
    assert!(get_libraries(&object).unwrap().is_empty());
    let object = image(
        vec![null_section(), section(".dynstr", STRTAB, ALLOC, 0x200, b"\0a\0".to_vec())],
        Vec::new(),
    );
    assert!(get_libraries(&object).unwrap().is_empty());
}

#[test]
fn libraries_use_the_last_section_of_each_name() {
    let object = image(
        vec![
            section(".dynstr", STRTAB, ALLOC, 0x100, b"\0first\0".to_vec()),
            section(".dynamic", 6, ALLOC, 0x200, dyn64(1, 3)),
            section(".dynstr", STRTAB, ALLOC, 0x100, b"\0second\0".to_vec()),
            section(".dynamic", 6, ALLOC, 0x200, dyn64(1, 1)),
        ],
        Vec::new(),
    );
    let libraries = get_libraries(&object).unwrap();
    assert_eq!(libraries.len(), 1);
    assert_eq!(libraries[0].name(), "second");
}

#[test]
fn library_errors() {
    let strings = b"\0libc.so\0\xC3\x28\0".to_vec();
    let needed = |value: u64| vec![DynEntry { tag: 1, value }];
    assert!(matches!(
        libraries_from_entries(&needed(12), &strings),
        Err(ArfError::MalformedInput)
    ));
    assert!(matches!(
        libraries_from_entries(&needed(u64::MAX), &strings),
        Err(ArfError::MalformedInput)
    ));
    assert!(matches!(libraries_from_entries(&needed(9), &strings), Err(ArfError::InvalidUtf8)));
    assert_eq!(libraries_from_entries(&needed(5), &strings).unwrap()[0].name(), ".so");
    let mut missing = section(".dynamic", 6, ALLOC, 0x200, Vec::new());
    missing.data = None;
    let object = image(
        vec![missing, section(".dynstr", STRTAB, ALLOC, 0x100, b"\0".to_vec())],
        Vec::new(),
    );
    assert!(matches!(get_libraries(&object), Err(ArfError::MalformedInput)));
}

#[test]
fn extract_string_reads_to_the_nul() {
    let table = b"\0abc\0de";
    assert_eq!(arf::extract_string_from_table(table, 0).unwrap(), "");
    assert_eq!(arf::extract_string_from_table(table, 1).unwrap(), "abc");
    assert_eq!(arf::extract_string_from_table(table, 3).unwrap(), "c");
    assert_eq!(arf::extract_string_from_table(table, 5).unwrap(), "de");
    assert!(matches!(arf::extract_string_from_table(table, 7), Err(ArfError::MalformedInput)));
    assert!(matches!(arf::extract_string_from_table(b"", 0), Err(ArfError::MalformedInput)));
    assert!(matches!(
        arf::extract_string_from_table(b"\xFF\0", 0),
        Err(ArfError::InvalidUtf8)
    ));
}

fn symbols_for_fixes() -> Vec<ElfSymbol> {
    vec![
        symbol("", 0, 0, 0),
        symbol("puts", 1, 0, 0),
        symbol("main", 1, 1, 0x10),
        symbol("exit", 1, 0, 0),
        symbol("", 1, 0, 0),
        symbol("put", 1, 0, 0),
    ]
}

#[test]
fn fixes_are_sorted_and_unique() {
    let mut rela = rela64(0x30, 1);
    rela.extend(rela64(0x10, 3));
    rela.extend(rela64(0x20, 1));
    rela.extend(rela64(0x40, 2));
    rela.extend(rela64(0x30, 1));
    rela.extend(rela64(0x50, 0));
    rela.extend(rela64(0x60, 99));
    rela.extend(rela64(0x1_0000_0008, 5));
    let mut rel = rel64(0x5, 4);
    rel.extend(rel64(0x4, 3));
    rel.extend(rel64(0x10, 3));
    let mut unread = section(".notrel.none", PROGBITS, 0, 0, Vec::new());
    unread.data = None;
    let mut object = image(
        vec![
            null_section(),
            section(".text", PROGBITS, ALLOC | EXEC, 0x1000, vec![0; 8]),
            section(".rela.text", RELA, 0, 0, rela),
            unread,
            section(".rel.data", REL, 0, 0, rel),
            section(".notrel", PROGBITS, 0, 0, rela64(0x77, 1)),
        ],
        symbols_for_fixes(),
    );
    let fixes = get_fixes(&object).unwrap();
    assert_eq!(
        fix_pairs(&fixes),
        vec![
            ("exit".to_string(), 0x4),
            ("exit".to_string(), 0x10),
            ("put".to_string(), 0x8),
            ("puts".to_string(), 0x20),
            ("puts".to_string(), 0x30),
        ]
    );
    for pair in fixes.windows(2) {
        assert!((pair[0].name(), pair[0].offset()) < (pair[1].name(), pair[1].offset()));
        assert!(arf::fixes::fix_less(&pair[0], &pair[1]));
        assert!(!arf::fixes::fix_less(&pair[1], &pair[0]));
    }
    assert_eq!(gather_relocations(&object).unwrap().len(), 11);
    object.symbols = None;
    assert!(get_fixes(&object).unwrap().is_empty());
}

#[test]
fn fixes_from_given_relocations() {
    let relocations = vec![
        RelEntry { offset: 9, symbol: 1 },
        RelEntry { offset: 3, symbol: 1 },
        RelEntry { offset: 9, symbol: 1 },
        RelEntry { offset: 1, symbol: 2 },
        RelEntry { offset: 0xFFFF_FFFF_0000_0002, symbol: 3 },
        RelEntry { offset: 1, symbol: 6 },
    ];
    let fixes = fixes_from_relocations(&relocations, &symbols_for_fixes()).unwrap();
    assert_eq!(
        fix_pairs(&fixes),
        vec![("exit".to_string(), 2), ("puts".to_string(), 3), ("puts".to_string(), 9)]
    );
    assert!(fixes_from_relocations(&Vec::new(), &symbols_for_fixes()).unwrap().is_empty());
    let bad = vec![symbol("a\0b", 1, 0, 0)];
    assert!(matches!(
        fixes_from_relocations(&vec![RelEntry { offset: 0, symbol: 0 }], &bad),
        Err(ArfError::MalformedInput)
    ));
}

#[test]
fn byte_order_of_names() {
    assert!(bytes_less(b"", b"a"));
    assert!(!bytes_less(b"", b""));
    assert!(!bytes_less(b"a", b""));
    assert!(bytes_less(b"a", b"ab"));
    assert!(bytes_less(b"ab", b"b"));
    assert!(!bytes_less(b"b", b"ab"));
    assert!(bytes_less(b"Z", b"a"));
    assert!(bytes_less(b"a", "é".as_bytes()));
    assert!(!bytes_less(b"abc", b"abc"));
}

#[test]
fn big_endian_relocations_are_read() {
    let mut rela = 0x30u32.to_be_bytes().to_vec();
    rela.extend_from_slice(&((1u32 << 8) | 2).to_be_bytes());
    rela.extend_from_slice(&0i32.to_be_bytes());
    let mut object = image(
        vec![null_section(), section(".rela.text", RELA, 0, 0, rela)],
        symbols_for_fixes(),
    );
    object.little_endian = false;
    object.is_64 = false;
    assert_eq!(fix_pairs(&get_fixes(&object).unwrap()), vec![("puts".to_string(), 0x30)]);
}

#[test]
fn names_are_unique_after_build() {
    let mut table = dyn64(1, 1);
    table.extend(dyn64(1, 1));
    let object = image(
        vec![
            null_section(),
            section(".a", PROGBITS, ALLOC, 0x10, vec![1]),
            section(".a", PROGBITS, ALLOC, 0x20, vec![2]),
            section(".dynstr", STRTAB, ALLOC, 0x100, b"\0libc.so\0".to_vec()),
            section(".dynamic", 6, ALLOC, 0x200, table),
        ],
        vec![symbol("s", 1, 1, 0), symbol("s", 1, 2, 0)],
    );
    let file = build_arf_file(false, &object, None, "x86_64").unwrap();
    let names: Vec<&str> = file.sections().iter().map(|s| s.name()).collect();
    assert_eq!(names, vec![".a", ".dynstr", ".dynamic"]);
    assert_eq!(file.symbols().len(), 1);
    assert_eq!(file.libraries().len(), 1);
    assert_eq!(file.data().len() % 16, 0);
}

#[test]
fn candidates_are_chosen() {
    let mut unread = section(".unread", PROGBITS, 0, 0x800, vec![9; 4]);
    unread.data = None;
    let object = image(
        vec![
            null_section(),
            section(".bss", NOBITS, ALLOC | WRITE, 0x900, Vec::new()),
            section(".note", PROGBITS, 0, 0x900, vec![1]),
            section(".empty", PROGBITS, ALLOC, 0x900, Vec::new()),
            section(".debug_info", PROGBITS, ALLOC, 0x900, vec![1]),
            section(".comment", PROGBITS, ALLOC, 0x900, vec![1]),
            section(".comments", PROGBITS, ALLOC, 0x900, vec![1]),
            section(".shstrtab", STRTAB, ALLOC, 0x900, vec![1]),
            section(".strtab", STRTAB, ALLOC, 0x900, vec![1]),
            section(".symtab", SYMTAB, ALLOC, 0x900, vec![1]),
            section(".strtab2", PROGBITS, ALLOC, 0x1008, vec![5]),
            section(".text", PROGBITS, ALLOC | EXEC, 0x1000, vec![1, 2]),
            unread,
            section("x", PROGBITS, ALLOC, 0x1010, vec![7]),
        ],
        Vec::new(),
    );
    let data = extract_section_data(&object).unwrap();
    let mut expected = vec![1u8, 2, 0, 0, 0, 0, 0, 0, 5, 0, 0, 0, 0, 0, 0, 0, 7];
    expected.extend_from_slice(&[0; 15]);
    assert_eq!(data, expected);
}

#[test]
fn sections_are_laid_out_by_address() {
    let mut short = section(".short", PROGBITS, ALLOC, 0x2010, vec![8, 8]);
    short.sh_size = 4;
    let object = image(
        vec![
            section(".c", PROGBITS, ALLOC, 0x2008, vec![3, 3]),
            section(".a", PROGBITS, ALLOC, 0x2000, vec![1, 1]),
            section(".b", PROGBITS, ALLOC, 0x2004, vec![2]),
            section(".b2", PROGBITS, ALLOC, 0x2004, vec![4]),
            short,
        ],
        Vec::new(),
    );
    let data = extract_section_data(&object).unwrap();
    assert_eq!(
        data,
        vec![
            1, 1, 0, 0, 2, 4, 0, 0, 3, 3, 0, 0, 0, 0, 0, 0, 8, 8, 0, 0, 0, 0, 0, 0, 0, 0, 0, 0, 0,
            0, 0, 0
        ]
    );
}

#[test]
fn overlapping_sections_follow_each_other() {
    let object = image(
        vec![
            section(".a", PROGBITS, ALLOC, 0x1000, vec![1; 0x20]),
            section(".b", PROGBITS, ALLOC, 0x1010, vec![2; 4]),
            section(".c", PROGBITS, ALLOC, 0x1020, vec![3; 4]),
        ],
        Vec::new(),
    );
    let data = extract_section_data(&object).unwrap();
    let mut expected = vec![1u8; 0x20];
    expected.extend_from_slice(&[2; 4]);
    expected.extend_from_slice(&[3; 4]);
    expected.extend_from_slice(&[0; 8]);
    assert_eq!(data, expected);
}

#[test]
fn data_is_aligned() {
    for len in 1..40usize {
        let object =
            image(vec![section(".a", PROGBITS, ALLOC, 0x1000, vec![1; len])], Vec::new());
        let data = extract_section_data(&object).unwrap();
        assert_eq!(data.len(), (len + 15) / 16 * 16);
        assert_eq!(&data[..len], &vec![1u8; len][..]);
        assert!(data[len..].iter().all(|b| *b == 0));
    }
    let mut data = vec![1u8, 2, 3];
    arf::align_data(&mut data, 4);
    assert_eq!(data, vec![1, 2, 3, 0]);
    arf::align_data(&mut data, 4);
    assert_eq!(data, vec![1, 2, 3, 0]);
    arf::align_data(&mut data, 1);
    assert_eq!(data, vec![1, 2, 3, 0]);
    let mut empty: Vec<u8> = Vec::new();
    arf::align_data(&mut empty, 16);
    assert!(empty.is_empty());
}

#[test]
fn data_beyond_32_bits_is_an_overflow() {
    let object = image(
        vec![
            section(".a", PROGBITS, ALLOC, 0x1000, vec![1]),
            section(".b", PROGBITS, ALLOC, 0x1_0000_1000, vec![2]),
        ],
        Vec::new(),
    );
    assert!(matches!(extract_section_data(&object), Err(ArfError::IntegerOverflow)));
    let mut huge = section(".a", PROGBITS, ALLOC, 0x1000, vec![1]);
    huge.sh_size = 0x1_0000_0000;
    let object = image(vec![huge], Vec::new());
    assert!(matches!(extract_section_data(&object), Err(ArfError::IntegerOverflow)));
    let object = image(
        vec![section(".a", PROGBITS, ALLOC, u64::MAX, vec![1])],
        Vec::new(),
    );
    assert_eq!(extract_section_data(&object).unwrap().len(), 16);
}

#[test]
fn unreadable_bytes_are_malformed_input() {
    let mut text = section(".text", PROGBITS, ALLOC | EXEC, 0x1000, vec![1; 4]);
    text.data = None;
    let object = image(vec![null_section(), text], Vec::new());
    assert!(matches!(extract_section_data(&object), Err(ArfError::MalformedInput)));
    assert!(matches!(
        build_arf_file(false, &object, None, "x86_64"),
        Err(ArfError::MalformedInput)
    ));
    for sh_type in [RELA, REL] {
        let mut relocations = section(".rel", sh_type, 0, 0, Vec::new());
        relocations.data = None;
        let object = image(vec![null_section(), relocations], symbols_for_fixes());
        assert!(matches!(gather_relocations(&object), Err(ArfError::MalformedInput)));
        assert!(matches!(get_fixes(&object), Err(ArfError::MalformedInput)));
        assert!(matches!(
            build_arf_file(false, &object, None, "x86_64"),
            Err(ArfError::MalformedInput)
        ));
    }
    let mut note = section(".note", PROGBITS, 0, 0, Vec::new());
    note.data = None;
    let mut bss = section(".bss", NOBITS, ALLOC | WRITE, 0x2000, Vec::new());
    bss.sh_size = 8;
    bss.data = None;
    let object = image(vec![null_section(), note, bss], Vec::new());
    assert!(extract_section_data(&object).unwrap().is_empty());
    assert!(build_arf_file(false, &object, None, "x86_64").is_ok());
}

#[test]
fn a_needed_library_without_a_name_is_kept_once() {
    let mut table = dyn64(1, 0);
    table.extend(dyn64(1, 0));
    let object = image(
        vec![
            section(".dynstr", STRTAB, ALLOC, 0x100, b"\0".to_vec()),
            section(".dynamic", 6, ALLOC, 0x200, table),
        ],
        Vec::new(),
    );
    let libraries = get_libraries(&object).unwrap();
    assert_eq!(libraries.len(), 1);
    assert_eq!(libraries[0].name(), "");
    assert_eq!(libraries[0].availability(), 0);
    assert_eq!(libraries[0].path(), None);
    let file = build_arf_file(false, &object, None, "x86_64").unwrap();
    let read = ArfFile::from_data(file.to_bytes()).unwrap();
    assert_eq!(read.libraries().len(), 1);
    assert_eq!(read.libraries()[0].name(), "");
}
