use arf::elf_image::{
    DT_NEEDED, SHF_ALLOC, SHF_EXECINSTR, SHF_WRITE, SHN_COMMON, SHN_UNDEF, SHT_NOBITS, SHT_REL,
    SHT_RELA, STB_GLOBAL, STB_LOCAL, STB_WEAK,
};
use arf::elf_image::{ElfHeader, ElfSectionEntry, ElfSymbolEntry};
use arf::{get_arf_file, ArfError, ArfFile, Architecture, ElfImage};

struct Sec {
    name: &'static str,
    typ: u32,
    flags: u64,
    addr: u64,
    data: Vec<u8>,
    link: u32,
    entsize: u64,
}

fn sec(name: &'static str, typ: u32, flags: u64, addr: u64, data: Vec<u8>) -> Sec {
    Sec { name, typ, flags, addr, data, link: 0, entsize: 0 }
}

struct Writer {
    wide: bool,
    little: bool,
    out: Vec<u8>,
}

impl Writer {
    fn u16(&mut self, v: u16) {
        if self.little {
            self.out.extend_from_slice(&v.to_le_bytes());
        } else {
            self.out.extend_from_slice(&v.to_be_bytes());
        }
    }

    fn u32(&mut self, v: u32) {
        if self.little {
            self.out.extend_from_slice(&v.to_le_bytes());
        } else {
            self.out.extend_from_slice(&v.to_be_bytes());
        }
    }

    fn u64(&mut self, v: u64) {
        if self.little {
            self.out.extend_from_slice(&v.to_le_bytes());
        } else {
            self.out.extend_from_slice(&v.to_be_bytes());
        }
    }

    fn word(&mut self, v: u64) {
        if self.wide {
            self.u64(v);
        } else {
            self.u32(v as u32);
        }
    }
}

fn symbol_entry(wide: bool, little: bool, name: u32, info: u8, shndx: u16, value: u64) -> Vec<u8> {
    let mut w = Writer { wide, little, out: Vec::new() };
    w.u32(name);
    if wide {
        w.out.push(info);
        w.out.push(0);
        w.u16(shndx);
        w.u64(value);
        w.u64(0);
    } else {
        w.u32(value as u32);
        w.u32(0);
        w.out.push(info);
        w.out.push(0);
        w.u16(shndx);
    }
    w.out
}

fn rela_entry(wide: bool, little: bool, offset: u64, sym: u32) -> Vec<u8> {
    let mut w = Writer { wide, little, out: Vec::new() };
    w.word(offset);
    if wide {
        w.u64(((sym as u64) << 32) | 7);
        w.u64(0);
    } else {
        w.u32((sym << 8) | 7);
        w.u32(0);
    }
    w.out
}

fn rel_entry(wide: bool, little: bool, offset: u64, sym: u32) -> Vec<u8> {
    let mut w = Writer { wide, little, out: Vec::new() };
    w.word(offset);
    if wide {
        w.u64(((sym as u64) << 32) | 7);
    } else {
        w.u32((sym << 8) | 7);
    }
    w.out
}

fn dyn_entry(wide: bool, little: bool, tag: u64, value: u64) -> Vec<u8> {
    let mut w = Writer { wide, little, out: Vec::new() };
    w.word(tag);
    w.word(value);
    w.out
}

fn build_elf(wide: bool, little: bool, machine: u16, entry: u64, sections: Vec<Sec>) -> Vec<u8> {
    let mut names = vec![0u8];
    let mut name_at = vec![0u32];
    for s in &sections {
        name_at.push(names.len() as u32);
        names.extend_from_slice(s.name.as_bytes());
        names.push(0);
    }
    name_at.push(names.len() as u32);
    names.extend_from_slice(b".shstrtab\0");
    let mut all = vec![sec("", 0, 0, 0, Vec::new())];
    all.extend(sections);
    all.push(sec(".shstrtab", 3, 0, 0, names));
    let header_size: u64 = if wide { 64 } else { 52 };
    let mut offsets = Vec::new();
    let mut at = header_size;
    for s in &all {
        offsets.push(at);
        if s.typ != 8 {
            at += s.data.len() as u64;
        }
    }
    let shoff = at;
    let mut w = Writer { wide, little, out: Vec::new() };
    w.out.extend_from_slice(&[0x7F, b'E', b'L', b'F']);
    w.out.push(if wide { 2 } else { 1 });
    w.out.push(if little { 1 } else { 2 });
    w.out.push(1);
    w.out.extend_from_slice(&[0; 9]);
    w.u16(2);
    w.u16(machine);
    w.u32(1);
    w.word(entry);
    w.word(0);
    w.word(shoff);
    w.u32(0);
    w.u16(header_size as u16);
    w.u16(if wide { 56 } else { 32 });
    w.u16(0);
    w.u16(if wide { 64 } else { 40 });
    w.u16(all.len() as u16);
    w.u16(all.len() as u16 - 1);
    for s in &all {
        if s.typ != 8 {
            w.out.extend_from_slice(&s.data);
        }
    }
    for (i, s) in all.iter().enumerate() {
        w.u32(name_at[i]);
        w.u32(s.typ);
        w.word(s.flags);
        w.word(s.addr);
        w.word(offsets[i]);
        w.word(if s.typ == 8 { 0x40 } else { s.data.len() as u64 });
        w.u32(s.link);
        w.u32(0);
        w.word(1);
        w.word(s.entsize);
    }
    w.out
}

fn sample(wide: bool, little: bool, machine: u16) -> Vec<u8> {
    let strtab = b"\0main\0puts\0helper\0exit\0".to_vec();
    let mut symtab = symbol_entry(wide, little, 0, 0, 0, 0);
    symtab.extend(symbol_entry(wide, little, 1, 0x12, 1, 0x1000));
    symtab.extend(symbol_entry(wide, little, 6, 0x10, 0, 0));
    symtab.extend(symbol_entry(wide, little, 11, 0x02, 2, 0x8));
    symtab.extend(symbol_entry(wide, little, 18, 0x20, 0, 0));
    symtab.extend(symbol_entry(wide, little, 1, 0x10, 2, 0x77));
    symtab.extend(symbol_entry(wide, little, 11, 0xA0, 1, 0x4));
    let mut rela = rela_entry(wide, little, 0x1002, 2);
    rela.extend(rela_entry(wide, little, 0x1001, 4));
    rela.extend(rela_entry(wide, little, 0x1003, 1));
    let mut rel = rel_entry(wide, little, 0x2004, 2);
    rel.extend(rel_entry(wide, little, 0x1002, 2));
    let mut dynamic = dyn_entry(wide, little, 1, 1);
    dynamic.extend(dyn_entry(wide, little, 5, 0x3000));
    dynamic.extend(dyn_entry(wide, little, 1, 9));
    dynamic.extend(dyn_entry(wide, little, 0, 0));
    let mut symtab_sec = sec(".symtab", 2, 0, 0, symtab);
    symtab_sec.link = 8;
    symtab_sec.entsize = if wide { 24 } else { 16 };
    build_elf(
        wide,
        little,
        machine,
        0x1000,
        vec![
            sec(".text", 1, 6, 0x1000, vec![0x90, 0x90, 0x90, 0xC3]),
            sec(".data", 1, 3, 0x2000, vec![1, 2, 3, 4, 5, 6]),
            sec(".bss", 8, 3, 0x2010, Vec::new()),
            sec(".dynstr", 3, 2, 0x3000, b"\0libc.so\0libm.so\0".to_vec()),
            sec(".dynamic", 6, 3, 0x3020, dynamic),
            sec(".rela.text", 4, 0, 0, rela),
            sec(".symtab", 2, 0, 0, Vec::new()),
            sec(".strtab", 3, 0, 0, strtab),
            sec(".rel.data", 9, 0, 0, rel),
            sec(".comment", 1, 0, 0, b"made by hand\0".to_vec()),
        ]
        .into_iter()
        .map(|s| if s.name == ".symtab" { Sec { data: symtab_sec.data.clone(), link: 8, entsize: symtab_sec.entsize, ..s } } else { s })
        .collect(),
    )
}

fn check_container(file: &ArfFile, dynamic_len: u64) {
    let sections: Vec<(&str, u32, u8)> =
        file.sections().iter().map(|s| (s.name(), s.offset(), s.permissions())).collect();
    assert_eq!(
        sections,
        vec![
            (".text", 0x1000, 0x04),
            (".data", 0x2000, 0x00),
            (".bss", 0x2010, 0x00),
            (".dynstr", 0x3000, 0x00),
            (".dynamic", 0x3020, 0x00),
            (".rela.text", 0, 0x00),
            (".symtab", 0, 0x00),
            (".strtab", 0, 0x00),
            (".rel.data", 0, 0x00),
            (".comment", 0, 0x00),
            (".shstrtab", 0, 0x00),
        ]
    );
    let symbols: Vec<(&str, u8, u8, u32)> = file
        .symbols()
        .iter()
        .map(|s| (s.name(), s.resolution(), s.typ(), s.addr()))
        .collect();
    assert_eq!(
        symbols,
        vec![
            ("main", 0, 1, 0x2000),
            ("puts", 1, 1, 0),
            ("helper", 0, 0, 0x2008),
            ("exit", 1, 2, 0),
        ]
    );
    let libraries: Vec<(&str, u8, Option<&str>)> =
        file.libraries().iter().map(|l| (l.name(), l.availability(), l.path())).collect();
    assert_eq!(libraries, vec![("libc.so", 0, None), ("libm.so", 0, None)]);
    let fixes: Vec<(&str, u32)> = file.fixes().iter().map(|f| (f.name(), f.offset())).collect();
    assert_eq!(fixes, vec![("exit", 0x1001), ("puts", 0x1002), ("puts", 0x2004)]);
    let data = file.data();
    assert_eq!(data.len() as u64, (0x2020 + dynamic_len + 15) / 16 * 16);
    assert_eq!(&data[..4], &[0x90, 0x90, 0x90, 0xC3]);
    assert!(data[4..0x1000].iter().all(|b| *b == 0));
    assert_eq!(&data[0x1000..0x1006], &[1, 2, 3, 4, 5, 6]);
    assert!(data[0x1006..0x2000].iter().all(|b| *b == 0));
    assert_eq!(&data[0x2000..0x2011], b"\0libc.so\0libm.so\0");
    assert!(data[0x2011..0x2020].iter().all(|b| *b == 0));
    assert_eq!(data[0x2020], if dynamic_len == 64 { 1 } else { 0 });
}

#[test]
fn builds_from_a_64_bit_object() {
    let bytes = sample(true, true, 62);
    let file = get_arf_file(false, bytes, None, "x86_64").unwrap();
    assert_eq!(file.header().version_str(), "ARF003");
    assert_eq!(file.header().architecture(), Architecture::X86_64);
    assert_eq!(file.header().entry_point(), 0x1000);
    assert!(file.requests().is_empty());
    check_container(&file, 64);
    let read = ArfFile::from_data(file.to_bytes()).unwrap();
    check_container(&read, 64);
    assert_eq!(read.to_bytes(), file.to_bytes());
}

#[test]
fn builds_from_a_32_bit_big_endian_object() {
    let bytes = sample(false, false, 40);
    let file = get_arf_file(true, bytes, Some("framebuffer\n"), "aarch64").unwrap();
    assert_eq!(file.header().version_str(), "ARL003");
    assert!(file.header().library());
    assert_eq!(file.header().architecture(), Architecture::ARMv7);
    assert_eq!(file.header().host_architecture(), Architecture::Aarch64);
    assert_eq!(file.requests().len(), 1);
    assert_eq!(file.requests()[0].byte(), 0x01);
    check_container(&file, 32);
}

#[test]
fn reads_the_image_of_an_object() {
    let image = ElfImage::from_bytes(&sample(true, true, 183)).unwrap();
    assert_eq!(image.machine, 183);
    assert_eq!(image.entry, 0x1000);
    assert!(image.little_endian);
    assert!(image.is_64);
    assert_eq!(image.sections.len(), 12);
    assert_eq!(image.sections[0].name, "");
    assert_eq!(image.sections[1].name, ".text");
    assert_eq!(image.sections[1].sh_type, 1);
    assert_eq!(image.sections[1].sh_flags, 6);
    assert_eq!(image.sections[1].sh_addr, 0x1000);
    assert_eq!(image.sections[1].sh_size, 4);
    assert_eq!(image.sections[1].data, Some(vec![0x90, 0x90, 0x90, 0xC3]));
    assert_eq!(image.sections[3].sh_type, 8);
    assert_eq!(image.sections[3].sh_size, 0x40);
    assert_eq!(image.sections[3].data, Some(Vec::new()));
    assert_eq!(image.sections[11].name, ".shstrtab");
    let symbols = image.symbols.unwrap();
    assert_eq!(symbols.len(), 7);
    assert_eq!(symbols[1].name, "main");
    assert_eq!(symbols[1].bind, 1);
    assert_eq!(symbols[1].shndx, 1);
    assert_eq!(symbols[1].value, 0x1000);
    assert_eq!(symbols[6].bind, 10);
    let image = ElfImage::from_bytes(&sample(false, false, 3)).unwrap();
    assert_eq!(image.machine, 3);
    assert!(!image.little_endian);
    assert!(!image.is_64);
    assert_eq!(image.sections[2].data, Some(vec![1, 2, 3, 4, 5, 6]));
}

#[test]
fn object_without_symbol_table() {
    let bytes = build_elf(true, true, 62, 0, vec![sec(".text", 1, 6, 0x1000, vec![1])]);
    let image = ElfImage::from_bytes(&bytes).unwrap();
    assert!(image.symbols.is_none());
    let file = get_arf_file(false, bytes, None, "x86_64").unwrap();
    assert!(file.symbols().is_empty());
    assert!(file.fixes().is_empty());
    assert_eq!(file.sections().len(), 2);
    assert_eq!(file.data().len(), 16);
}

#[test]
fn section_beyond_the_file_has_no_bytes() {
    let mut bytes = build_elf(true, true, 62, 0, vec![sec(".text", 1, 6, 0x1000, vec![1, 2])]);
    let shoff = u64::from_le_bytes(bytes[40..48].try_into().unwrap()) as usize;
    let size_at = shoff + 64 + 32;
    bytes[size_at..size_at + 8].copy_from_slice(&0x10_0000u64.to_le_bytes());
    let image = ElfImage::from_bytes(&bytes).unwrap();
    assert_eq!(image.sections[1].sh_size, 0x10_0000);
    assert_eq!(image.sections[1].data, None);
    assert_eq!(image.sections[2].data.as_deref(), Some(&b"\0.text\0.shstrtab\0"[..]));
    assert!(matches!(get_arf_file(false, bytes, None, "x86_64"), Err(ArfError::MalformedInput)));
}

#[test]
fn name_outside_the_string_table_is_malformed() {
    let mut bytes = build_elf(true, true, 62, 0, vec![sec(".text", 1, 6, 0x1000, vec![1, 2])]);
    let shoff = u64::from_le_bytes(bytes[40..48].try_into().unwrap()) as usize;
    bytes[shoff + 64..shoff + 68].copy_from_slice(&0x1000u32.to_le_bytes());
    assert!(matches!(ElfImage::from_bytes(&bytes), Err(ArfError::MalformedInput)));
    assert!(matches!(get_arf_file(false, bytes, None, "x86_64"), Err(ArfError::MalformedInput)));
}

#[test]
fn object_without_section_names_is_malformed() {
    let mut bytes = build_elf(true, true, 62, 0, vec![sec(".text", 1, 6, 0x1000, vec![1, 2])]);
    bytes[62..64].copy_from_slice(&0u16.to_le_bytes());
    assert!(matches!(ElfImage::from_bytes(&bytes), Err(ArfError::MalformedInput)));
}

#[test]
fn name_that_is_not_utf8_is_refused() {
    let bytes = build_elf(true, true, 62, 0, vec![sec(".t\u{e9}xt", 1, 6, 0x1000, vec![1, 2])]);
    let image = ElfImage::from_bytes(&bytes).unwrap();
    assert_eq!(image.sections[1].name, ".t\u{e9}xt");
    let mut bytes = bytes;
    let at = bytes.windows(2).position(|w| w == [0xC3, 0xA9]).unwrap();
    bytes[at + 1] = 0x28;
    assert!(matches!(ElfImage::from_bytes(&bytes), Err(ArfError::InvalidUtf8)));
    assert!(matches!(get_arf_file(false, bytes, None, "x86_64"), Err(ArfError::InvalidUtf8)));
    let mut bytes = sample(true, true, 62);
    let at = bytes.windows(5).position(|w| w == b"puts\0").unwrap();
    bytes[at] = 0xFF;
    assert!(matches!(ElfImage::from_bytes(&bytes), Err(ArfError::InvalidUtf8)));
}

#[test]
fn rejects_what_is_no_object() {
    assert!(matches!(ElfImage::from_bytes(&[]), Err(ArfError::MalformedInput)));
    assert!(matches!(ElfImage::from_bytes(b"\x7FELF"), Err(ArfError::MalformedInput)));
    let good = sample(true, true, 62);
    let mut bad = good.clone();
    bad[0] = 0x7E;
    assert!(matches!(ElfImage::from_bytes(&bad), Err(ArfError::MalformedInput)));
    assert!(matches!(
        ElfImage::from_bytes(&good[..good.len() - 1]),
        Err(ArfError::MalformedInput)
    ));
    assert!(matches!(
        get_arf_file(false, good[..64].to_vec(), None, "x86_64"),
        Err(ArfError::MalformedInput)
    ));
}

#[test]
fn object_without_section_headers_is_malformed() {
    let mut bytes = sample(true, true, 62);
    bytes[40..48].copy_from_slice(&0u64.to_le_bytes());
    assert!(matches!(ElfImage::from_bytes(&bytes), Err(ArfError::MalformedInput)));
}

#[test]
fn unsupported_machine_of_an_object() {
    let bytes = sample(true, true, 243);
    assert!(matches!(
        get_arf_file(false, bytes, None, "x86_64"),
        Err(ArfError::UnsupportedArchitecture)
    ));
}

#[test]
fn constants_are_those_of_the_elf_crate() {
    assert_eq!(arf::arch::EM_386, elf::abi::EM_386);
    assert_eq!(arf::arch::EM_X86_64, elf::abi::EM_X86_64);
    assert_eq!(arf::arch::EM_ARM, elf::abi::EM_ARM);
    assert_eq!(arf::arch::EM_AARCH64, elf::abi::EM_AARCH64);
    assert_eq!(SHF_WRITE, elf::abi::SHF_WRITE as u64);
    assert_eq!(SHF_ALLOC, elf::abi::SHF_ALLOC as u64);
    assert_eq!(SHF_EXECINSTR, elf::abi::SHF_EXECINSTR as u64);
    assert_eq!(SHT_RELA, elf::abi::SHT_RELA);
    assert_eq!(SHT_REL, elf::abi::SHT_REL);
    assert_eq!(SHT_NOBITS, elf::abi::SHT_NOBITS);
    assert_eq!(SHN_UNDEF, elf::abi::SHN_UNDEF);
    assert_eq!(SHN_COMMON, elf::abi::SHN_COMMON);
    assert_eq!(STB_LOCAL, elf::abi::STB_LOCAL);
    assert_eq!(STB_GLOBAL, elf::abi::STB_GLOBAL);
    assert_eq!(STB_WEAK, elf::abi::STB_WEAK);
    assert_eq!(DT_NEEDED, elf::abi::DT_NEEDED);
}

#[test]
fn image_from_its_parts() {
    let header = ElfHeader { machine: 3, entry: 0x80, little_endian: false, is_64: false };
    let entry = |name: Option<&[u8]>, addr: u64| ElfSectionEntry {
        name: name.map(|n| n.to_vec()),
        sh_type: 1,
        sh_flags: 2,
        sh_addr: addr,
        sh_size: 2,
    };
    let symbol = |name: Option<&[u8]>| ElfSymbolEntry {
        name: name.map(|n| n.to_vec()),
        bind: 1,
        shndx: 2,
        value: 7,
    };
    let table = vec![entry(Some(b".a"), 0x10), entry(Some("\u{e9}".as_bytes()), 0x20)];
    let data = vec![Some(vec![1, 2]), None];
    let image = ElfImage::from_parts(header, &table, &data, &None).unwrap();
    assert_eq!(image.machine, 3);
    assert_eq!(image.entry, 0x80);
    assert!(!image.little_endian);
    assert!(!image.is_64);
    assert!(image.symbols.is_none());
    assert_eq!(image.sections.len(), 2);
    assert_eq!(image.sections[0].name, ".a");
    assert_eq!(image.sections[0].sh_addr, 0x10);
    assert_eq!(image.sections[0].data, Some(vec![1, 2]));
    assert_eq!(image.sections[1].name, "\u{e9}");
    assert_eq!(image.sections[1].data, None);
    let short = ElfImage::from_parts(header, &table, &vec![Some(vec![5])], &None).unwrap();
    assert_eq!(short.sections[0].data, Some(vec![5]));
    assert_eq!(short.sections[1].data, None);
    let symbols = Some(vec![symbol(Some(b"main")), symbol(Some(b""))]);
    let image = ElfImage::from_parts(header, &table, &data, &symbols).unwrap();
    let named = image.symbols.unwrap();
    assert_eq!(named.len(), 2);
    assert_eq!(named[0].name, "main");
    assert_eq!((named[0].bind, named[0].shndx, named[0].value), (1, 2, 7));
    assert_eq!(named[1].name, "");
    let unnamed = vec![entry(Some(b".a"), 0x10), entry(None, 0x20)];
    assert!(matches!(
        ElfImage::from_parts(header, &unnamed, &data, &None),
        Err(ArfError::MalformedInput)
    ));
    let garbled = vec![entry(Some(&[0xC3, 0x28]), 0x10), entry(None, 0x20)];
    assert!(matches!(
        ElfImage::from_parts(header, &garbled, &data, &None),
        Err(ArfError::InvalidUtf8)
    ));
    assert!(matches!(
        ElfImage::from_parts(header, &table, &data, &Some(vec![symbol(None)])),
        Err(ArfError::MalformedInput)
    ));
    assert!(matches!(
        ElfImage::from_parts(header, &table, &data, &Some(vec![symbol(Some(&[0x80]))])),
        Err(ArfError::InvalidUtf8)
    ));
    assert!(matches!(
        ElfImage::from_parts(header, &unnamed, &data, &Some(vec![symbol(Some(&[0x80]))])),
        Err(ArfError::MalformedInput)
    ));
    let image = ElfImage::from_parts(header, &Vec::new(), &Vec::new(), &Some(Vec::new())).unwrap();
    assert!(image.sections.is_empty());
    assert_eq!(image.symbols.map(|s| s.len()), Some(0));
}
