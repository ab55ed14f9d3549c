use arf::elf_image::RelEntry;
use arf::fixes::fixes_from_relocations;
use arf::{
    build_arf_file, extract_section_data, get_sections_table, ElfImage, ElfSection, ElfSymbol,
};

struct Lcg(u64);

impl Lcg {
    fn next(&mut self) -> u64 {
        self.0 = self.0.wrapping_mul(6364136223846793005).wrapping_add(1442695040888963407);
        self.0 >> 33
    }

    fn below(&mut self, n: u64) -> u64 {
        self.next() % n
    }
}

const NAMES: [&str; 10] = [
    ".text", ".data", ".rodata", ".debug_line", ".comment", ".symtab", ".init", "", ".got", ".text",
];

fn random_sections(rng: &mut Lcg) -> Vec<ElfSection> {
    let count = rng.below(7) as usize;
    (0..count)
        .map(|_| {
            let len = rng.below(6) as usize;
            let data: Vec<u8> = (0..len).map(|_| 1 + rng.below(200) as u8).collect();
            let size = if rng.below(4) == 0 { rng.below(8) } else { len as u64 };
            ElfSection {
                name: NAMES[rng.below(10) as usize].to_string(),
                sh_type: if rng.below(6) == 0 { 8 } else { 1 },
                sh_flags: rng.below(16),
                sh_addr: 0x1000 + rng.below(40),
                sh_size: size,
                data: if rng.below(20) == 0 { None } else { Some(data) },
            }
        })
        .collect()
}

fn plain_layout(sections: &[ElfSection]) -> Option<Vec<u8>> {
    let mut data = Vec::new();
    let mut with_data = Vec::new();
    let mut min_vaddr = u64::MAX;
    let mut has_loadable = false;
    for section in sections {
        if section.sh_flags & 2 == 0 || section.sh_type == 8 || section.sh_size == 0 {
            continue;
        }
        let name = section.name.as_str();
        if name.starts_with(".debug")
            || name.starts_with(".comment")
            || name == ".shstrtab"
            || name == ".strtab"
            || name == ".symtab"
        {
            continue;
        }
        if section.sh_addr < min_vaddr {
            min_vaddr = section.sh_addr;
        }
        has_loadable = true;
        with_data.push((section, section.data.as_ref()?));
    }
    if !has_loadable {
        return Some(data);
    }
    with_data.sort_by_key(|(section, _)| section.sh_addr);
    let mut current = 0usize;
    for (section, bytes) in with_data {
        let target = (section.sh_addr - min_vaddr) as usize;
        if target > current {
            data.extend(vec![0u8; target - current]);
            current = target;
        }
        data.extend_from_slice(bytes);
        if section.sh_size as usize > bytes.len() {
            data.extend(vec![0u8; section.sh_size as usize - bytes.len()]);
        }
        current += section.sh_size as usize;
    }
    while data.len() % 16 != 0 {
        data.push(0);
    }
    Some(data)
}

fn image(sections: Vec<ElfSection>, symbols: Vec<ElfSymbol>) -> ElfImage {
    ElfImage {
        machine: 62,
        entry: 0,
        little_endian: true,
        is_64: true,
        sections,
        symbols: Some(symbols),
    }
}

#[test]
fn data_is_that_of_a_plain_layout() {
    let mut rng = Lcg(7);
    for _ in 0..3000 {
        let sections = random_sections(&mut rng);
        let expected = plain_layout(&sections);
        let object = image(sections, Vec::new());
        assert_eq!(extract_section_data(&object).ok(), expected);
    }
}

#[test]
fn sections_are_those_seen_first() {
    let mut rng = Lcg(11);
    for _ in 0..2000 {
        let sections = random_sections(&mut rng);
        let mut expected: Vec<(String, u32, u8)> = Vec::new();
        for section in &sections {
            let name = section.name.as_str();
            if expected.iter().any(|s| s.0 == name) || name.is_empty() {
                continue;
            }
            let mut perms = 0u8;
            if section.sh_flags & 4 != 0 {
                perms |= 0x04;
            }
            if section.sh_flags & !7u64 != 0 {
                perms |= 0x10;
            }
            expected.push((name.to_string(), section.sh_addr as u32, perms));
        }
        let object = image(sections, Vec::new());
        let table = get_sections_table(&object).unwrap();
        let got: Vec<(String, u32, u8)> = table
            .iter()
            .map(|s| (s.name().to_string(), s.offset(), s.permissions()))
            .collect();
        assert_eq!(got, expected);
    }
}

#[test]
fn fixes_are_those_of_sort_and_dedup() {
    let names = ["b", "a", "", "ab", "é", "a", "B", "zz"];
    let mut rng = Lcg(13);
    for _ in 0..2000 {
        let symbols: Vec<ElfSymbol> = (0..rng.below(8))
            .map(|_| ElfSymbol {
                name: names[rng.below(8) as usize].to_string(),
                bind: 1,
                shndx: if rng.below(3) == 0 { 1 } else { 0 },
                value: 0,
            })
            .collect();
        let relocations: Vec<RelEntry> = (0..rng.below(12))
            .map(|_| RelEntry { offset: rng.below(6), symbol: rng.below(10) as u32 })
            .collect();
        let mut expected: Vec<(String, u32)> = Vec::new();
        for r in &relocations {
            if let Some(symbol) = symbols.get(r.symbol as usize) {
                let name = symbol.name.as_str();
                if symbol.shndx == 0 && !name.is_empty() {
                    expected.push((name.to_string(), r.offset as u32));
                }
            }
        }
        expected.sort_by(|a, b| a.0.cmp(&b.0).then(a.1.cmp(&b.1)));
        expected.dedup_by(|a, b| a.0 == b.0 && a.1 == b.1);
        let fixes = fixes_from_relocations(&relocations, &symbols).unwrap();
        let got: Vec<(String, u32)> =
            fixes.iter().map(|f| (f.name().to_string(), f.offset())).collect();
        assert_eq!(got, expected);
    }
}

#[test]
fn built_containers_round_trip() {
    let mut rng = Lcg(17);
    for _ in 0..500 {
        let sections = random_sections(&mut rng);
        let symbols: Vec<ElfSymbol> = (0..rng.below(6))
            .map(|_| ElfSymbol {
                name: NAMES[rng.below(10) as usize].to_string(),
                bind: rng.below(4) as u8,
                shndx: rng.below(8) as u16,
                value: rng.below(0x100),
            })
            .collect();
        let readable = plain_layout(&sections).is_some();
        let object = image(sections, symbols);
        let built = build_arf_file(rng.below(2) == 0, &object, Some("console"), "x86");
        assert_eq!(built.is_ok(), readable);
        let file = match built {
            Ok(file) => file,
            Err(_) => continue,
        };
        let bytes = file.to_bytes();
        let read = arf::ArfFile::from_data(bytes.clone()).unwrap();
        assert_eq!(read.to_bytes(), bytes);
        assert_eq!(read.sections().len(), file.sections().len());
        assert_eq!(read.symbols().len(), file.symbols().len());
        assert_eq!(read.data(), file.data());
        assert_eq!(file.data().len() % 16, 0);
        let mut names: Vec<&str> = file.sections().iter().map(|s| s.name()).collect();
        names.sort();
        names.dedup();
        assert_eq!(names.len(), file.sections().len());
        let mut names: Vec<&str> = file.symbols().iter().map(|s| s.name()).collect();
        names.sort();
        names.dedup();
        assert_eq!(names.len(), file.symbols().len());
    }
}
