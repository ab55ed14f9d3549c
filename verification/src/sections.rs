//! The sections table of a container, from the section headers of an ELF
//! object.

use crate::elf_image::ElfImage;
use crate::elf_image::ElfSectionView;
use crate::elf_image::SHF_EXECINSTR;
use crate::error::ArfError;
use crate::format::section_names_distinct;
use crate::format::views;
use crate::format::Section;
use crate::format::SectionView;
use crate::format::PERM_EXEC;
use crate::format::PERM_UNKNOWN;
use crate::text::is_c_name;
use crate::text::is_c_str;
use crate::text::str_eq;
use vstd::prelude::*;
use vstd::string::*;

verus! {

/// The section flags that the permissions know nothing of: all but
/// allocated, writable and executable.
pub const UNKNOWN_FLAGS: u64 = 0xFFFF_FFFF_FFFF_FFF8;

/// The low 32 bits of `x`.
pub open spec fn low32(x: u64) -> u32 {
    (x % 0x1_0000_0000) as u32
}

/// The permissions byte for section flags: `PERM_EXEC` exactly where the
/// section holds instructions, `PERM_UNKNOWN` exactly where a flag is set
/// that is none of allocated, writable and executable.
pub open spec fn permissions_of(flags: u64) -> u8 {
    ((if flags & SHF_EXECINSTR != 0 {
        PERM_EXEC
    } else {
        0u8
    }) + (if flags & UNKNOWN_FLAGS != 0 {
        PERM_UNKNOWN
    } else {
        0u8
    })) as u8
}

/// Some section of `sections` has the name `name`.
pub open spec fn has_section(sections: Seq<SectionView>, name: Seq<char>) -> bool {
    exists|i: int| 0 <= i < sections.len() && (#[trigger] sections[i]).name == name
}

/// The entry that a section header is recorded as.
pub open spec fn recorded(s: ElfSectionView) -> SectionView {
    SectionView {
        name: s.name,
        offset: low32(s.sh_addr),
        permissions: permissions_of(s.sh_flags),
    }
}

/// Whether a section header adds an entry to `table`: its name is not
/// empty and not in the table yet.
pub open spec fn is_new_section(table: Seq<SectionView>, s: ElfSectionView) -> bool {
    s.name.len() > 0 && !has_section(table, s.name)
}

/// The sections table for the first `n` section headers: one entry for each
/// header whose name is not empty and was not seen before, in the order of
/// the headers. A name that holds a NUL cannot be recorded: the input is
/// malformed.
pub open spec fn sections_table(headers: Seq<ElfSectionView>, n: int) -> Result<
    Seq<SectionView>,
    ArfError,
>
    decreases n,
{
    if n <= 0 {
        Ok(Seq::empty())
    } else {
        match sections_table(headers, n - 1) {
            Err(e) => Err(e),
            Ok(table) => if !is_new_section(table, headers[n - 1]) {
                Ok(table)
            } else if !is_c_name(headers[n - 1].name) {
                Err(ArfError::MalformedInput)
            } else {
                Ok(table.push(recorded(headers[n - 1])))
            },
        }
    }
}

/// The place of the first section of `sections` that has the name `name`.
pub fn find_section(sections: &Vec<Section>, name: &str) -> (r: Option<usize>)
    ensures
        match r {
            Some(i) => i < sections.len() && sections@[i as int]@.name == name@ && forall|j: int|
                0 <= j < i ==> (#[trigger] sections@[j])@.name != name@,
            None => !has_section(views(sections@), name@),
        },
{
    let mut i: usize = 0;
    while i < sections.len()
        invariant
            i <= sections.len(),
            forall|j: int| 0 <= j < i ==> (#[trigger] sections@[j])@.name != name@,
        decreases sections.len() - i,
    {
        if str_eq(sections[i].name(), name) {
            return Some(i);
        }
        i += 1;
    }
    assert forall|j: int| 0 <= j < views(sections@).len() implies (#[trigger] views(
        sections@,
    )[j]).name != name@ by {
        assert(sections@[j]@.name != name@);
    }
    None
}

/// The permissions byte for section flags.
pub fn section_permissions(flags: u64) -> (r: u8)
    ensures
        r == permissions_of(flags),
{
    let mut perms: u8 = 0;
    if flags & SHF_EXECINSTR != 0 {
        perms = perms + PERM_EXEC;
    }
    if flags & UNKNOWN_FLAGS != 0 {
        perms = perms + PERM_UNKNOWN;
    }
    perms
}

/// The low 32 bits of `x`.
pub fn truncate32(x: u64) -> (r: u32)
    ensures
        r == low32(x),
{
    (x % 0x1_0000_0000) as u32
}

/// The sections table of a container: one entry for each section header of
/// `image` whose name is not empty and was not seen before.
pub fn get_sections_table(image: &ElfImage) -> (r: Result<Vec<Section>, ArfError>)
    ensures
        match r {
            Ok(table) => sections_table(image@.sections, image@.sections.len() as int) == Ok::<
                _,
                ArfError,
            >(views(table@)),
            Err(e) => sections_table(image@.sections, image@.sections.len() as int) == Err::<
                Seq<SectionView>,
                _,
            >(e),
        },
{
    let headers = &image.sections;
    let mut sections: Vec<Section> = Vec::new();
    let mut i: usize = 0;
    assert(views(sections@) =~= Seq::<SectionView>::empty());
    while i < headers.len()
        invariant
            i <= headers.len(),
            headers == &image.sections,
            sections_table(image@.sections, i as int) == Ok::<_, ArfError>(views(sections@)),
        decreases headers.len() - i,
    {
        let header = &headers[i];
        assert(image@.sections[i as int] == header@);
        let name = header.name.as_str();
        let found = find_section(&sections, name);
        let empty = name.as_bytes().len() == 0;
        if !empty && found.is_none() {
            proof {
                lemma_str_len(name@);
            }
            if !is_c_str(name) {
                proof {
                    lemma_sections_table_fails(
                        image@.sections,
                        i + 1,
                        image@.sections.len() as int,
                    );
                }
                return Err(ArfError::MalformedInput);
            }
            let section = Section::new(
                name.to_owned(),
                truncate32(header.sh_addr),
                section_permissions(header.sh_flags),
            );
            assert(views(sections@.push(section)) =~= views(sections@).push(section@));
            sections.push(section);
        } else {
            proof {
                lemma_str_len(name@);
                if !empty {
                    let j = found->0 as int;
                    assert(views(sections@)[j].name == name@);
                }
            }

        }
        i += 1;
    }
    Ok(sections)
}

/// A string has no bytes exactly when it has no characters.
pub proof fn lemma_str_len(s: Seq<char>)
    ensures
        (s.len() == 0) == (vstd::utf8::encode_utf8(s).len() == 0),
{
    if s.len() > 0 {
        vstd::utf8::encode_utf8_first_scalar(s);
    }
}

/// Once a name cannot be recorded, the table has failed for good.
pub proof fn lemma_sections_table_fails(headers: Seq<ElfSectionView>, k: int, m: int)
    requires
        0 <= k <= m,
        sections_table(headers, k) is Err,
    ensures
        sections_table(headers, m) == sections_table(headers, k),
    decreases m - k,
{
    if k < m {
        lemma_sections_table_fails(headers, k, m - 1);
    }
}

/// The sections table holds names without NUL, and no name twice.
pub proof fn lemma_sections_table_names(headers: Seq<ElfSectionView>, n: int)
    ensures
        sections_table(headers, n) matches Ok(table) ==> section_names_distinct(table) && forall|
            i: int,
        | 0 <= i < table.len() ==> is_c_name(#[trigger] table[i].name),
    decreases n,
{
    if n > 0 {
        lemma_sections_table_names(headers, n - 1);
        if let Ok(before) = sections_table(headers, n - 1) {
            if let Ok(table) = sections_table(headers, n) {
                if table != before {
                    let entry = recorded(headers[n - 1]);
                    assert(table == before.push(entry));
                    assert forall|i: int, j: int| 0 <= i < j < table.len() implies (
                    #[trigger] table[i]).name != (#[trigger] table[j]).name by {
                        if j == before.len() {
                            assert(before[i].name != entry.name);
                        } else {
                            assert(before[i].name != before[j].name);
                        }
                    }
                    assert forall|i: int| 0 <= i < table.len() implies is_c_name(
                        #[trigger] table[i].name,
                    ) by {
                        if i < before.len() {
                            assert(is_c_name(before[i].name));
                        }
                    }
                }
            }
        }
    }
}

/// Section headers whose names hold no NUL have a sections table.
pub proof fn lemma_sections_table_ok(headers: Seq<ElfSectionView>, n: int)
    requires
        0 <= n <= headers.len(),
        forall|j: int| 0 <= j < n ==> is_c_name(#[trigger] headers[j].name),
    ensures
        sections_table(headers, n) is Ok,
    decreases n,
{
    if n > 0 {
        lemma_sections_table_ok(headers, n - 1);
        assert(is_c_name(headers[n - 1].name));
    }
}

} // verus!
