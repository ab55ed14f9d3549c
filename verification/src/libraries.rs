//! The libraries table of a container, from the dynamic table of an ELF
//! object.

use crate::elf_image::dynamic_entries;
use crate::elf_image::dynamic_entries_of;
use crate::elf_image::DynEntry;
use crate::elf_image::ElfImage;
use crate::elf_image::ElfImageView;
use crate::elf_image::ElfSection;
use crate::elf_image::ElfSectionView;
use crate::elf_image::DT_NEEDED;
use crate::error::ArfError;
use crate::format::has_library;
use crate::format::library_names_distinct;
use crate::format::views;
use crate::format::Library;
use crate::format::LibraryView;
use crate::format::LIB_UNKNOWN;
use crate::text::index_of_byte;
use crate::text::is_c_name;
use crate::text::lemma_index_of_byte_is_first;
use crate::text::copy_range;
use crate::text::find_byte;
use crate::text::str_eq;
use crate::text::string_from_utf8;
use vstd::prelude::*;
use vstd::string::*;
use vstd::utf8::*;

verus! {

/// The index of the last of the first `n` sections that has the name
/// `name`.
pub open spec fn last_named(sections: Seq<ElfSectionView>, name: Seq<char>, n: int) -> Option<int>
    decreases n,
{
    if n <= 0 {
        None
    } else if sections[n - 1].name == name {
        Some(n - 1)
    } else {
        last_named(sections, name, n - 1)
    }
}

/// The string that starts at `offset` in a string table: the bytes up to
/// the next NUL or the end of the table. An offset at or beyond the end is
/// malformed input.
pub open spec fn string_at(table: Seq<u8>, offset: int) -> Result<Seq<char>, ArfError> {
    if offset >= table.len() {
        Err(ArfError::MalformedInput)
    } else {
        let rest = table.skip(offset);
        let bytes = rest.take(index_of_byte(rest, 0));
        if !valid_utf8(bytes) {
            Err(ArfError::InvalidUtf8)
        } else {
            Ok(decode_utf8(bytes))
        }
    }
}

/// The libraries that the first `n` entries of a dynamic table ask for:
/// one for each entry with the tag `DT_NEEDED`, by the name read from
/// `strings`, unless a library of that name is there already.
pub open spec fn needed_libraries(entries: Seq<DynEntry>, strings: Seq<u8>, n: int) -> Result<
    Seq<LibraryView>,
    ArfError,
>
    decreases n,
{
    if n <= 0 {
        Ok(Seq::empty())
    } else {
        match needed_libraries(entries, strings, n - 1) {
            Err(e) => Err(e),
            Ok(done) => if entries[n - 1].tag != DT_NEEDED {
                Ok(done)
            } else {
                match string_at(strings, entries[n - 1].value as int) {
                    Err(e) => Err(e),
                    Ok(name) => if has_library(done, name) {
                        Ok(done)
                    } else {
                        Ok(done.push(LibraryView { name, availability: LIB_UNKNOWN, path: None }))
                    },
                }
            },
        }
    }
}

/// The libraries table of a container made from `image`: empty unless the
/// object has a section `.dynamic` and a section `.dynstr`; else what the
/// dynamic table in the first asks for, by the names in the second. Where
/// the bytes of either cannot be read the input is malformed.
pub open spec fn libraries_of(image: ElfImageView) -> Result<Seq<LibraryView>, ArfError> {
    let n = image.sections.len() as int;
    match (
        last_named(image.sections, ".dynamic"@, n),
        last_named(image.sections, ".dynstr"@, n),
    ) {
        (Some(d), Some(s)) => match (image.sections[d].data, image.sections[s].data) {
            (Some(table), Some(strings)) => {
                let entries = dynamic_entries_of(image.little_endian, image.is_64, table);
                needed_libraries(entries, strings, entries.len() as int)
            },
            _ => Err(ArfError::MalformedInput),
        },
        _ => Ok(Seq::empty()),
    }
}

/// The string that starts at `offset` in a string table.
pub fn extract_string_from_table(strtab_data: &[u8], offset: usize) -> (r: Result<String, ArfError>)
    ensures
        match r {
            Ok(s) => string_at(strtab_data@, offset as int) == Ok::<_, ArfError>(s@),
            Err(e) => string_at(strtab_data@, offset as int) == Err::<Seq<char>, _>(e),
        },
{
    if offset >= strtab_data.len() {
        return Err(ArfError::MalformedInput);
    }
    let ghost rest = strtab_data@.skip(offset as int);
    assert(strtab_data@.subrange(offset as int, strtab_data@.len() as int) =~= rest);
    let end = find_byte(strtab_data, offset, strtab_data.len(), 0);
    let bytes = copy_range(strtab_data, offset, end);
    assert(rest.take(end - offset) =~= bytes@);
    match string_from_utf8(bytes) {
        Some(s) => Ok(s),
        None => Err(ArfError::InvalidUtf8),
    }
}

/// The place of the first library of `libraries` that has the name `name`.
fn find_library(libraries: &Vec<Library>, name: &str) -> (r: Option<usize>)
    ensures
        match r {
            Some(i) => i < libraries.len() && libraries@[i as int]@.name == name@,
            None => !has_library(views(libraries@), name@),
        },
{
    let mut i: usize = 0;
    while i < libraries.len()
        invariant
            i <= libraries.len(),
            forall|j: int| 0 <= j < i ==> (#[trigger] libraries@[j])@.name != name@,
        decreases libraries.len() - i,
    {
        if str_eq(libraries[i].name(), name) {
            return Some(i);
        }
        i += 1;
    }
    assert forall|j: int| 0 <= j < views(libraries@).len() implies (#[trigger] views(
        libraries@,
    )[j]).name != name@ by {
        assert(libraries@[j]@.name != name@);
    }
    None
}

/// The libraries that the entries of a dynamic table ask for, by the names
/// in the string table `strings`.
pub fn libraries_from_entries(entries: &Vec<DynEntry>, strings: &[u8]) -> (r: Result<
    Vec<Library>,
    ArfError,
>)
    ensures
        match r {
            Ok(libraries) => needed_libraries(entries@, strings@, entries@.len() as int) == Ok::<
                _,
                ArfError,
            >(views(libraries@)),
            Err(e) => needed_libraries(entries@, strings@, entries@.len() as int) == Err::<
                Seq<LibraryView>,
                _,
            >(e),
        },
{
    let mut done: Vec<Library> = Vec::new();
    let mut i: usize = 0;
    assert(views(done@) =~= Seq::<LibraryView>::empty());
    while i < entries.len()
        invariant
            i <= entries.len(),
            needed_libraries(entries@, strings@, i as int) == Ok::<_, ArfError>(views(done@)),
        decreases entries.len() - i,
    {
        let entry = entries[i];
        if entry.tag == DT_NEEDED {
            if entry.value >= strings.len() as u64 {
                proof {
                    lemma_needed_libraries_fails(entries@, strings@, i + 1, entries@.len() as int);
                }
                return Err(ArfError::MalformedInput);
            }
            let name = match extract_string_from_table(strings, entry.value as usize) {
                Ok(s) => s,
                Err(e) => {
                    proof {
                        lemma_needed_libraries_fails(
                            entries@,
                            strings@,
                            i + 1,
                            entries@.len() as int,
                        );
                    }
                    return Err(e);
                },
            };
            let found = find_library(&done, name.as_str());
            proof {
                if found is Some {
                    assert(views(done@)[found->0 as int].name == name@);
                }
            }
            if found.is_none() {
                let library = Library::unresolved(name);
                assert(views(done@.push(library)) =~= views(done@).push(library@));
                done.push(library);
            }
        }
        i += 1;
    }
    Ok(done)
}

/// Once a name cannot be read, the table has failed for good.
pub proof fn lemma_needed_libraries_fails(entries: Seq<DynEntry>, strings: Seq<u8>, k: int, m: int)
    requires
        0 <= k <= m,
        needed_libraries(entries, strings, k) is Err,
    ensures
        needed_libraries(entries, strings, m) == needed_libraries(entries, strings, k),
    decreases m - k,
{
    if k < m {
        lemma_needed_libraries_fails(entries, strings, k, m - 1);
    }
}

/// Whether the section has the name `name`.
fn is_named(section: &ElfSection, name: &str) -> (r: bool)
    ensures
        r == (section@.name == name@),
{
    str_eq(section.name.as_str(), name)
}

/// The index of the last section of `image` that has the name `name`.
fn find_last_named(image: &ElfImage, name: &str) -> (r: Option<usize>)
    ensures
        match r {
            Some(i) => i < image.sections.len() && last_named(
                image@.sections,
                name@,
                image@.sections.len() as int,
            ) == Some(i as int),
            None => last_named(image@.sections, name@, image@.sections.len() as int) is None,
        },
{
    let mut found: Option<usize> = None;
    let mut i: usize = 0;
    while i < image.sections.len()
        invariant
            i <= image.sections.len(),
            match found {
                Some(k) => k < i && last_named(image@.sections, name@, i as int) == Some(k as int),
                None => last_named(image@.sections, name@, i as int) is None,
            },
        decreases image.sections.len() - i,
    {
        assert(image@.sections[i as int] == image.sections@[i as int]@);
        if is_named(&image.sections[i], name) {
            found = Some(i);
        }
        i += 1;
    }
    found
}

/// The libraries table of a container: what the dynamic table of `image`
/// asks for.
pub fn get_libraries(image: &ElfImage) -> (r: Result<Vec<Library>, ArfError>)
    ensures
        match r {
            Ok(libraries) => libraries_of(image@) == Ok::<_, ArfError>(views(libraries@)),
            Err(e) => libraries_of(image@) == Err::<Seq<LibraryView>, _>(e),
        },
{
    let dynamic = find_last_named(image, ".dynamic");
    let dynstr = find_last_named(image, ".dynstr");
    match (dynamic, dynstr) {
        (Some(d), Some(s)) => {
            assert(image@.sections[d as int] == image.sections@[d as int]@);
            assert(image@.sections[s as int] == image.sections@[s as int]@);
            match (&image.sections[d].data, &image.sections[s].data) {
                (Some(table), Some(strings)) => {
                    let entries = dynamic_entries(
                        image.little_endian,
                        image.is_64,
                        table.as_slice(),
                    );
                    libraries_from_entries(&entries, strings.as_slice())
                },
                _ => Err(ArfError::MalformedInput),
            }
        },
        _ => {
            let none: Vec<Library> = Vec::new();
            assert(views(none@) =~= Seq::<LibraryView>::empty());
            Ok(none)
        },
    }
}

/// A name that was read from a string table holds no NUL.
pub proof fn lemma_string_at_name(table: Seq<u8>, offset: int)
    requires
        0 <= offset,
    ensures
        string_at(table, offset) matches Ok(name) ==> is_c_name(name),
{
    if offset < table.len() {
        let rest = table.skip(offset);
        let k = index_of_byte(rest, 0);
        lemma_index_of_byte_is_first(rest, 0);
        let bytes = rest.take(k);
        if valid_utf8(bytes) {
            decode_utf8_encode_utf8(bytes);
            assert forall|i: int| 0 <= i < bytes.len() implies #[trigger] bytes[i] != 0 by {
                assert(rest[i] != 0);
            }
        }
    }
}

/// The libraries that a dynamic table asks for are well-formed, and none
/// has the name of another.
pub proof fn lemma_needed_libraries_names(entries: Seq<DynEntry>, strings: Seq<u8>, n: int)
    ensures
        needed_libraries(entries, strings, n) matches Ok(done) ==> library_names_distinct(done)
            && forall|i: int| 0 <= i < done.len() ==> (#[trigger] done[i]).wf(),
    decreases n,
{
    if n > 0 {
        lemma_needed_libraries_names(entries, strings, n - 1);
        if let Ok(before) = needed_libraries(entries, strings, n - 1) {
            if let Ok(done) = needed_libraries(entries, strings, n) {
                if done != before {
                    let name = string_at(strings, entries[n - 1].value as int)->Ok_0;
                    let entry = LibraryView { name, availability: LIB_UNKNOWN, path: None };
                    lemma_string_at_name(strings, entries[n - 1].value as int);
                    assert(done == before.push(entry));
                    assert forall|i: int, j: int| 0 <= i < j < done.len() implies (
                    #[trigger] done[i]).name != (#[trigger] done[j]).name by {
                        if j == before.len() {
                            assert(before[i].name != entry.name);
                        } else {
                            assert(before[i].name != before[j].name);
                        }
                    }
                    assert forall|i: int| 0 <= i < done.len() implies (#[trigger] done[i]).wf() by {
                        if i < before.len() {
                            assert(before[i].wf());
                        }
                    }
                }
            }
        }
    }
}

/// The libraries table is well-formed, and no library has the name of
/// another.
pub proof fn lemma_libraries_of_names(image: ElfImageView)
    ensures
        libraries_of(image) matches Ok(done) ==> library_names_distinct(done) && forall|i: int|
            0 <= i < done.len() ==> (#[trigger] done[i]).wf(),
{
    let n = image.sections.len() as int;
    if let (Some(d), Some(s)) = (
        last_named(image.sections, ".dynamic"@, n),
        last_named(image.sections, ".dynstr"@, n),
    ) {
        if let (Some(table), Some(strings)) = (image.sections[d].data, image.sections[s].data) {
            let entries = dynamic_entries_of(image.little_endian, image.is_64, table);
            lemma_needed_libraries_names(entries, strings, entries.len() as int);
        }
    }
}

} // verus!
