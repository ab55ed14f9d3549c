//! The builder: from an ELF object, and a descriptor if there is one, to
//! a container.

use crate::arch::Architecture;
use crate::data_image::data_image;
use crate::data_image::is_candidate;
use crate::fixes::fix_for;
use crate::fixes::lemma_fixes_from_none;
use crate::fixes::relocations_of;
use crate::libraries::last_named;
use crate::sections::lemma_sections_table_ok;
use crate::symbols::lemma_symbols_table_ok;
use crate::symbols::symbol_address;
use crate::text::is_c_name;
use crate::data_image::extract_section_data;
use crate::descriptor::description_of;
use crate::descriptor::lemma_with_lines_requests;
use crate::descriptor::parse_ad_file;
use crate::descriptor::DescriptionView;
use crate::elf_image::image_of;
use crate::elf_image::ElfImage;
use crate::elf_image::ElfImageView;
use crate::error::ArfError;
use crate::fixes::fixes_of;
use crate::fixes::get_fixes;
use crate::fixes::lemma_fixes_of_normal;
use crate::format::canonical_tag;
use crate::format::views;
use crate::format::ArfFile;
use crate::format::ArfFileView;
use crate::format::Header;
use crate::format::HeaderView;
use crate::format::Request;
use crate::libraries::get_libraries;
use crate::libraries::lemma_libraries_of_names;
use crate::libraries::libraries_of;
use crate::sections::get_sections_table;
use crate::sections::lemma_sections_table_names;
use crate::sections::low32;
use crate::sections::sections_table;
use crate::sections::truncate32;
use crate::symbols::get_symbols;
use crate::symbols::lemma_symbols_table_names;
use crate::symbols::symbols_of;
use crate::wire::emit;
use crate::wire::parse;
use vstd::prelude::*;
use vstd::utf8::*;

verus! {

/// The tables and the data of a container made from `image`: the first of
/// sections, symbols, libraries, fixes and data that cannot be made gives
/// its error.
pub open spec fn body_of(header: HeaderView, image: ElfImageView) -> Result<ArfFileView, ArfError> {
    match sections_table(image.sections, image.sections.len() as int) {
        Err(e) => Err(e),
        Ok(sections) => match symbols_of(image, sections) {
            Err(e) => Err(e),
            Ok(symbols) => match libraries_of(image) {
                Err(e) => Err(e),
                Ok(libraries) => match fixes_of(image) {
                    Err(e) => Err(e),
                    Ok(fixes) => match data_image(image.sections) {
                        Err(e) => Err(e),
                        Ok(data) => Ok(
                            ArfFileView {
                                header,
                                sections,
                                symbols,
                                libraries,
                                fixes,
                                requests: Seq::empty(),
                                data,
                            },
                        ),
                    },
                },
            },
        },
    }
}

/// `f` with what a descriptor says: its requests, and that the container
/// is a library if the descriptor says so; a container that is a library
/// already stays one.
pub open spec fn described(f: ArfFileView, d: DescriptionView) -> ArfFileView {
    ArfFileView {
        header: HeaderView {
            version: canonical_tag(f.header.library || d.library),
            library: f.header.library || d.library,
            ..f.header
        },
        requests: d.extensions,
        ..f
    }
}

/// The container for an ELF object: the header from the machine of the
/// object, the name of the host and the entry point; the tables and the
/// data from the object; then what the descriptor says, if there is one.
/// A machine or a host that is none of the four is unsupported.
pub open spec fn built_from(
    library: bool,
    image: ElfImageView,
    descriptor: Option<Seq<u8>>,
    host: Seq<char>,
) -> Result<ArfFileView, ArfError> {
    match (
        Architecture::spec_from_machine(image.machine),
        Architecture::spec_from_host_name(host),
    ) {
        (Some(architecture), Some(host_architecture)) => {
            let header = HeaderView {
                version: canonical_tag(library),
                library,
                architecture,
                host_architecture,
                entry_point: low32(image.entry),
            };
            match body_of(header, image) {
                Err(e) => Err(e),
                Ok(f) => match descriptor {
                    None => Ok(f),
                    Some(text) => match description_of(text) {
                        Err(e) => Err(e),
                        Ok(d) => Ok(described(f, d)),
                    },
                },
            }
        },
        _ => Err(ArfError::UnsupportedArchitecture),
    }
}

/// The container for the ELF object with the bytes `bytes`.
pub open spec fn built_from_bytes(
    library: bool,
    bytes: Seq<u8>,
    descriptor: Option<Seq<u8>>,
    host: Seq<char>,
) -> Result<ArfFileView, ArfError> {
    match image_of(bytes) {
        Err(e) => Err(e),
        Ok(image) => built_from(library, image, descriptor, host),
    }
}

/// The bytes of a descriptor, if there is one.
pub open spec fn descriptor_bytes(descriptor: Option<&str>) -> Option<Seq<u8>> {
    match descriptor {
        Some(text) => Some(encode_utf8(text@)),
        None => None,
    }
}

/// Whatever is built is well-formed and in normal form: it is read back
/// unchanged from its wire form, no name is held twice, the fixes are in
/// strictly increasing order and the data is a multiple of 16 bytes long.
pub proof fn lemma_built_normal(
    library: bool,
    image: ElfImageView,
    descriptor: Option<Seq<u8>>,
    host: Seq<char>,
)
    ensures
        built_from(library, image, descriptor, host) matches Ok(f) ==> f.wf() && f.is_normal()
            && parse(emit(f)) == Ok::<_, ArfError>(f),
{
    if let Ok(f) = built_from(library, image, descriptor, host) {
        let n = image.sections.len() as int;
        let sections = sections_table(image.sections, n)->Ok_0;
        lemma_sections_table_names(image.sections, n);
        lemma_symbols_table_names(
            image.symbols->0,
            image.sections,
            sections,
            image.symbols->0.len() as int,
        );
        lemma_libraries_of_names(image);
        lemma_fixes_of_normal(image);
        crate::data_image::lemma_data_image_aligned(image.sections);
        if let Some(text) = descriptor {
            lemma_with_lines_requests(
                DescriptionView { extensions: Seq::empty(), library: false },
                text,
            );
        }
        assert(f.wf());
        crate::laws::lemma_round_trip(f);
    }
}

/// Builds the container for an ELF object, with what the text of the
/// descriptor says if there is one. `host` is the name of the architecture
/// that the builder runs on.
pub fn build_arf_file(library: bool, image: &ElfImage, descriptor: Option<&str>, host: &str) -> (r:
    Result<ArfFile, ArfError>)
    ensures
        match r {
            Ok(f) => built_from(library, image@, descriptor_bytes(descriptor), host@) == Ok::<
                _,
                ArfError,
            >(f@) && f@.wf() && f@.is_normal() && parse(emit(f@)) == Ok::<_, ArfError>(f@),
            Err(e) => built_from(library, image@, descriptor_bytes(descriptor), host@) == Err::<
                ArfFileView,
                _,
            >(e),
        },
{
    proof {
        lemma_built_normal(library, image@, descriptor_bytes(descriptor), host@);
    }
    let architecture = match Architecture::from_machine(image.machine) {
        Some(a) => a,
        None => {
            return Err(ArfError::UnsupportedArchitecture);
        },
    };
    let host_architecture = match Architecture::from_host_name(host) {
        Some(a) => a,
        None => {
            return Err(ArfError::UnsupportedArchitecture);
        },
    };
    let entry_point = truncate32(image.entry);
    let sections = match get_sections_table(image) {
        Ok(v) => v,
        Err(e) => {
            return Err(e);
        },
    };
    let no_requests: Vec<Request> = Vec::new();
    assert(views(no_requests@) =~= Seq::<u8>::empty());
    let partial = ArfFile::from_parts(
        Header::new(library, architecture, host_architecture, entry_point),
        sections,
        Vec::new(),
        Vec::new(),
        Vec::new(),
        no_requests,
        Vec::new(),
    );
    let symbols = match get_symbols(image, &partial) {
        Ok(v) => v,
        Err(e) => {
            return Err(e);
        },
    };
    let libraries = match get_libraries(image) {
        Ok(v) => v,
        Err(e) => {
            return Err(e);
        },
    };
    let fixes = match get_fixes(image) {
        Ok(v) => v,
        Err(e) => {
            return Err(e);
        },
    };
    let data = match extract_section_data(image) {
        Ok(v) => v,
        Err(e) => {
            return Err(e);
        },
    };
    let (sections, _) = partial.into_sections();
    match descriptor {
        None => {
            let no_requests: Vec<Request> = Vec::new();
            assert(views(no_requests@) =~= Seq::<u8>::empty());
            Ok(
                ArfFile::from_parts(
                    Header::new(library, architecture, host_architecture, entry_point),
                    sections,
                    symbols,
                    libraries,
                    fixes,
                    no_requests,
                    data,
                ),
            )
        },
        Some(text) => {
            let description = match parse_ad_file(text) {
                Ok(d) => d,
                Err(e) => {
                    return Err(e);
                },
            };
            let codes = description.extensions();
            let mut requests: Vec<Request> = Vec::new();
            let mut i: usize = 0;
            while i < codes.len()
                invariant
                    i <= codes.len(),
                    views(requests@) == codes@.take(i as int),
                decreases codes.len() - i,
            {
                let ghost before = requests@;
                let request = Request::new(codes[i]);
                requests.push(request);
                i += 1;
                assert(views(requests@) =~= views(before).push(request@));
                assert(views(requests@) =~= codes@.take(i as int));
            }
            assert(codes@.take(i as int) =~= codes@);
            Ok(
                ArfFile::from_parts(
                    Header::new(
                        library || description.library(),
                        architecture,
                        host_architecture,
                        entry_point,
                    ),
                    sections,
                    symbols,
                    libraries,
                    fixes,
                    requests,
                    data,
                ),
            )
        },
    }
}

/// Builds the container for an ELF object. `bytes` are those of the
/// object, `descriptor` is the text of its descriptor if it has one, `host`
/// the name of the architecture that the builder runs on.
pub fn get_arf_file(library: bool, bytes: Vec<u8>, descriptor: Option<&str>, host: &str) -> (r:
    Result<ArfFile, ArfError>)
    ensures
        match r {
            Ok(f) => built_from_bytes(library, bytes@, descriptor_bytes(descriptor), host@)
                == Ok::<_, ArfError>(f@) && f@.wf() && f@.is_normal() && parse(emit(f@)) == Ok::<
                _,
                ArfError,
            >(f@),
            Err(e) => built_from_bytes(library, bytes@, descriptor_bytes(descriptor), host@) == Err::<
                ArfFileView,
                _,
            >(e),
        },
{
    let image = match ElfImage::from_bytes(bytes.as_slice()) {
        Ok(image) => image,
        Err(e) => {
            return Err(e);
        },
    };
    build_arf_file(library, &image, descriptor, host)
}

/// An object of which nothing goes into data, fixes or libraries: no
/// section is a candidate for the data, no relocation asks for a fix, and
/// a section `.dynamic` or a section `.dynstr` is missing.
pub open spec fn is_bare(image: ElfImageView) -> bool {
    let n = image.sections.len() as int;
    &&& forall|j: int| 0 <= j < n ==> !is_candidate(#[trigger] image.sections[j])
    &&& image.symbols matches Some(symbols) ==> relocations_of(image, n) matches Ok(relocations)
        && forall|k: int|
        0 <= k < relocations.len() ==> fix_for(symbols, #[trigger] relocations[k]) is None
    &&& last_named(image.sections, ".dynamic"@, n) is None || last_named(
        image.sections,
        ".dynstr"@,
        n,
    ) is None
}

/// The names of the sections and of the symbols of the object hold no NUL,
/// and each symbol's address fits in 32 bits.
pub open spec fn is_recordable(image: ElfImageView) -> bool {
    let n = image.sections.len() as int;
    &&& forall|j: int| 0 <= j < n ==> is_c_name(#[trigger] image.sections[j].name)
    &&& image.symbols matches Some(symbols) ==> forall|i: int|
        0 <= i < symbols.len() ==> is_c_name((#[trigger] symbols[i]).name) && symbol_address(
            image.sections,
            sections_table(image.sections, n)->Ok_0,
            symbols[i],
        ) <= u32::MAX
}

/// An object for a known machine, built on a known host, whose names and
/// addresses can be recorded, is built. If nothing of it goes into data,
/// fixes or libraries, the container holds none of these and no requests,
/// and its wire form ends with the tag of the requests and the tag of the
/// data.
pub proof fn lemma_bare_object(library: bool, image: ElfImageView, host: Seq<char>)
    requires
        Architecture::spec_from_machine(image.machine) is Some,
        Architecture::spec_from_host_name(host) is Some,
        is_recordable(image),
        is_bare(image),
    ensures
        built_from(library, image, None, host) matches Ok(f) && {
            &&& f.header.library == library
            &&& f.data.len() == 0
            &&& f.fixes.len() == 0
            &&& f.libraries.len() == 0
            &&& f.requests.len() == 0
            &&& parse(emit(f)) == Ok::<_, ArfError>(f)
            &&& emit(f).len() >= 2
            &&& emit(f)[emit(f).len() - 2] == 0xBB
            &&& emit(f)[emit(f).len() - 1] == 0xFF
        },
{
    let n = image.sections.len() as int;
    lemma_sections_table_ok(image.sections, n);
    let table = sections_table(image.sections, n)->Ok_0;
    if let Some(symbols) = image.symbols {
        lemma_symbols_table_ok(symbols, image.sections, table, symbols.len() as int);
        let relocations = relocations_of(image, n)->Ok_0;
        lemma_fixes_from_none(relocations, symbols, relocations.len() as int);
    }
    crate::data_image::lemma_data_image_none(image.sections);
    lemma_built_normal(library, image, None, host);
    let f = built_from(library, image, None, host)->Ok_0;
    let tail = crate::wire::emit_tail(f.requests, f.data);
    assert(tail =~= seq![0xBBu8, 0xFFu8]);
    let front = emit(f).subrange(0, emit(f).len() - 2);
    assert(emit(f) =~= front + tail);
}

} // verus!
