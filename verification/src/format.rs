//! The logical structure of an ARF/ARL container and what must hold of it.

use crate::arch::Architecture;
use crate::text::is_c_name;
use crate::text::is_c_str;
use crate::text::str_eq;
use crate::text::bytes_lt;
use vstd::prelude::*;
use vstd::string::*;

verus! {

/// The views of the items of `items`, in order.
pub open spec fn views<T: View>(items: Seq<T>) -> Seq<T::V> {
    Seq::new(items.len(), |i: int| items[i]@)
}

/// The version tag of an executable container.
pub open spec fn arf_tag() -> Seq<char> {
    seq!['A', 'R', 'F', '0', '0', '3']
}

/// The version tag of a library container.
pub open spec fn arl_tag() -> Seq<char> {
    seq!['A', 'R', 'L', '0', '0', '3']
}

/// The version tag that goes with the library flag.
pub open spec fn canonical_tag(library: bool) -> Seq<char> {
    if library {
        arl_tag()
    } else {
        arf_tag()
    }
}

/// Permission bit of a section that holds instructions.
pub const PERM_EXEC: u8 = 0x04;

/// Permission bit of a section that carried ELF flags other than
/// allocated, writable and executable.
pub const PERM_UNKNOWN: u8 = 0x10;

/// Availability of a library of which only the name is known.
pub const LIB_UNKNOWN: u8 = 0x00;

/// Availability of a library with its path attached.
pub const LIB_RESOLVED: u8 = 0xFF;

/// The header of a container: the version tag, whether the container is a
/// library, the architecture it is for, the architecture it was made on, and
/// the entry point.
#[derive(Debug)]
pub struct Header {
    version_str: String,
    library: bool,
    architecture: Architecture,
    host_architecture: Architecture,
    entry_point: u32,
}

/// A header, as a mathematical value.
pub struct HeaderView {
    pub version: Seq<char>,
    pub library: bool,
    pub architecture: Architecture,
    pub host_architecture: Architecture,
    pub entry_point: u32,
}

/// A section of the object that the container was made from: its name, its
/// address there, and its permissions.
#[derive(Debug)]
pub struct Section {
    name: String,
    offset: u32,
    permissions: u8,
}

/// A section, as a mathematical value.
pub struct SectionView {
    pub name: Seq<char>,
    pub offset: u32,
    pub permissions: u8,
}

/// A symbol: its name, how it is resolved (0 defined here, 1 undefined, 2
/// common), its type (0 local, 1 global, 2 weak) and its address.
#[derive(Debug)]
pub struct Symbol {
    name: String,
    resolution: u8,
    typ: u8,
    addr: u32,
}

/// A symbol, as a mathematical value.
pub struct SymbolView {
    pub name: Seq<char>,
    pub resolution: u8,
    pub typ: u8,
    pub addr: u32,
}

/// A library that the container depends on: its name, its availability, and
/// its path where the availability is `LIB_RESOLVED`.
#[derive(Debug)]
pub struct Library {
    name: String,
    availability: u8,
    path: Option<String>,
}

/// A library, as a mathematical value.
pub struct LibraryView {
    pub name: Seq<char>,
    pub availability: u8,
    pub path: Option<Seq<char>>,
}

/// A place that has to be patched at load time: the name of a symbol from
/// outside, and the offset of the place.
#[derive(Debug)]
pub struct Fix {
    name: String,
    offset: u32,
}

/// A fix, as a mathematical value.
pub struct FixView {
    pub name: Seq<char>,
    pub offset: u32,
}

/// A request for a kernel extension: one byte.
#[derive(Clone, Copy, Debug)]
pub struct Request {
    byte: u8,
}

/// A container: header, sections, symbols, libraries, fixes, requests and
/// data.
#[derive(Debug)]
pub struct ArfFile {
    header: Header,
    sections: Vec<Section>,
    symbols: Vec<Symbol>,
    libraries: Vec<Library>,
    fixes: Vec<Fix>,
    requests: Vec<Request>,
    data: Vec<u8>,
}

/// A container, as a mathematical value.
pub struct ArfFileView {
    pub header: HeaderView,
    pub sections: Seq<SectionView>,
    pub symbols: Seq<SymbolView>,
    pub libraries: Seq<LibraryView>,
    pub fixes: Seq<FixView>,
    pub requests: Seq<u8>,
    pub data: Seq<u8>,
}

impl View for Header {
    type V = HeaderView;

    closed spec fn view(&self) -> HeaderView {
        HeaderView {
            version: self.version_str@,
            library: self.library,
            architecture: self.architecture,
            host_architecture: self.host_architecture,
            entry_point: self.entry_point,
        }
    }
}

impl View for Section {
    type V = SectionView;

    closed spec fn view(&self) -> SectionView {
        SectionView { name: self.name@, offset: self.offset, permissions: self.permissions }
    }
}

impl View for Symbol {
    type V = SymbolView;

    closed spec fn view(&self) -> SymbolView {
        SymbolView {
            name: self.name@,
            resolution: self.resolution,
            typ: self.typ,
            addr: self.addr,
        }
    }
}

impl View for Library {
    type V = LibraryView;

    closed spec fn view(&self) -> LibraryView {
        LibraryView {
            name: self.name@,
            availability: self.availability,
            path: match self.path {
                Some(p) => Some(p@),
                None => None,
            },
        }
    }
}

impl View for Fix {
    type V = FixView;

    closed spec fn view(&self) -> FixView {
        FixView { name: self.name@, offset: self.offset }
    }
}

impl View for Request {
    type V = u8;

    closed spec fn view(&self) -> u8 {
        self.byte
    }
}

impl View for ArfFile {
    type V = ArfFileView;

    closed spec fn view(&self) -> ArfFileView {
        ArfFileView {
            header: self.header@,
            sections: views(self.sections@),
            symbols: views(self.symbols@),
            libraries: views(self.libraries@),
            fixes: views(self.fixes@),
            requests: views(self.requests@),
            data: self.data@,
        }
    }
}

impl HeaderView {
    /// The tag is the one that the library flag calls for.
    pub open spec fn wf(self) -> bool {
        self.version == canonical_tag(self.library)
    }
}

impl LibraryView {
    /// The name and the path can be written before a terminator, and a path
    /// is attached exactly when the availability says so.
    pub open spec fn wf(self) -> bool {
        &&& is_c_name(self.name)
        &&& (self.availability == LIB_RESOLVED <==> self.path is Some)
        &&& self.path matches Some(p) ==> is_c_name(p)
    }
}

/// The fix `a` comes before the fix `b`: by the bytes of the name, then by
/// the offset.
pub open spec fn fix_lt(a: FixView, b: FixView) -> bool {
    bytes_lt(vstd::utf8::encode_utf8(a.name), vstd::utf8::encode_utf8(b.name)) || (a.name == b.name
        && a.offset < b.offset)
}

/// Each fix comes before all later ones.
pub open spec fn fixes_increasing(fixes: Seq<FixView>) -> bool {
    forall|i: int, j: int| 0 <= i < j < fixes.len() ==> fix_lt(#[trigger] fixes[i], #[trigger] fixes[j])
}

/// No two sections have the same name.
pub open spec fn section_names_distinct(sections: Seq<SectionView>) -> bool {
    forall|i: int, j: int|
        0 <= i < j < sections.len() ==> (#[trigger] sections[i]).name != (
        #[trigger] sections[j]).name
}

/// No two symbols have the same name.
pub open spec fn symbol_names_distinct(symbols: Seq<SymbolView>) -> bool {
    forall|i: int, j: int|
        0 <= i < j < symbols.len() ==> (#[trigger] symbols[i]).name != (#[trigger] symbols[j]).name
}

/// No two libraries have the same name.
pub open spec fn library_names_distinct(libraries: Seq<LibraryView>) -> bool {
    forall|i: int, j: int|
        0 <= i < j < libraries.len() ==> (#[trigger] libraries[i]).name != (
        #[trigger] libraries[j]).name
}

impl ArfFileView {
    /// What the wire form needs in order to be read back as the same
    /// container: a canonical tag, names and paths without NUL, a path on
    /// exactly the resolved libraries, and no request byte that would read as
    /// the start of the data region.
    pub open spec fn wf(self) -> bool {
        &&& self.header.wf()
        &&& forall|i: int| 0 <= i < self.sections.len() ==> is_c_name(#[trigger] self.sections[i].name)
        &&& forall|i: int| 0 <= i < self.symbols.len() ==> is_c_name(#[trigger] self.symbols[i].name)
        &&& forall|i: int| 0 <= i < self.libraries.len() ==> (#[trigger] self.libraries[i]).wf()
        &&& forall|i: int| 0 <= i < self.fixes.len() ==> is_c_name(#[trigger] self.fixes[i].name)
        &&& forall|i: int| 0 <= i < self.requests.len() ==> #[trigger] self.requests[i] != 0xFF
    }

    /// What holds of every container that was built from an ELF object:
    /// names are not repeated, the fixes are in strictly increasing order, and
    /// the data is padded to a multiple of 16 bytes.
    pub open spec fn is_normal(self) -> bool {
        &&& section_names_distinct(self.sections)
        &&& symbol_names_distinct(self.symbols)
        &&& library_names_distinct(self.libraries)
        &&& fixes_increasing(self.fixes)
        &&& self.data.len() % 16 == 0
    }
}

impl Header {
    /// A header with the canonical tag for `library`.
    pub fn new(
        library: bool,
        architecture: Architecture,
        host_architecture: Architecture,
        entry_point: u32,
    ) -> (h: Header)
        ensures
            h@ == (HeaderView {
                version: canonical_tag(library),
                library,
                architecture,
                host_architecture,
                entry_point,
            }),
            h@.wf(),
    {
        let version_str = if library {
            proof {
                reveal_strlit("ARL003");
            }
            assert("ARL003"@ =~= arl_tag());
            "ARL003".to_owned()
        } else {
            proof {
                reveal_strlit("ARF003");
            }
            assert("ARF003"@ =~= arf_tag());
            "ARF003".to_owned()
        };
        Header { version_str, library, architecture, host_architecture, entry_point }
    }

    /// The version tag.
    pub fn version_str(&self) -> (r: &str)
        ensures
            r@ == self@.version,
    {
        self.version_str.as_str()
    }

    /// Whether the container is a library.
    pub fn library(&self) -> (r: bool)
        ensures
            r == self@.library,
    {
        self.library
    }

    /// The architecture that the container is for.
    pub fn architecture(&self) -> (r: Architecture)
        ensures
            r == self@.architecture,
    {
        self.architecture
    }

    /// The architecture that the container was made on.
    pub fn host_architecture(&self) -> (r: Architecture)
        ensures
            r == self@.host_architecture,
    {
        self.host_architecture
    }

    /// The entry point.
    pub fn entry_point(&self) -> (r: u32)
        ensures
            r == self@.entry_point,
    {
        self.entry_point
    }
}

impl Section {
    /// The section with the given values.
    pub fn new(name: String, offset: u32, permissions: u8) -> (s: Section)
        ensures
            s@ == (SectionView { name: name@, offset, permissions }),
    {
        Section { name, offset, permissions }
    }

    /// The name of the section.
    pub fn name(&self) -> (r: &str)
        ensures
            r@ == self@.name,
    {
        self.name.as_str()
    }

    /// The address of the section in the object that the container was made
    /// from.
    pub fn offset(&self) -> (r: u32)
        ensures
            r == self@.offset,
    {
        self.offset
    }

    /// The permissions: `PERM_EXEC`, `PERM_UNKNOWN`, both or none.
    pub fn permissions(&self) -> (r: u8)
        ensures
            r == self@.permissions,
    {
        self.permissions
    }
}

impl Symbol {
    /// The symbol with the given values.
    pub fn new(name: String, resolution: u8, typ: u8, addr: u32) -> (s: Symbol)
        ensures
            s@ == (SymbolView { name: name@, resolution, typ, addr }),
    {
        Symbol { name, resolution, typ, addr }
    }

    /// The name of the symbol.
    pub fn name(&self) -> (r: &str)
        ensures
            r@ == self@.name,
    {
        self.name.as_str()
    }

    /// How the symbol is resolved: 0 defined here, 1 undefined, 2 common.
    pub fn resolution(&self) -> (r: u8)
        ensures
            r == self@.resolution,
    {
        self.resolution
    }

    /// The type of the symbol: 0 local, 1 global, 2 weak.
    pub fn typ(&self) -> (r: u8)
        ensures
            r == self@.typ,
    {
        self.typ
    }

    /// The address of the symbol.
    pub fn addr(&self) -> (r: u32)
        ensures
            r == self@.addr,
    {
        self.addr
    }
}

impl Library {
    /// A library of which only the name is known.
    pub fn unresolved(name: String) -> (l: Library)
        ensures
            l@ == (LibraryView { name: name@, availability: LIB_UNKNOWN, path: None }),
    {
        Library { name, availability: LIB_UNKNOWN, path: None }
    }

    /// A library with its path attached.
    pub fn resolved(name: String, path: String) -> (l: Library)
        ensures
            l@ == (LibraryView { name: name@, availability: LIB_RESOLVED, path: Some(path@) }),
    {
        Library { name, availability: LIB_RESOLVED, path: Some(path) }
    }

    /// A library as it was read: the path is kept exactly when the
    /// availability is `LIB_RESOLVED`.
    pub fn new(name: String, availability: u8, path: String) -> (l: Library)
        ensures
            l@ == (LibraryView {
                name: name@,
                availability,
                path: if availability == LIB_RESOLVED {
                    Some(path@)
                } else {
                    None
                },
            }),
    {
        if availability == LIB_RESOLVED {
            Library { name, availability, path: Some(path) }
        } else {
            Library { name, availability, path: None }
        }
    }

    /// The name of the library.
    pub fn name(&self) -> (r: &str)
        ensures
            r@ == self@.name,
    {
        self.name.as_str()
    }

    /// The availability: `LIB_RESOLVED` where the path is attached.
    pub fn availability(&self) -> (r: u8)
        ensures
            r == self@.availability,
    {
        self.availability
    }

    /// The path of the library, where it is attached.
    pub fn path(&self) -> (r: Option<&str>)
        ensures
            r is Some <==> self@.path is Some,
            r matches Some(p) ==> self@.path == Some(p@),
    {
        match &self.path {
            Some(p) => Some(p.as_str()),
            None => None,
        }
    }
}

impl Fix {
    /// The fix with the given values.
    pub fn new(name: String, offset: u32) -> (f: Fix)
        ensures
            f@ == (FixView { name: name@, offset }),
    {
        Fix { name, offset }
    }

    /// The name of the symbol that the fix is for.
    pub fn name(&self) -> (r: &str)
        ensures
            r@ == self@.name,
    {
        self.name.as_str()
    }

    /// The offset of the place to patch.
    pub fn offset(&self) -> (r: u32)
        ensures
            r == self@.offset,
    {
        self.offset
    }
}

impl Request {
    /// The request with the given byte.
    pub fn new(byte: u8) -> (r: Request)
        ensures
            r@ == byte,
    {
        Request { byte }
    }

    /// The byte of the request.
    pub fn byte(&self) -> (r: u8)
        ensures
            r == self@,
    {
        self.byte
    }
}

/// Some library of `libraries` has the name `name`.
pub open spec fn has_library(libraries: Seq<LibraryView>, name: Seq<char>) -> bool {
    exists|i: int| 0 <= i < libraries.len() && (#[trigger] libraries[i]).name == name
}

impl Default for ArfFile {
    /// An empty executable container for X86, made on X86_64.
    fn default() -> (f: ArfFile)
        ensures
            f@ == (ArfFileView {
                header: HeaderView {
                    version: arf_tag(),
                    library: false,
                    architecture: Architecture::X86,
                    host_architecture: Architecture::X86_64,
                    entry_point: 0,
                },
                sections: Seq::empty(),
                symbols: Seq::empty(),
                libraries: Seq::empty(),
                fixes: Seq::empty(),
                requests: Seq::empty(),
                data: Seq::empty(),
            }),
            f@.wf(),
            f@.is_normal(),
    {
        let f = ArfFile {
            header: Header::new(false, Architecture::X86, Architecture::X86_64, 0),
            sections: Vec::new(),
            symbols: Vec::new(),
            libraries: Vec::new(),
            fixes: Vec::new(),
            requests: Vec::new(),
            data: Vec::new(),
        };
        assert(f@.sections =~= Seq::empty());
        assert(f@.symbols =~= Seq::empty());
        assert(f@.libraries =~= Seq::empty());
        assert(f@.fixes =~= Seq::empty());
        assert(f@.requests =~= Seq::empty());
        f
    }
}

impl ArfFile {
    /// Appends a library with its path attached, unless a library of that
    /// name is there already or the name or the path holds a NUL; says
    /// whether it did. Nothing else changes.
    pub fn add_library(&mut self, name: &str, path: &str) -> (added: bool)
        ensures
            added == (is_c_name(name@) && is_c_name(path@) && !has_library(
                old(self)@.libraries,
                name@,
            )),
            added ==> final(self)@ == (ArfFileView {
                libraries: old(self)@.libraries.push(
                    LibraryView { name: name@, availability: LIB_RESOLVED, path: Some(path@) },
                ),
                ..old(self)@
            }),
            !added ==> final(self)@ == old(self)@,
            old(self)@.wf() ==> final(self)@.wf(),
            old(self)@.is_normal() ==> final(self)@.is_normal(),
    {
        if !is_c_str(name) || !is_c_str(path) {
            return false;
        }
        let mut i: usize = 0;
        while i < self.libraries.len()
            invariant
                i <= self.libraries.len(),
                *self == *old(self),
                forall|j: int| 0 <= j < i ==> (#[trigger] self@.libraries[j]).name != name@,
            decreases self.libraries.len() - i,
        {
            if str_eq(self.libraries[i].name.as_str(), name) {
                assert(self@.libraries[i as int].name == name@);
                return false;
            }
            i += 1;
        }
        let ghost before = self@;
        let library = Library::resolved(name.to_owned(), path.to_owned());
        self.libraries.push(library);
        proof {
            assert(self@.libraries =~= before.libraries.push(library@));
        }
        true
    }

    /// A container made of the given parts.
    pub fn from_parts(
        header: Header,
        sections: Vec<Section>,
        symbols: Vec<Symbol>,
        libraries: Vec<Library>,
        fixes: Vec<Fix>,
        requests: Vec<Request>,
        data: Vec<u8>,
    ) -> (f: ArfFile)
        ensures
            f@ == (ArfFileView {
                header: header@,
                sections: views(sections@),
                symbols: views(symbols@),
                libraries: views(libraries@),
                fixes: views(fixes@),
                requests: views(requests@),
                data: data@,
            }),
    {
        ArfFile { header, sections, symbols, libraries, fixes, requests, data }
    }

    /// The sections table, and the rest of the container without it.
    pub(crate) fn into_sections(self) -> (r: (Vec<Section>, ArfFile))
        ensures
            views(r.0@) == self@.sections,
            r.1@ == (ArfFileView { sections: Seq::empty(), ..self@ }),
    {
        let ArfFile { header, sections, symbols, libraries, fixes, requests, data } = self;
        let rest = ArfFile {
            header,
            sections: Vec::new(),
            symbols,
            libraries,
            fixes,
            requests,
            data,
        };
        assert(rest@.sections =~= Seq::empty());
        (sections, rest)
    }

    /// The header.
    pub fn header(&self) -> (r: &Header)
        ensures
            r@ == self@.header,
    {
        &self.header
    }

    /// The sections.
    pub fn sections(&self) -> (r: &Vec<Section>)
        ensures
            views(r@) == self@.sections,
    {
        &self.sections
    }

    /// The symbols.
    pub fn symbols(&self) -> (r: &Vec<Symbol>)
        ensures
            views(r@) == self@.symbols,
    {
        &self.symbols
    }

    /// The libraries.
    pub fn libraries(&self) -> (r: &Vec<Library>)
        ensures
            views(r@) == self@.libraries,
    {
        &self.libraries
    }

    /// The fixes.
    pub fn fixes(&self) -> (r: &Vec<Fix>)
        ensures
            views(r@) == self@.fixes,
    {
        &self.fixes
    }

    /// The requests.
    pub fn requests(&self) -> (r: &Vec<Request>)
        ensures
            views(r@) == self@.requests,
    {
        &self.requests
    }

    /// The data.
    pub fn data(&self) -> (r: &Vec<u8>)
        ensures
            r@ == self@.data,
    {
        &self.data
    }
}

} // verus!
