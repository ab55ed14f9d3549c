//! The fixes of a container: the relocations of an ELF object against
//! symbols that it leaves undefined.

use crate::elf_image::rel_entries;
use crate::elf_image::rel_entries_of;
use crate::elf_image::rela_entries;
use crate::elf_image::rela_entries_of;
use crate::elf_image::symbols_view;
use crate::elf_image::ElfImage;
use crate::elf_image::ElfImageView;
use crate::elf_image::ElfSectionView;
use crate::elf_image::ElfSymbol;
use crate::elf_image::ElfSymbolView;
use crate::elf_image::RelEntry;
use crate::elf_image::SHN_UNDEF;
use crate::elf_image::SHT_REL;
use crate::elf_image::SHT_RELA;
use crate::error::ArfError;
use crate::format::fix_lt;
use crate::format::fixes_increasing;
use crate::format::views;
use crate::format::Fix;
use crate::format::FixView;
use crate::order::lemma_fix_lt_irreflexive;
use crate::order::lemma_fix_lt_total;
use crate::order::lemma_fix_lt_transitive;
use crate::sections::lemma_str_len;
use crate::sections::low32;
use crate::sections::truncate32;
use crate::text::bytes_lt;
use crate::text::is_c_name;
use crate::text::is_c_str;
use crate::text::str_eq;
use vstd::prelude::*;
use vstd::string::*;
use vstd::utf8::*;

verus! {

/// The relocations of a section: those that the ELF parser reads from its
/// bytes if it is of type `SHT_REL` or `SHT_RELA`; none for a section of
/// another type. A relocation section whose bytes could not be read makes
/// the input malformed.
pub open spec fn section_relocations(little_endian: bool, is_64: bool, s: ElfSectionView) -> Result<
    Seq<RelEntry>,
    ArfError,
> {
    if s.sh_type != SHT_REL && s.sh_type != SHT_RELA {
        Ok(Seq::empty())
    } else {
        match s.data {
            None => Err(ArfError::MalformedInput),
            Some(data) => if s.sh_type == SHT_REL {
                Ok(rel_entries_of(little_endian, is_64, data))
            } else {
                Ok(rela_entries_of(little_endian, is_64, data))
            },
        }
    }
}

/// The relocations of the first `n` sections, in the order of the sections.
pub open spec fn relocations_of(image: ElfImageView, n: int) -> Result<Seq<RelEntry>, ArfError>
    decreases n,
{
    if n <= 0 {
        Ok(Seq::empty())
    } else {
        match relocations_of(image, n - 1) {
            Err(e) => Err(e),
            Ok(before) => match section_relocations(
                image.little_endian,
                image.is_64,
                image.sections[n - 1],
            ) {
                Err(e) => Err(e),
                Ok(more) => Ok(before + more),
            },
        }
    }
}

/// The fix that a relocation asks for: one for a relocation against a
/// symbol of the table that is undefined and has a name.
pub open spec fn fix_for(symbols: Seq<ElfSymbolView>, r: RelEntry) -> Option<FixView> {
    if r.symbol < symbols.len() {
        let s = symbols[r.symbol as int];
        if s.shndx == SHN_UNDEF && s.name.len() > 0 {
            Some(FixView { name: s.name, offset: low32(r.offset) })
        } else {
            None
        }
    } else {
        None
    }
}

/// `sorted` with `f` at its place in the order, unless it is there already.
pub open spec fn insert_fix(sorted: Seq<FixView>, f: FixView) -> Seq<FixView>
    decreases sorted.len(),
{
    if sorted.len() == 0 {
        seq![f]
    } else if fix_lt(sorted[0], f) {
        seq![sorted[0]] + insert_fix(sorted.drop_first(), f)
    } else if sorted[0] == f {
        sorted
    } else {
        seq![f] + sorted
    }
}

/// The fixes that the first `n` of `relocations` ask for, in order and
/// each once. A name that holds a NUL is malformed input.
pub open spec fn fixes_from(relocations: Seq<RelEntry>, symbols: Seq<ElfSymbolView>, n: int) -> Result<
    Seq<FixView>,
    ArfError,
>
    decreases n,
{
    if n <= 0 {
        Ok(Seq::empty())
    } else {
        match fixes_from(relocations, symbols, n - 1) {
            Err(e) => Err(e),
            Ok(done) => match fix_for(symbols, relocations[n - 1]) {
                None => Ok(done),
                Some(f) => if !is_c_name(f.name) {
                    Err(ArfError::MalformedInput)
                } else {
                    Ok(insert_fix(done, f))
                },
            },
        }
    }
}

/// The fixes of a container made from `image`: none where the object has
/// no static symbol table.
pub open spec fn fixes_of(image: ElfImageView) -> Result<Seq<FixView>, ArfError> {
    match image.symbols {
        None => Ok(Seq::empty()),
        Some(symbols) => match relocations_of(image, image.sections.len() as int) {
            Err(e) => Err(e),
            Ok(relocations) => fixes_from(relocations, symbols, relocations.len() as int),
        },
    }
}

/// Where two byte strings agree up to `i`, their order is that of what
/// follows.
proof fn lemma_bytes_lt_skip(a: Seq<u8>, b: Seq<u8>, i: int)
    requires
        0 <= i <= a.len(),
        i <= b.len(),
        forall|j: int| 0 <= j < i ==> a[j] == b[j],
    ensures
        bytes_lt(a, b) == bytes_lt(a.skip(i), b.skip(i)),
    decreases i,
{
    if i == 0 {
        assert(a.skip(0) =~= a);
        assert(b.skip(0) =~= b);
    } else {
        lemma_bytes_lt_skip(a, b, i - 1);
        let x = a.skip(i - 1);
        let y = b.skip(i - 1);
        assert(x[0] == a[i - 1] && y[0] == b[i - 1]);
        assert(x.drop_first() =~= a.skip(i));
        assert(y.drop_first() =~= b.skip(i));
    }
}

/// Whether `a` comes before `b` in the order of byte strings.
pub fn bytes_less(a: &[u8], b: &[u8]) -> (r: bool)
    ensures
        r == bytes_lt(a@, b@),
{
    let mut i: usize = 0;
    while i < a.len() && i < b.len()
        invariant
            i <= a.len(),
            i <= b.len(),
            forall|j: int| 0 <= j < i ==> a@[j] == b@[j],
        decreases a.len() - i,
    {
        if a[i] != b[i] {
            proof {
                lemma_bytes_lt_skip(a@, b@, i as int);
            }
            return a[i] < b[i];
        }
        i += 1;
    }
    proof {
        lemma_bytes_lt_skip(a@, b@, i as int);
    }
    i < b.len()
}

/// Whether the fix `a` comes before the fix `b`.
pub fn fix_less(a: &Fix, b: &Fix) -> (r: bool)
    ensures
        r == fix_lt(a@, b@),
{
    if bytes_less(a.name().as_bytes(), b.name().as_bytes()) {
        true
    } else {
        str_eq(a.name(), b.name()) && a.offset() < b.offset()
    }
}

/// Whether two fixes are the same.
fn fix_same(a: &Fix, b: &Fix) -> (r: bool)
    ensures
        r == (a@ == b@),
{
    str_eq(a.name(), b.name()) && a.offset() == b.offset()
}

/// Where a fix goes: behind the first `p` fixes, which all come before it,
/// if the next one does not.
proof fn lemma_insert_fix_at(sorted: Seq<FixView>, f: FixView, p: int)
    requires
        0 <= p <= sorted.len(),
        forall|j: int| 0 <= j < p ==> fix_lt(#[trigger] sorted[j], f),
        p < sorted.len() ==> !fix_lt(sorted[p], f),
    ensures
        insert_fix(sorted, f) == if p < sorted.len() && sorted[p] == f {
            sorted
        } else {
            sorted.insert(p, f)
        },
    decreases sorted.len(),
{
    if p == 0 {
        if sorted.len() == 0 {
            assert(sorted.insert(0, f) =~= seq![f]);
        } else {
            assert(sorted.insert(0, f) =~= seq![f] + sorted);
        }
    } else {
        let tail = sorted.drop_first();
        assert(fix_lt(sorted[0], f));
        assert forall|j: int| 0 <= j < p - 1 implies fix_lt(#[trigger] tail[j], f) by {
            assert(tail[j] == sorted[j + 1]);
        }
        lemma_insert_fix_at(tail, f, p - 1);
        if p < sorted.len() && sorted[p] == f {
            assert(tail[p - 1] == f);
            assert(seq![sorted[0]] + tail =~= sorted);
        } else {
            assert(sorted.insert(p, f) =~= seq![sorted[0]] + tail.insert(p - 1, f));
        }
    }
}

/// Puts a fix at its place in the order, unless it is there already.
pub fn insert_fix_sorted(sorted: &mut Vec<Fix>, f: Fix)
    ensures
        views(final(sorted)@) == insert_fix(views(old(sorted)@), f@),
{
    let ghost before = views(sorted@);
    let mut p: usize = 0;
    while p < sorted.len() && fix_less(&sorted[p], &f)
        invariant
            p <= sorted.len(),
            sorted@ == old(sorted)@,
            before == views(sorted@),
            forall|j: int| 0 <= j < p ==> fix_lt(#[trigger] before[j], f@),
        decreases sorted.len() - p,
    {
        assert(before[p as int] == sorted@[p as int]@);
        p += 1;
    }
    proof {
        if p < sorted.len() {
            assert(before[p as int] == sorted@[p as int]@);
        }
        lemma_insert_fix_at(before, f@, p as int);
    }
    if p < sorted.len() && fix_same(&sorted[p], &f) {
    } else {
        sorted.insert(p, f);
        assert(views(sorted@) =~= before.insert(p as int, f@));
    }
}

/// The fixes that `relocations` ask for, against the symbols of `symbols`:
/// in strictly increasing order.
pub fn fixes_from_relocations(relocations: &Vec<RelEntry>, symbols: &Vec<ElfSymbol>) -> (r: Result<
    Vec<Fix>,
    ArfError,
>)
    ensures
        match r {
            Ok(fixes) => fixes_from(
                relocations@,
                symbols_view(Some(*symbols))->0,
                relocations@.len() as int,
            ) == Ok::<_, ArfError>(views(fixes@)) && fixes_increasing(views(fixes@)),
            Err(e) => fixes_from(
                relocations@,
                symbols_view(Some(*symbols))->0,
                relocations@.len() as int,
            ) == Err::<Seq<FixView>, _>(e),
        },
{
    let ghost table = symbols_view(Some(*symbols))->0;
    let mut fixes: Vec<Fix> = Vec::new();
    let mut i: usize = 0;
    assert(views(fixes@) =~= Seq::<FixView>::empty());
    while i < relocations.len()
        invariant
            i <= relocations.len(),
            table == symbols_view(Some(*symbols))->0,
            fixes_from(relocations@, table, i as int) == Ok::<_, ArfError>(views(fixes@)),
        decreases relocations.len() - i,
    {
        let relocation = relocations[i];
        if (relocation.symbol as u64) < symbols.len() as u64 {
            let symbol = &symbols[relocation.symbol as usize];
            assert(table[relocation.symbol as int] == symbol@);
            let name = symbol.name.as_str();
            proof {
                lemma_str_len(name@);
            }
            if symbol.shndx == SHN_UNDEF && name.as_bytes().len() > 0 {
                if !is_c_str(name) {
                    proof {
                        lemma_fixes_from_fails(relocations@, table, i + 1, relocations@.len() as int);
                    }
                    return Err(ArfError::MalformedInput);
                }
                insert_fix_sorted(&mut fixes, Fix::new(name.to_owned(), truncate32(relocation.offset)));
            }
        }
        i += 1;
    }
    proof {
        lemma_fixes_from_increasing(relocations@, table, relocations@.len() as int);
    }
    Ok(fixes)
}

/// Once a name cannot be recorded, the fixes have failed for good.
pub proof fn lemma_fixes_from_fails(
    relocations: Seq<RelEntry>,
    symbols: Seq<ElfSymbolView>,
    k: int,
    m: int,
)
    requires
        0 <= k <= m,
        fixes_from(relocations, symbols, k) is Err,
    ensures
        fixes_from(relocations, symbols, m) == fixes_from(relocations, symbols, k),
    decreases m - k,
{
    if k < m {
        lemma_fixes_from_fails(relocations, symbols, k, m - 1);
    }
}

/// A fix is in `insert_fix(sorted, f)` exactly if it is `f` or in `sorted`.
pub proof fn lemma_insert_fix_holds(sorted: Seq<FixView>, f: FixView, x: FixView)
    ensures
        insert_fix(sorted, f).contains(x) <==> (x == f || sorted.contains(x)),
    decreases sorted.len(),
{
    let r = insert_fix(sorted, f);
    if sorted.len() == 0 {
        assert(r[0] == f);
    } else if fix_lt(sorted[0], f) {
        let tail = sorted.drop_first();
        let rest = insert_fix(tail, f);
        lemma_insert_fix_holds(tail, f, x);
        if r.contains(x) {
            let i = choose|i: int| 0 <= i < r.len() && r[i] == x;
            if i > 0 {
                assert(rest[i - 1] == x);
                if tail.contains(x) {
                    let j = choose|j: int| 0 <= j < tail.len() && tail[j] == x;
                    assert(sorted[j + 1] == x);
                }
            } else {
                assert(sorted[0] == x);
            }
        }
        if x == f || sorted.contains(x) {
            if x == sorted[0] {
                assert(r[0] == x);
            } else {
                if sorted.contains(x) {
                    let j = choose|j: int| 0 <= j < sorted.len() && sorted[j] == x;
                    assert(tail[j - 1] == x);
                }
                assert(rest.contains(x));
                let i = choose|i: int| 0 <= i < rest.len() && rest[i] == x;
                assert(r[i + 1] == x);
            }
        }
    } else if sorted[0] == f {
        assert(sorted[0] == f);
    } else {
        if r.contains(x) {
            let i = choose|i: int| 0 <= i < r.len() && r[i] == x;
            if i > 0 {
                assert(sorted[i - 1] == x);
            }
        }
        if sorted.contains(x) {
            let j = choose|j: int| 0 <= j < sorted.len() && sorted[j] == x;
            assert(r[j + 1] == x);
        }
        assert(r[0] == f);
    }
}

/// Putting a fix into fixes in increasing order leaves them in increasing
/// order.
pub proof fn lemma_insert_fix_increasing(sorted: Seq<FixView>, f: FixView)
    requires
        fixes_increasing(sorted),
    ensures
        fixes_increasing(insert_fix(sorted, f)),
    decreases sorted.len(),
{
    let r = insert_fix(sorted, f);
    if sorted.len() == 0 {
    } else if fix_lt(sorted[0], f) {
        let tail = sorted.drop_first();
        let rest = insert_fix(tail, f);
        assert forall|i: int, j: int| 0 <= i < j < tail.len() implies fix_lt(
            #[trigger] tail[i],
            #[trigger] tail[j],
        ) by {
            assert(fix_lt(sorted[i + 1], sorted[j + 1]));
        }
        lemma_insert_fix_increasing(tail, f);
        assert forall|i: int, j: int| 0 <= i < j < r.len() implies fix_lt(
            #[trigger] r[i],
            #[trigger] r[j],
        ) by {
            if i == 0 {
                let x = rest[j - 1];
                assert(rest.contains(x));
                lemma_insert_fix_holds(tail, f, x);
                if x != f {
                    let k = choose|k: int| 0 <= k < tail.len() && tail[k] == x;
                    assert(fix_lt(sorted[0], sorted[k + 1]));
                }
            } else {
                assert(fix_lt(rest[i - 1], rest[j - 1]));
            }
        }
    } else if sorted[0] == f {
    } else {
        lemma_fix_lt_total(sorted[0], f);
        assert forall|i: int, j: int| 0 <= i < j < r.len() implies fix_lt(
            #[trigger] r[i],
            #[trigger] r[j],
        ) by {
            if i == 0 {
                if j - 1 > 0 {
                    assert(fix_lt(sorted[0], sorted[j - 1]));
                    lemma_fix_lt_transitive(f, sorted[0], sorted[j - 1]);
                }
            } else {
                assert(fix_lt(sorted[i - 1], sorted[j - 1]));
            }
        }
    }
}

/// The fixes that relocations ask for are in strictly increasing order.
pub proof fn lemma_fixes_from_increasing(
    relocations: Seq<RelEntry>,
    symbols: Seq<ElfSymbolView>,
    n: int,
)
    ensures
        fixes_from(relocations, symbols, n) matches Ok(fixes) ==> fixes_increasing(fixes),
    decreases n,
{
    if n > 0 {
        lemma_fixes_from_increasing(relocations, symbols, n - 1);
        if let Ok(done) = fixes_from(relocations, symbols, n - 1) {
            if let Some(f) = fix_for(symbols, relocations[n - 1]) {
                lemma_insert_fix_increasing(done, f);
            }
        }
    }
}

/// Fixes in strictly increasing order hold no fix twice.
pub proof fn lemma_increasing_distinct(fixes: Seq<FixView>)
    requires
        fixes_increasing(fixes),
    ensures
        forall|i: int, j: int| 0 <= i < j < fixes.len() ==> #[trigger] fixes[i] != #[trigger] fixes[j],
{
    assert forall|i: int, j: int| 0 <= i < j < fixes.len() implies #[trigger] fixes[i]
        != #[trigger] fixes[j] by {
        lemma_fix_lt_irreflexive(fixes[i]);
        assert(fix_lt(fixes[i], fixes[j]));
    }
}

/// Appends the relocations of one section.
fn append_relocations(out: &mut Vec<RelEntry>, entries: &Vec<RelEntry>)
    ensures
        final(out)@ == old(out)@ + entries@,
{
    let mut i: usize = 0;
    while i < entries.len()
        invariant
            i <= entries.len(),
            out@ == old(out)@ + entries@.take(i as int),
        decreases entries.len() - i,
    {
        out.push(entries[i]);
        i += 1;
        assert(out@ =~= old(out)@ + entries@.take(i as int));
    }
    assert(entries@.take(i as int) =~= entries@);
}

/// Once the bytes of a relocation section cannot be read, the relocations
/// have failed for good.
pub proof fn lemma_relocations_of_fails(image: ElfImageView, k: int, m: int)
    requires
        0 <= k <= m,
        relocations_of(image, k) is Err,
    ensures
        relocations_of(image, m) == relocations_of(image, k),
    decreases m - k,
{
    if k < m {
        lemma_relocations_of_fails(image, k, m - 1);
    }
}

/// The relocations of `image`, section by section.
pub fn gather_relocations(image: &ElfImage) -> (r: Result<Vec<RelEntry>, ArfError>)
    ensures
        match r {
            Ok(all) => relocations_of(image@, image@.sections.len() as int) == Ok::<_, ArfError>(
                all@,
            ),
            Err(e) => e == ArfError::MalformedInput && relocations_of(
                image@,
                image@.sections.len() as int,
            ) == Err::<Seq<RelEntry>, _>(e),
        },
{
    let mut all: Vec<RelEntry> = Vec::new();
    let mut i: usize = 0;
    while i < image.sections.len()
        invariant
            i <= image.sections.len(),
            relocations_of(image@, i as int) == Ok::<_, ArfError>(all@),
        decreases image.sections.len() - i,
    {
        let section = &image.sections[i];
        assert(image@.sections[i as int] == section@);
        let ghost before = all@;
        if section.sh_type == SHT_REL || section.sh_type == SHT_RELA {
            match &section.data {
                Some(data) => {
                    if section.sh_type == SHT_REL {
                        let entries = rel_entries(image.little_endian, image.is_64, data.as_slice());
                        append_relocations(&mut all, &entries);
                    } else {
                        let entries = rela_entries(
                            image.little_endian,
                            image.is_64,
                            data.as_slice(),
                        );
                        append_relocations(&mut all, &entries);
                    }
                },
                None => {
                    proof {
                        lemma_relocations_of_fails(image@, i + 1, image@.sections.len() as int);
                    }
                    return Err(ArfError::MalformedInput);
                },
            }
        } else {
            assert(all@ =~= before + Seq::<RelEntry>::empty());
        }
        i += 1;
    }
    Ok(all)
}

/// The fixes of a container: one for each relocation of `image` against an
/// undefined symbol that has a name, in strictly increasing order by name
/// and offset, each once. A relocation section whose bytes could not be
/// read makes the input malformed.
pub fn get_fixes(image: &ElfImage) -> (r: Result<Vec<Fix>, ArfError>)
    ensures
        match r {
            Ok(fixes) => fixes_of(image@) == Ok::<_, ArfError>(views(fixes@)) && fixes_increasing(
                views(fixes@),
            ),
            Err(e) => fixes_of(image@) == Err::<Seq<FixView>, _>(e),
        },
{
    match &image.symbols {
        None => {
            let none: Vec<Fix> = Vec::new();
            assert(views(none@) =~= Seq::<FixView>::empty());
            Ok(none)
        },
        Some(symbols) => {
            let relocations = match gather_relocations(image) {
                Ok(r) => r,
                Err(e) => {
                    return Err(e);
                },
            };
            fixes_from_relocations(&relocations, symbols)
        },
    }
}

/// The fixes that relocations ask for have names without NUL.
pub proof fn lemma_fixes_from_names(relocations: Seq<RelEntry>, symbols: Seq<ElfSymbolView>, n: int)
    ensures
        fixes_from(relocations, symbols, n) matches Ok(fixes) ==> forall|i: int|
            0 <= i < fixes.len() ==> is_c_name(#[trigger] fixes[i].name),
    decreases n,
{
    if n > 0 {
        lemma_fixes_from_names(relocations, symbols, n - 1);
        if let Ok(before) = fixes_from(relocations, symbols, n - 1) {
            if let Ok(fixes) = fixes_from(relocations, symbols, n) {
                if let Some(f) = fix_for(symbols, relocations[n - 1]) {
                    assert forall|i: int| 0 <= i < fixes.len() implies is_c_name(
                        #[trigger] fixes[i].name,
                    ) by {
                        let x = fixes[i];
                        assert(fixes.contains(x));
                        lemma_insert_fix_holds(before, f, x);
                        if x != f {
                            let j = choose|j: int| 0 <= j < before.len() && before[j] == x;
                            assert(is_c_name(before[j].name));
                        }
                    }
                }
            }
        }
    }
}

/// The fixes of a container are in strictly increasing order by name and
/// offset, so that none occurs twice; and their names hold no
/// NUL.
pub proof fn lemma_fixes_of_normal(image: ElfImageView)
    ensures
        fixes_of(image) matches Ok(fixes) ==> {
            &&& fixes_increasing(fixes)
            &&& forall|i: int, j: int|
                0 <= i < j < fixes.len() ==> #[trigger] fixes[i] != #[trigger] fixes[j]
            &&& forall|i: int| 0 <= i < fixes.len() ==> is_c_name(#[trigger] fixes[i].name)
        },
{
    if let Some(symbols) = image.symbols {
        if let Ok(relocations) = relocations_of(image, image.sections.len() as int) {
            lemma_fixes_from_names(relocations, symbols, relocations.len() as int);
            lemma_fixes_from_increasing(relocations, symbols, relocations.len() as int);
        }
    }
    if let Ok(fixes) = fixes_of(image) {
        lemma_increasing_distinct(fixes);
    }
}

/// Relocations of which none asks for a fix give no fixes.
pub proof fn lemma_fixes_from_none(relocations: Seq<RelEntry>, symbols: Seq<ElfSymbolView>, n: int)
    requires
        0 <= n <= relocations.len(),
        forall|k: int| 0 <= k < n ==> fix_for(symbols, #[trigger] relocations[k]) is None,
    ensures
        fixes_from(relocations, symbols, n) == Ok::<_, ArfError>(Seq::<FixView>::empty()),
    decreases n,
{
    if n > 0 {
        lemma_fixes_from_none(relocations, symbols, n - 1);
        assert(fix_for(symbols, relocations[n - 1]) is None);
    }
}

} // verus!
