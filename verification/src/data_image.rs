//! The data of a container: the bytes of the loadable sections of an ELF
//! object, laid out by their addresses.

use crate::elf_image::ElfImage;
use crate::elf_image::ElfSection;
use crate::elf_image::ElfSectionView;
use crate::elf_image::SHF_ALLOC;
use crate::elf_image::SHT_NOBITS;
use crate::error::ArfError;
use crate::text::bytes_start_with;
use crate::text::push_bytes;
use crate::text::str_eq;
use vstd::arithmetic::div_mod::lemma_fundamental_div_mod;
use vstd::arithmetic::div_mod::lemma_mod_multiples_vanish;
use vstd::arithmetic::div_mod::lemma_small_mod;
use vstd::prelude::*;
use vstd::string::*;
use vstd::utf8::*;

verus! {

/// The multiple of which the length of the data is.
pub const DATA_ALIGNMENT: usize = 16;

/// The largest offset that the data may reach.
pub const MAX_OFFSET: u64 = 0xFFFF_FFFF;

/// The name is one of those that keep a section out of the data: it begins
/// with `.debug` or `.comment`, or is `.shstrtab`, `.strtab` or `.symtab`.
pub open spec fn is_excluded_name(n: Seq<char>) -> bool {
    ||| encode_utf8(".debug"@).is_prefix_of(encode_utf8(n))
    ||| encode_utf8(".comment"@).is_prefix_of(encode_utf8(n))
    ||| n == ".shstrtab"@
    ||| n == ".strtab"@
    ||| n == ".symtab"@
}

/// The section takes part in the data: it is allocated, has bytes in the
/// file, is not empty and is not kept out by its name.
pub open spec fn is_candidate(s: ElfSectionView) -> bool {
    &&& s.sh_flags & SHF_ALLOC != 0
    &&& s.sh_type != SHT_NOBITS
    &&& s.sh_size > 0
    &&& !is_excluded_name(s.name)
}

/// The section is a candidate and its bytes could be read.
pub open spec fn is_loadable(s: ElfSectionView) -> bool {
    is_candidate(s) && s.data is Some
}

/// The lowest address among the candidates of the first `n` sections; the
/// largest address there is, if none of them is a candidate.
pub open spec fn lowest_address(sections: Seq<ElfSectionView>, n: int) -> u64
    decreases n,
{
    if n <= 0 {
        u64::MAX
    } else {
        let before = lowest_address(sections, n - 1);
        if is_candidate(sections[n - 1]) && sections[n - 1].sh_addr < before {
            sections[n - 1].sh_addr
        } else {
            before
        }
    }
}

/// `order` with the section `i` put behind the last section that does not
/// lie at a higher address.
pub open spec fn insert_by_address(sections: Seq<ElfSectionView>, order: Seq<int>, i: int) -> Seq<
    int,
>
    decreases order.len(),
{
    if order.len() == 0 {
        seq![i]
    } else if sections[order[0]].sh_addr <= sections[i].sh_addr {
        seq![order[0]] + insert_by_address(sections, order.drop_first(), i)
    } else {
        seq![i] + order
    }
}

/// The loadable sections among the first `n`, by ascending address; those
/// at one address in the order of the section header table.
pub open spec fn layout_order(sections: Seq<ElfSectionView>, n: int) -> Seq<int>
    decreases n,
{
    if n <= 0 {
        Seq::empty()
    } else if is_loadable(sections[n - 1]) {
        insert_by_address(sections, layout_order(sections, n - 1), n - 1)
    } else {
        layout_order(sections, n - 1)
    }
}

/// `n` zero bytes.
pub open spec fn zeros(n: int) -> Seq<u8> {
    Seq::new(n as nat, |i: int| 0u8)
}

/// Where a section whose address is `target` bytes above the lowest starts,
/// when the data has reached `cur`: at its own place, or behind what is
/// there already.
pub open spec fn start_of(cur: int, target: int) -> int {
    if target > cur {
        target
    } else {
        cur
    }
}

/// The data after one more section: zero bytes up to the section's own
/// place if that lies ahead, the section's bytes, and zero bytes after them
/// if there are fewer than its size.
pub open spec fn place(img: Seq<u8>, cur: int, target: int, size: int, bytes: Seq<u8>) -> Seq<u8> {
    img + zeros(start_of(cur, target) - cur) + bytes + zeros(
        if size > bytes.len() {
            size - bytes.len()
        } else {
            0
        },
    )
}

/// The data and the running offset after the first `k` sections of
/// `order`. A section that would start or end beyond `MAX_OFFSET` is an
/// overflow.
pub open spec fn walk(sections: Seq<ElfSectionView>, order: Seq<int>, base: int, k: int) -> Result<
    (Seq<u8>, int),
    ArfError,
>
    decreases k,
{
    if k <= 0 {
        Ok((Seq::empty(), 0))
    } else {
        match walk(sections, order, base, k - 1) {
            Err(e) => Err(e),
            Ok((img, cur)) => {
                let s = sections[order[k - 1]];
                let target = s.sh_addr - base;
                if target > MAX_OFFSET || start_of(cur, target) + s.sh_size > MAX_OFFSET {
                    Err(ArfError::IntegerOverflow)
                } else {
                    Ok(
                        (
                            place(img, cur, target, s.sh_size as int, s.data->0),
                            start_of(cur, target) + s.sh_size,
                        ),
                    )
                }
            },
        }
    }
}

/// `img` with zero bytes behind it up to the next multiple of `alignment`.
pub open spec fn padded(img: Seq<u8>, alignment: int) -> Seq<u8> {
    img + zeros((alignment - (img.len() as int) % alignment) % alignment)
}

/// The bytes of every candidate could be read.
pub open spec fn all_readable(sections: Seq<ElfSectionView>) -> bool {
    forall|j: int|
        0 <= j < sections.len() && is_candidate(#[trigger] sections[j]) ==> sections[j].data is Some
}

/// The data of a container made from `sections`. A candidate whose bytes
/// could not be read makes the input malformed.
pub open spec fn data_image(sections: Seq<ElfSectionView>) -> Result<Seq<u8>, ArfError> {
    let n = sections.len() as int;
    let order = layout_order(sections, n);
    if !all_readable(sections) {
        Err(ArfError::MalformedInput)
    } else {
        match walk(sections, order, lowest_address(sections, n) as int, order.len() as int) {
            Err(e) => Err(e),
            Ok((img, cur)) => Ok(padded(img, DATA_ALIGNMENT as int)),
        }
    }
}

/// Appends `n` zero bytes.
pub fn push_zeros(out: &mut Vec<u8>, n: u64)
    ensures
        final(out)@ == old(out)@ + zeros(n as int),
{
    let mut i: u64 = 0;
    while i < n
        invariant
            i <= n,
            out@ == old(out)@ + zeros(i as int),
        decreases n - i,
    {
        out.push(0u8);
        i += 1;
        assert(out@ =~= old(out)@ + zeros(i as int));
    }
}

/// Pads `data` with zero bytes to a multiple of `alignment`.
pub fn align_data(data: &mut Vec<u8>, alignment: usize)
    requires
        alignment > 0,
    ensures
        final(data)@ == padded(old(data)@, alignment as int),
        (final(data)@.len() as int) % (alignment as int) == 0,
{
    let ghost len = data@.len() as int;
    let ghost a = alignment as int;
    let remainder = data.len() % alignment;
    if remainder != 0 {
        let padding = alignment - remainder;
        push_zeros(data, padding as u64);
        proof {
            let q = len / a;
            lemma_fundamental_div_mod(len, a);
            assert(a * (q + 1) == a * q + a) by (nonlinear_arith);
            lemma_mod_multiples_vanish(q + 1, 0, a);
            lemma_small_mod(0, a as nat);
            lemma_small_mod((a - remainder) as nat, a as nat);
        }
    } else {
        assert(data@ =~= old(data)@ + zeros(0));
        proof {
            lemma_mod_multiples_vanish(1, 0, a);
            lemma_small_mod(0, a as nat);
        }
    }
}

/// Whether the name keeps a section out of the data.
fn has_excluded_name(name: &str) -> (r: bool)
    ensures
        r == is_excluded_name(name@),
{
    let bytes = name.as_bytes();
    bytes_start_with(bytes, ".debug".as_bytes()) || bytes_start_with(bytes, ".comment".as_bytes())
        || str_eq(name, ".shstrtab") || str_eq(name, ".strtab") || str_eq(name, ".symtab")
}

/// Whether the section takes part in the data.
pub fn section_is_candidate(section: &ElfSection) -> (r: bool)
    ensures
        r == is_candidate(section@),
{
    section.sh_flags & SHF_ALLOC != 0 && section.sh_type != SHT_NOBITS && section.sh_size > 0
        && !has_excluded_name(section.name.as_str())
}

/// The indices of `order` as integers.
pub open spec fn indices(order: Seq<usize>) -> Seq<int> {
    Seq::new(order.len(), |i: int| order[i] as int)
}

/// Every index of `order` is below `n`.
pub open spec fn all_below(order: Seq<int>, n: int) -> bool {
    forall|j: int| 0 <= j < order.len() ==> 0 <= #[trigger] order[j] < n
}

/// Putting a section into an order whose indices are below `n` gives an
/// order that is one longer and whose indices are below `n` or the new one.
pub proof fn lemma_insert_by_address(sections: Seq<ElfSectionView>, order: Seq<int>, i: int, n: int)
    requires
        all_below(order, n),
        0 <= i < n,
    ensures
        insert_by_address(sections, order, i).len() == order.len() + 1,
        all_below(insert_by_address(sections, order, i), n),
    decreases order.len(),
{
    if order.len() == 0 {
    } else if sections[order[0]].sh_addr <= sections[i].sh_addr {
        let tail = order.drop_first();
        assert forall|j: int| 0 <= j < tail.len() implies 0 <= #[trigger] tail[j] < n by {
            assert(tail[j] == order[j + 1]);
        }
        lemma_insert_by_address(sections, tail, i, n);
        let rest = insert_by_address(sections, tail, i);
        let r = seq![order[0]] + rest;
        assert forall|j: int| 0 <= j < r.len() implies 0 <= #[trigger] r[j] < n by {
            if j > 0 {
                assert(r[j] == rest[j - 1]);
            }
        }
    } else {
        let r = seq![i] + order;
        assert forall|j: int| 0 <= j < r.len() implies 0 <= #[trigger] r[j] < n by {
            if j > 0 {
                assert(r[j] == order[j - 1]);
            }
        }
    }
}

/// The layout order of the first `n` sections holds indices below `n`.
pub proof fn lemma_layout_order_below(sections: Seq<ElfSectionView>, n: int)
    requires
        0 <= n <= sections.len(),
    ensures
        all_below(layout_order(sections, n), n),
    decreases n,
{
    if n > 0 {
        lemma_layout_order_below(sections, n - 1);
        let before = layout_order(sections, n - 1);
        assert(all_below(before, n)) by {
            assert forall|j: int| 0 <= j < before.len() implies 0 <= #[trigger] before[j] < n by {
                assert(0 <= before[j] < n - 1);
            }
        }
        if is_loadable(sections[n - 1]) {
            lemma_insert_by_address(sections, before, n - 1, n);
        }
    }
}

/// Where the section `i` goes: behind those of the first `p` that do not
/// lie higher.
proof fn lemma_insert_at(sections: Seq<ElfSectionView>, order: Seq<int>, i: int, p: int)
    requires
        0 <= p <= order.len(),
        forall|j: int| 0 <= j < p ==> sections[#[trigger] order[j]].sh_addr <= sections[i].sh_addr,
        p < order.len() ==> sections[order[p]].sh_addr > sections[i].sh_addr,
    ensures
        insert_by_address(sections, order, i) == order.insert(p, i),
    decreases order.len(),
{
    if p == 0 {
        if order.len() == 0 {
            assert(order.insert(0, i) =~= seq![i]);
        } else {
            assert(order.insert(0, i) =~= seq![i] + order);
        }
    } else {
        let tail = order.drop_first();
        assert(sections[order[0]].sh_addr <= sections[i].sh_addr);
        assert forall|j: int| 0 <= j < p - 1 implies sections[#[trigger] tail[j]].sh_addr
            <= sections[i].sh_addr by {
            assert(tail[j] == order[j + 1]);
        }
        lemma_insert_at(sections, tail, i, p - 1);
        assert(order.insert(p, i) =~= seq![order[0]] + tail.insert(p - 1, i));
    }
}

/// Puts the section `i` into `order`, behind the last section that does not
/// lie at a higher address.
fn insert_section(sections: &Vec<ElfSection>, order: &mut Vec<usize>, i: usize)
    requires
        i < sections.len(),
        all_below(indices(old(order)@), sections.len() as int),
    ensures
        indices(final(order)@) == insert_by_address(
            Seq::new(sections@.len(), |k: int| sections@[k]@),
            indices(old(order)@),
            i as int,
        ),
        all_below(indices(final(order)@), sections.len() as int),
{
    let ghost views = Seq::new(sections@.len(), |k: int| sections@[k]@);
    let ghost before = indices(order@);
    let addr = sections[i].sh_addr;
    let mut p: usize = 0;
    assert forall|j: int| 0 <= j < order.len() implies #[trigger] order@[j] < sections.len() by {
        assert(0 <= before[j] < sections.len());
    }
    while p < order.len() && sections[order[p]].sh_addr <= addr
        invariant
            p <= order.len(),
            i < sections.len(),
            order@ == old(order)@,
            before == indices(order@),
            all_below(before, sections.len() as int),
            forall|j: int| 0 <= j < order.len() ==> #[trigger] order@[j] < sections.len(),
            views == Seq::new(sections@.len(), |k: int| sections@[k]@),
            addr == sections@[i as int].sh_addr,
            forall|j: int| 0 <= j < p ==> views[#[trigger] before[j]].sh_addr <= addr,
        decreases order.len() - p,
    {
        assert(0 <= before[p as int] < sections.len());
        p += 1;
    }
    proof {
        if p < order.len() {
            assert(0 <= before[p as int] < sections.len());
            assert(views[before[p as int]].sh_addr > addr);
        }
        lemma_insert_at(views, before, i as int, p as int);
        lemma_insert_by_address(views, before, i as int, sections.len() as int);
    }
    order.insert(p, i);
    assert(indices(order@) =~= before.insert(p as int, i as int));
}

/// The data of a container: the candidate sections of `image` by
/// ascending address, each at its distance from the lowest address of a
/// candidate, with zero bytes between them and up to a multiple of 16.
pub fn extract_section_data(image: &ElfImage) -> (r: Result<Vec<u8>, ArfError>)
    ensures
        match r {
            Ok(data) => data_image(image@.sections) == Ok::<_, ArfError>(data@) && data@.len() % 16
                == 0,
            Err(e) => data_image(image@.sections) == Err::<Seq<u8>, _>(e),
        },
{
    let sections = &image.sections;
    let ghost views = image@.sections;
    let n = sections.len();
    let mut lowest: u64 = u64::MAX;
    let mut order: Vec<usize> = Vec::new();
    let mut i: usize = 0;
    assert(indices(order@) =~= layout_order(views, 0));
    while i < n
        invariant
            i <= n,
            n == sections.len(),
            views == Seq::new(sections@.len(), |k: int| sections@[k]@),
            views == image@.sections,
            lowest == lowest_address(views, i as int),
            indices(order@) == layout_order(views, i as int),
            all_below(indices(order@), n as int),
            forall|j: int| 0 <= j < i && is_candidate(#[trigger] views[j]) ==> views[j].data is Some,
        decreases n - i,
    {
        let section = &sections[i];
        assert(views[i as int] == section@);
        if section_is_candidate(section) {
            if section.data.is_none() {
                return Err(ArfError::MalformedInput);
            }
            if section.sh_addr < lowest {
                lowest = section.sh_addr;
            }
            insert_section(sections, &mut order, i);
        }
        i += 1;
    }
    assert(all_readable(views));
    let mut data: Vec<u8> = Vec::new();
    let mut cur: u64 = 0;
    let mut k: usize = 0;
    proof {
        lemma_lowest_address(views, n as int);
        lemma_layout_order_loadable(views, n as int);
    }
    while k < order.len()
        invariant
            k <= order.len(),
            n == sections.len(),
            views == Seq::new(sections@.len(), |j: int| sections@[j]@),
            all_below(indices(order@), n as int),
            forall|j: int|
                0 <= j < order.len() ==> is_loadable(views[#[trigger] indices(order@)[j]]) && lowest
                    <= views[indices(order@)[j]].sh_addr,
            cur <= MAX_OFFSET,
            views == image@.sections,
            all_readable(views),
            indices(order@) == layout_order(views, n as int),
            lowest == lowest_address(views, n as int),
            walk(views, indices(order@), lowest as int, k as int) == Ok::<_, ArfError>(
                (data@, cur as int),
            ),
        decreases order.len() - k,
    {
        let ghost idx = indices(order@);
        assert(0 <= idx[k as int] < n);
        assert(is_loadable(views[idx[k as int]]) && lowest <= views[idx[k as int]].sh_addr);
        let section = &sections[order[k]];
        assert(views[idx[k as int]] == section@);
        let target = section.sh_addr - lowest;
        if target > MAX_OFFSET {
            assert(walk(views, idx, lowest as int, k + 1) == Err::<(Seq<u8>, int), _>(
                ArfError::IntegerOverflow,
            ));
            proof {
                lemma_walk_fails(views, idx, lowest as int, k + 1, order.len() as int);
            }
            return Err(ArfError::IntegerOverflow);
        }
        let start = if target > cur {
            target
        } else {
            cur
        };
        if section.sh_size > MAX_OFFSET - start {
            assert(walk(views, idx, lowest as int, k + 1) == Err::<(Seq<u8>, int), _>(
                ArfError::IntegerOverflow,
            ));
            proof {
                lemma_walk_fails(views, idx, lowest as int, k + 1, order.len() as int);
            }
            return Err(ArfError::IntegerOverflow);
        }
        let ghost before = data@;
        push_zeros(&mut data, start - cur);
        match &section.data {
            Some(bytes) => {
                push_bytes(&mut data, bytes.as_slice());
                if section.sh_size > bytes.len() as u64 {
                    push_zeros(&mut data, section.sh_size - bytes.len() as u64);
                } else {
                    assert(data@ =~= data@ + zeros(0));
                }
                assert(data@ =~= place(
                    before,
                    cur as int,
                    target as int,
                    section.sh_size as int,
                    bytes@,
                ));
            },
            None => {},
        }
        cur = start + section.sh_size;
        k += 1;
    }
    align_data(&mut data, DATA_ALIGNMENT);
    Ok(data)
}

/// The lowest address is no higher than that of any candidate.
pub proof fn lemma_lowest_address(sections: Seq<ElfSectionView>, n: int)
    requires
        0 <= n <= sections.len(),
    ensures
        forall|j: int|
            0 <= j < n && is_candidate(#[trigger] sections[j]) ==> lowest_address(sections, n)
                <= sections[j].sh_addr,
        lowest_address(sections, n) == u64::MAX || exists|j: int|
            0 <= j < n && is_candidate(#[trigger] sections[j]) && sections[j].sh_addr
                == lowest_address(sections, n),
    decreases n,
{
    if n > 0 {
        lemma_lowest_address(sections, n - 1);
        let before = lowest_address(sections, n - 1);
        if is_candidate(sections[n - 1]) && sections[n - 1].sh_addr < before {
        } else if before != u64::MAX {
            let j = choose|j: int|
                0 <= j < n - 1 && is_candidate(#[trigger] sections[j]) && sections[j].sh_addr
                    == before;
            assert(0 <= j < n && is_candidate(sections[j]));
        }
    }
}

/// Putting a loadable section into an order of loadable sections gives an
/// order of loadable sections.
proof fn lemma_insert_loadable(sections: Seq<ElfSectionView>, order: Seq<int>, i: int)
    requires
        forall|j: int| 0 <= j < order.len() ==> is_loadable(sections[#[trigger] order[j]]),
        is_loadable(sections[i]),
    ensures
        forall|j: int|
            0 <= j < insert_by_address(sections, order, i).len() ==> is_loadable(
                sections[#[trigger] insert_by_address(sections, order, i)[j]],
            ),
    decreases order.len(),
{
    let r = insert_by_address(sections, order, i);
    if order.len() == 0 {
    } else if sections[order[0]].sh_addr <= sections[i].sh_addr {
        let tail = order.drop_first();
        assert forall|j: int| 0 <= j < tail.len() implies is_loadable(
            sections[#[trigger] tail[j]],
        ) by {
            assert(tail[j] == order[j + 1]);
        }
        lemma_insert_loadable(sections, tail, i);
        let rest = insert_by_address(sections, tail, i);
        assert forall|j: int| 0 <= j < r.len() implies is_loadable(sections[#[trigger] r[j]]) by {
            if j > 0 {
                assert(r[j] == rest[j - 1]);
            }
        }
    } else {
        assert forall|j: int| 0 <= j < r.len() implies is_loadable(sections[#[trigger] r[j]]) by {
            if j > 0 {
                assert(r[j] == order[j - 1]);
            }
        }
    }
}

/// Every section of the layout order is loadable.
pub proof fn lemma_layout_order_loadable(sections: Seq<ElfSectionView>, n: int)
    requires
        0 <= n <= sections.len(),
    ensures
        forall|j: int|
            0 <= j < layout_order(sections, n).len() ==> is_loadable(
                sections[#[trigger] layout_order(sections, n)[j]],
            ),
    decreases n,
{
    if n > 0 {
        lemma_layout_order_loadable(sections, n - 1);
        if is_loadable(sections[n - 1]) {
            lemma_insert_loadable(sections, layout_order(sections, n - 1), n - 1);
        }
    }
}

/// Once a section cannot be placed, the walk has failed for good.
proof fn lemma_walk_fails(
    sections: Seq<ElfSectionView>,
    order: Seq<int>,
    base: int,
    k: int,
    m: int,
)
    requires
        0 <= k <= m,
        walk(sections, order, base, k) is Err,
    ensures
        walk(sections, order, base, m) == walk(sections, order, base, k),
    decreases m - k,
{
    if k < m {
        lemma_walk_fails(sections, order, base, k, m - 1);
    }
}

/// The data of a container is a multiple of 16 bytes long.
pub proof fn lemma_data_image_aligned(sections: Seq<ElfSectionView>)
    ensures
        data_image(sections) matches Ok(data) ==> data.len() % 16 == 0,
{
    if let Ok(data) = data_image(sections) {
        let n = sections.len() as int;
        let order = layout_order(sections, n);
        let img = walk(sections, order, lowest_address(sections, n) as int, order.len() as int)->Ok_0.0;
        let len = img.len() as int;
        let r = len % 16;
        lemma_fundamental_div_mod(len, 16);
        if r == 0 {
            lemma_mod_multiples_vanish(1, 0, 16);
            lemma_small_mod(0, 16);
        } else {
            lemma_small_mod((16 - r) as nat, 16);
            lemma_mod_multiples_vanish(len / 16 + 1, 0, 16);
            lemma_small_mod(0, 16);
        }
    }
}

/// Sections of which none is a candidate have no layout order.
pub proof fn lemma_layout_order_none(sections: Seq<ElfSectionView>, n: int)
    requires
        0 <= n <= sections.len(),
        forall|j: int| 0 <= j < n ==> !is_candidate(#[trigger] sections[j]),
    ensures
        layout_order(sections, n) == Seq::<int>::empty(),
    decreases n,
{
    if n > 0 {
        lemma_layout_order_none(sections, n - 1);
        assert(!is_candidate(sections[n - 1]));
    }
}

/// Sections of which none is a candidate give no data.
pub proof fn lemma_data_image_none(sections: Seq<ElfSectionView>)
    requires
        forall|j: int| 0 <= j < sections.len() ==> !is_candidate(#[trigger] sections[j]),
    ensures
        data_image(sections) == Ok::<_, ArfError>(Seq::<u8>::empty()),
{
    lemma_layout_order_none(sections, sections.len() as int);
    let empty = Seq::<u8>::empty();
    assert(padded(empty, 16) =~= empty);
}

} // verus!
