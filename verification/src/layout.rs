//! What holds of the data of a container: where the bytes of a section
//! lie, and what lies between two sections.

use crate::data_image::data_image;
use crate::data_image::insert_by_address;
use crate::data_image::is_loadable;
use crate::data_image::layout_order;
use crate::data_image::lemma_layout_order_below;
use crate::data_image::lemma_layout_order_loadable;
use crate::data_image::lemma_lowest_address;
use crate::data_image::lowest_address;
use crate::data_image::padded;
use crate::data_image::place;
use crate::data_image::start_of;
use crate::data_image::walk;
use crate::data_image::zeros;
use crate::elf_image::ElfSectionView;
use vstd::prelude::*;

verus! {

/// The section `a` comes before the section `b` in the layout: it lies at a
/// lower address, or at the same address and earlier in the section header
/// table.
pub open spec fn laid_before(sections: Seq<ElfSectionView>, a: int, b: int) -> bool {
    sections[a].sh_addr < sections[b].sh_addr || (sections[a].sh_addr == sections[b].sh_addr && a
        < b)
}

/// Each section of `order` comes before all later ones.
pub open spec fn is_laid_out(sections: Seq<ElfSectionView>, order: Seq<int>) -> bool {
    forall|i: int, j: int|
        0 <= i < j < order.len() ==> laid_before(sections, #[trigger] order[i], #[trigger] order[j])
}

/// Putting a section that stands behind all sections of an order that is
/// laid out into it gives an order that is laid out, and that holds the
/// section and what the order held.
pub proof fn lemma_insert_laid_out(sections: Seq<ElfSectionView>, order: Seq<int>, i: int)
    requires
        is_laid_out(sections, order),
        forall|j: int| 0 <= j < order.len() ==> #[trigger] order[j] < i,
    ensures
        is_laid_out(sections, insert_by_address(sections, order, i)),
        forall|x: int|
            #![trigger insert_by_address(sections, order, i).contains(x)]
            #![trigger order.contains(x)]
            insert_by_address(sections, order, i).contains(x) <==> (x == i || order.contains(x)),
    decreases order.len(),
{
    let r = insert_by_address(sections, order, i);
    if order.len() == 0 {
        assert(r[0] == i);
        assert forall|x: int| r.contains(x) <==> (x == i || order.contains(x)) by {
            if r.contains(x) {
                let k = choose|k: int| 0 <= k < r.len() && r[k] == x;
                assert(k == 0);
            }
        }
    } else if sections[order[0]].sh_addr <= sections[i].sh_addr {
        let tail = order.drop_first();
        let rest = insert_by_address(sections, tail, i);
        assert forall|a: int, b: int| 0 <= a < b < tail.len() implies laid_before(
            sections,
            #[trigger] tail[a],
            #[trigger] tail[b],
        ) by {
            assert(laid_before(sections, order[a + 1], order[b + 1]));
        }
        assert forall|j: int| 0 <= j < tail.len() implies #[trigger] tail[j] < i by {
            assert(order[j + 1] < i);
        }
        lemma_insert_laid_out(sections, tail, i);
        assert forall|x: int| r.contains(x) <==> (x == i || order.contains(x)) by {
            if r.contains(x) {
                let k = choose|k: int| 0 <= k < r.len() && r[k] == x;
                if k == 0 {
                    assert(order[0] == x);
                } else {
                    assert(rest[k - 1] == x);
                    assert(rest.contains(x));
                    if x != i {
                        assert(tail.contains(x));
                        let t = choose|t: int| 0 <= t < tail.len() && tail[t] == x;
                        assert(order[t + 1] == x);
                    }
                }
            }
            if x == i || order.contains(x) {
                if x == order[0] {
                    assert(r[0] == x);
                } else {
                    if x != i {
                        let t = choose|t: int| 0 <= t < order.len() && order[t] == x;
                        assert(tail[t - 1] == x);
                        assert(tail.contains(x));
                    }
                    assert(rest.contains(x));
                    let k = choose|k: int| 0 <= k < rest.len() && rest[k] == x;
                    assert(r[k + 1] == x);
                }
            }
        }
        assert forall|a: int, b: int| 0 <= a < b < r.len() implies laid_before(
            sections,
            #[trigger] r[a],
            #[trigger] r[b],
        ) by {
            if a == 0 {
                let x = rest[b - 1];
                assert(rest.contains(x));
                if x == i {
                    assert(order[0] < i);
                } else {
                    assert(tail.contains(x));
                    let t = choose|t: int| 0 <= t < tail.len() && tail[t] == x;
                    assert(laid_before(sections, order[0], order[t + 1]));
                }
            } else {
                assert(laid_before(sections, rest[a - 1], rest[b - 1]));
            }
        }
    } else {
        assert(r[0] == i);
        assert forall|x: int| r.contains(x) <==> (x == i || order.contains(x)) by {
            if r.contains(x) {
                let k = choose|k: int| 0 <= k < r.len() && r[k] == x;
                if k > 0 {
                    assert(order[k - 1] == x);
                }
            }
            if order.contains(x) {
                let t = choose|t: int| 0 <= t < order.len() && order[t] == x;
                assert(r[t + 1] == x);
            }
        }
        assert forall|a: int, b: int| 0 <= a < b < r.len() implies laid_before(
            sections,
            #[trigger] r[a],
            #[trigger] r[b],
        ) by {
            if a == 0 {
                if b - 1 > 0 {
                    assert(laid_before(sections, order[0], order[b - 1]));
                }
            } else {
                assert(laid_before(sections, order[a - 1], order[b - 1]));
            }
        }
    }
}

/// The layout order of the first `n` sections holds exactly the loadable
/// ones among them, by ascending address, and those at one address in the
/// order of the section header table.
pub proof fn lemma_layout_order(sections: Seq<ElfSectionView>, n: int)
    requires
        0 <= n <= sections.len(),
    ensures
        is_laid_out(sections, layout_order(sections, n)),
        forall|x: int|
            #![trigger layout_order(sections, n).contains(x)]
            #![trigger sections[x]]
            layout_order(sections, n).contains(x) <==> (0 <= x < n && is_loadable(sections[x])),
    decreases n,
{
    let order = layout_order(sections, n);
    if n > 0 {
        let before = layout_order(sections, n - 1);
        lemma_layout_order(sections, n - 1);
        lemma_layout_order_below(sections, n - 1);
        if is_loadable(sections[n - 1]) {
            lemma_insert_laid_out(sections, before, n - 1);
        }
        assert forall|x: int| order.contains(x) <==> (0 <= x < n && is_loadable(sections[x])) by {
            assert(before.contains(x) <==> (0 <= x < n - 1 && is_loadable(sections[x])));
        }
    } else {
        assert forall|x: int| order.contains(x) <==> (0 <= x < n && is_loadable(sections[x])) by {
            if order.contains(x) {
                let k = choose|k: int| 0 <= k < order.len() && order[k] == x;
            }
        }
    }
}

/// The bytes of a section in the data: its own, and zero bytes after them
/// up to its size.
pub open spec fn slot(s: ElfSectionView) -> Seq<u8> {
    s.data->0 + zeros(s.sh_size - s.data->0.len())
}

/// The first `k` sections of `order` have bytes, no more of them than their
/// size, none lies below `base`, and none starts before the end of the one
/// before it.
pub open spec fn in_step(sections: Seq<ElfSectionView>, order: Seq<int>, base: int, k: int) -> bool {
    &&& forall|j: int|
        0 <= j < k ==> (#[trigger] sections[order[j]]).data is Some && sections[order[j]].data->0.len()
            <= sections[order[j]].sh_size && base <= sections[order[j]].sh_addr
    &&& forall|j: int|
        1 <= j < k ==> (#[trigger] sections[order[j]]).sh_addr >= sections[order[j - 1]].sh_addr
            + sections[order[j - 1]].sh_size
}

/// While the sections are in step, the data is as long as the running
/// offset, which is the end of the last section.
pub proof fn lemma_walk_in_step(sections: Seq<ElfSectionView>, order: Seq<int>, base: int, k: int)
    requires
        0 <= k <= order.len(),
        in_step(sections, order, base, k),
        walk(sections, order, base, k) is Ok,
    ensures
        walk(sections, order, base, k)->Ok_0.0.len() == walk(sections, order, base, k)->Ok_0.1,
        k == 0 ==> walk(sections, order, base, k)->Ok_0.1 == 0,
        k > 0 ==> walk(sections, order, base, k)->Ok_0.1 == sections[order[k - 1]].sh_addr - base
            + sections[order[k - 1]].sh_size,
        k > 0 ==> walk(sections, order, base, k - 1) is Ok && walk(sections, order, base, k)->Ok_0.0
            == walk(sections, order, base, k - 1)->Ok_0.0 + zeros(
            sections[order[k - 1]].sh_addr - base - walk(sections, order, base, k - 1)->Ok_0.1,
        ) + slot(sections[order[k - 1]]),
        k > 0 ==> walk(sections, order, base, k - 1)->Ok_0.1 <= sections[order[k - 1]].sh_addr
            - base,
    decreases k,
{
    if k > 0 {
        assert(in_step(sections, order, base, k - 1)) by {
            assert forall|j: int| 1 <= j < k - 1 implies (#[trigger] sections[order[j]]).sh_addr
                >= sections[order[j - 1]].sh_addr + sections[order[j - 1]].sh_size by {
                assert(1 <= j < k);
            }
        }
        lemma_walk_in_step(sections, order, base, k - 1);
        let (img, cur) = walk(sections, order, base, k - 1)->Ok_0;
        let s = sections[order[k - 1]];
        let target = s.sh_addr - base;
        if k - 1 > 0 {
            assert(sections[order[k - 1]].sh_addr >= sections[order[k - 2]].sh_addr
                + sections[order[k - 2]].sh_size);
        }
        assert(cur <= target);
        assert(start_of(cur, target) == target);
        assert(s.data->0.len() <= s.sh_size);
        let next = place(img, cur, target, s.sh_size as int, s.data->0);
        assert(next =~= img + zeros(target - cur) + slot(s));
    }
}

/// What the walk has written stays where it is.
pub proof fn lemma_walk_extends(
    sections: Seq<ElfSectionView>,
    order: Seq<int>,
    base: int,
    k: int,
    m: int,
)
    requires
        0 <= k <= m,
        walk(sections, order, base, m) is Ok,
    ensures
        walk(sections, order, base, k) is Ok,
        walk(sections, order, base, k)->Ok_0.0.is_prefix_of(walk(sections, order, base, m)->Ok_0.0),
    decreases m - k,
{
    if k < m {
        lemma_walk_extends(sections, order, base, k, m - 1);
        let a = walk(sections, order, base, k)->Ok_0.0;
        let b = walk(sections, order, base, m - 1)->Ok_0.0;
        let c = walk(sections, order, base, m)->Ok_0.0;
        assert(b.is_prefix_of(c));
        assert(a =~= c.subrange(0, a.len() as int)) by {
            assert(a =~= b.subrange(0, a.len() as int));
        }
    } else {
        let a = walk(sections, order, base, k)->Ok_0.0;
        assert(a =~= a.subrange(0, a.len() as int));
    }
}

/// Between two sections that follow each other in the order, the walk
/// leaves exactly the zero bytes that lie between the end of the first and
/// the start of the second, provided that the sections up to the second
/// are in step: `img` holds the first at its distance from `base`, then
/// those zero bytes, then the second.
pub proof fn lemma_walk_gap(
    sections: Seq<ElfSectionView>,
    order: Seq<int>,
    base: int,
    k: int,
    m: int,
)
    requires
        1 <= k < m <= order.len(),
        in_step(sections, order, base, k + 1),
        walk(sections, order, base, m) is Ok,
    ensures
        ({
            let img = walk(sections, order, base, m)->Ok_0.0;
            let a = sections[order[k - 1]];
            let b = sections[order[k]];
            let at_a = a.sh_addr - base;
            let at_b = b.sh_addr - base;
            &&& 0 <= at_a && at_a + a.sh_size <= at_b && at_b + b.sh_size <= img.len()
            &&& img.subrange(at_a, at_a + a.sh_size) == slot(a)
            &&& img.subrange(at_a + a.sh_size, at_b) == zeros(b.sh_addr - a.sh_addr - a.sh_size)
            &&& img.subrange(at_b, at_b + b.sh_size) == slot(b)
        }),
{
    let img = walk(sections, order, base, m)->Ok_0.0;
    let a = sections[order[k - 1]];
    let b = sections[order[k]];
    let at_a = a.sh_addr - base;
    let at_b = b.sh_addr - base;
    lemma_walk_extends(sections, order, base, k + 1, m);
    lemma_walk_in_step(sections, order, base, k + 1);
    assert(in_step(sections, order, base, k)) by {
        assert forall|j: int| 1 <= j < k implies (#[trigger] sections[order[j]]).sh_addr
            >= sections[order[j - 1]].sh_addr + sections[order[j - 1]].sh_size by {
            assert(1 <= j < k + 1);
        }
    }
    lemma_walk_in_step(sections, order, base, k);
    let i0 = walk(sections, order, base, k - 1)->Ok_0.0;
    let c0 = walk(sections, order, base, k - 1)->Ok_0.1;
    let i1 = walk(sections, order, base, k)->Ok_0.0;
    let i2 = walk(sections, order, base, k + 1)->Ok_0.0;
    assert(i1 == i0 + zeros(at_a - c0) + slot(a));
    assert(i2 == i1 + zeros(at_b - (at_a + a.sh_size)) + slot(b));
    assert(a.data->0.len() <= a.sh_size && b.data->0.len() <= b.sh_size);
    assert(slot(a).len() == a.sh_size && slot(b).len() == b.sh_size);
    assert(i1.len() == at_a + a.sh_size);
    assert(i2.len() == at_b + b.sh_size);
    assert(sections[order[k]].sh_addr >= sections[order[k - 1]].sh_addr + sections[order[k
        - 1]].sh_size);
    assert(i2.subrange(at_a, at_a + a.sh_size) =~= slot(a));
    assert(i2.subrange(at_a + a.sh_size, at_b) =~= zeros(b.sh_addr - a.sh_addr - a.sh_size));
    assert(i2.subrange(at_b, at_b + b.sh_size) =~= slot(b));
    assert(i2 =~= img.subrange(0, i2.len() as int));
    assert(img.subrange(at_a, at_a + a.sh_size) =~= i2.subrange(at_a, at_a + a.sh_size));
    assert(img.subrange(at_a + a.sh_size, at_b) =~= i2.subrange(at_a + a.sh_size, at_b));
    assert(img.subrange(at_b, at_b + b.sh_size) =~= i2.subrange(at_b, at_b + b.sh_size));
}

/// The sections of the layout order up to the one at place `k` have no
/// more bytes than their size, and none starts before the end of the one
/// before it.
pub open spec fn apart_up_to(sections: Seq<ElfSectionView>, k: int) -> bool {
    let order = layout_order(sections, sections.len() as int);
    &&& forall|j: int|
        0 <= j <= k ==> (#[trigger] sections[order[j]]).data is Some ==> sections[order[j]].data->0.len()
            <= sections[order[j]].sh_size
    &&& forall|j: int|
        1 <= j <= k ==> (#[trigger] sections[order[j]]).sh_addr >= sections[order[j - 1]].sh_addr
            + sections[order[j - 1]].sh_size
}

/// Take two sections that follow each other in the layout order, at the
/// places `k - 1` and `k`, where no section up to the second has more
/// bytes than its size or starts before the end of the one before it. Then
/// the data holds the first at its distance from the lowest address, after
/// it as many zero bytes as lie between the end of the first and the start
/// of the second, and then the second; each section stands there with its
/// bytes and with zero bytes after them up to its size.
pub proof fn lemma_gap_preservation(sections: Seq<ElfSectionView>, k: int)
    requires
        data_image(sections) is Ok,
        1 <= k < layout_order(sections, sections.len() as int).len(),
        apart_up_to(sections, k),
    ensures
        ({
            let data = data_image(sections)->Ok_0;
            let order = layout_order(sections, sections.len() as int);
            let base = lowest_address(sections, sections.len() as int);
            let a = sections[order[k - 1]];
            let b = sections[order[k]];
            let at_a = a.sh_addr - base;
            let at_b = b.sh_addr - base;
            &&& 0 <= at_a && at_a + a.sh_size <= at_b && at_b + b.sh_size <= data.len()
            &&& data.subrange(at_a, at_a + a.sh_size) == slot(a)
            &&& data.subrange(at_a + a.sh_size, at_b) == zeros(b.sh_addr - a.sh_addr - a.sh_size)
            &&& data.subrange(at_b, at_b + b.sh_size) == slot(b)
        }),
{
    let n = sections.len() as int;
    let order = layout_order(sections, n);
    let base = lowest_address(sections, n) as int;
    let m = order.len() as int;
    let img = walk(sections, order, base, m)->Ok_0.0;
    let data = data_image(sections)->Ok_0;
    lemma_apart_in_step(sections, k);
    lemma_walk_gap(sections, order, base, k, m);
    let a = sections[order[k - 1]];
    let b = sections[order[k]];
    let at_a = a.sh_addr - base;
    let at_b = b.sh_addr - base;
    assert(data == padded(img, 16));
    lemma_prefix_subrange(img, data, at_a, at_a + a.sh_size);
    lemma_prefix_subrange(img, data, at_a + a.sh_size, at_b);
    lemma_prefix_subrange(img, data, at_b, at_b + b.sh_size);
}

/// Sections of the layout order that have no more bytes than their size
/// and do not overlap are in step from the lowest address on.
proof fn lemma_apart_in_step(sections: Seq<ElfSectionView>, k: int)
    requires
        0 <= k < layout_order(sections, sections.len() as int).len(),
        apart_up_to(sections, k),
    ensures
        in_step(
            sections,
            layout_order(sections, sections.len() as int),
            lowest_address(sections, sections.len() as int) as int,
            k + 1,
        ),
{
    let n = sections.len() as int;
    let order = layout_order(sections, n);
    let base = lowest_address(sections, n) as int;
    lemma_lowest_address(sections, n);
    lemma_layout_order_loadable(sections, n);
    lemma_layout_order_below(sections, n);
    assert forall|j: int| 0 <= j < k + 1 implies (#[trigger] sections[order[j]]).data is Some
        && sections[order[j]].data->0.len() <= sections[order[j]].sh_size && base
        <= sections[order[j]].sh_addr by {
        assert(0 <= order[j] < n);
        assert(is_loadable(sections[order[j]]));
    }
}

/// A part of a prefix is the same part of the whole.
proof fn lemma_prefix_subrange(part: Seq<u8>, whole: Seq<u8>, from: int, to: int)
    requires
        part.is_prefix_of(whole),
        0 <= from <= to <= part.len(),
    ensures
        whole.subrange(from, to) == part.subrange(from, to),
{
    assert(whole.subrange(from, to) =~= part.subrange(from, to));
}

} // verus!
