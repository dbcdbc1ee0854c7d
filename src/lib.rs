pub mod page;
pub mod paging;
pub mod kmem;
pub mod cpu;
pub mod trap;

use vstd::prelude::*;
use crate::cpu::{build_satp, SatpMode};
use crate::kmem::{KernelHeap, HEAP_PAGES};
use crate::page::{PhysMem, count_taken, frame_addr, is_free_run, mark_run};
use crate::paging::{lemma_words_kept_trans,
    new_root, translate, valid_root, frame_of, is_branch_table, leaf_bits_ok, leaf_entry, leaf_of,
    same_page, tables_exactly, words_kept,
    READ_EXECUTE, READ_WRITE,
};

verus! {

/// Size of the Sv39 virtual address space: identity maps stay below it.
pub const VA_LIMIT: u64 = 0x80_0000_0000;

/// `x` rounded down to a page boundary.
pub open spec fn align_down(x: u64) -> u64 {
    x & !0xfffu64
}

/// `x` rounded up to a page boundary.
pub open spec fn align_up(x: u64) -> u64 {
    ((x + 0xfffu64) as u64) & !0xfffu64
}

proof fn lemma_bounds(start: u64, end: u64)
    requires
        start <= end,
        end <= VA_LIMIT,
    ensures
        align_down(start) <= start,
        align_down(start) & 0xfff == 0,
        end <= align_up(end) <= VA_LIMIT,
        align_up(end) & 0xfff == 0,
{
    assert(start & !0xfffu64 <= start && (start & !0xfffu64) & 0xfffu64 == 0u64) by (bit_vector);
    assert(end <= ((end + 0xfffu64) as u64) & !0xfffu64 && ((end + 0xfffu64) as u64) & !0xfffu64 <= 0x80_0000_0000u64
        && (((end + 0xfffu64) as u64) & !0xfffu64) & 0xfffu64 == 0u64) by (bit_vector)
        requires
            end <= 0x80_0000_0000u64,
    ;
}

/// Within a page: the same page, and the page's frame with `a`'s offset is `a`.
proof fn lemma_in_page(p: u64, a: u64)
    requires
        p & 0xfff == 0,
        p <= a < p + 4096,
        p < VA_LIMIT,
    ensures
        same_page(a, p),
        (p & !0xfffu64) | (a & 0xfffu64) == a,
        a & !0xfffu64 == p,
{
    assert((a >> 30u64) & 0x1ffu64 == (p >> 30u64) & 0x1ffu64 && (a >> 21u64) & 0x1ffu64 == (p
        >> 21u64) & 0x1ffu64 && (a >> 12u64) & 0x1ffu64 == (p >> 12u64) & 0x1ffu64 && (p
        & !0xfffu64) | (a & 0xfffu64) == a && a & !0xfffu64 == p) by (bit_vector)
        requires
            p & 0xfffu64 == 0u64,
            p <= a,
            a < p + 4096u64,
            p < 0x80_0000_0000u64,
    ;
}

/// Below the Sv39 limit, an address before an aligned page lies in another page.
proof fn lemma_before_page(a: u64, p: u64)
    requires
        p & 0xfff == 0,
        a < p,
        p < VA_LIMIT,
    ensures
        !same_page(a, p),
{
    assert(!((a >> 30u64) & 0x1ffu64 == (p >> 30u64) & 0x1ffu64 && (a >> 21u64) & 0x1ffu64 == (p
        >> 21u64) & 0x1ffu64 && (a >> 12u64) & 0x1ffu64 == (p >> 12u64) & 0x1ffu64)) by (bit_vector)
        requires
            p & 0xfffu64 == 0u64,
            a < p,
            p < 0x80_0000_0000u64,
    ;
}

/// Below the Sv39 limit, an address past an aligned page lies in another page.
proof fn lemma_after_page(a: u64, p: u64)
    requires
        p & 0xfff == 0,
        p + 4096 <= a,
        a < VA_LIMIT,
    ensures
        !same_page(a, p),
{
    assert(!((a >> 30u64) & 0x1ffu64 == (p >> 30u64) & 0x1ffu64 && (a >> 21u64) & 0x1ffu64 == (p
        >> 21u64) & 0x1ffu64 && (a >> 12u64) & 0x1ffu64 == (p >> 12u64) & 0x1ffu64)) by (bit_vector)
        requires
            p & 0xfffu64 == 0u64,
            p + 4096u64 <= a,
            a < 0x80_0000_0000u64,
    ;
}

/// Below the Sv39 limit, an address in the same page as aligned `p` keeps
/// its offset under a leaf for `p`'s frame.
proof fn lemma_same_page_identity(a: u64, p: u64)
    requires
        same_page(a, p),
        p & 0xfff == 0,
        a < VA_LIMIT,
        p < VA_LIMIT,
    ensures
        (p & !0xfffu64) | (a & 0xfffu64) == a,
{
    assert((p & !0xfffu64) | (a & 0xfffu64) == a) by (bit_vector)
        requires
            (a >> 30u64) & 0x1ffu64 == (p >> 30u64) & 0x1ffu64,
            (a >> 21u64) & 0x1ffu64 == (p >> 21u64) & 0x1ffu64,
            (a >> 12u64) & 0x1ffu64 == (p >> 12u64) & 0x1ffu64,
            p & 0xfffu64 == 0u64,
            a < 0x80_0000_0000u64,
            p < 0x80_0000_0000u64,
    ;
}

/// Pages that `[start, end)` touches.
pub open spec fn pages_in(start: u64, end: u64) -> int {
    (align_up(end) - align_down(start)) / 4096
}

/// Identity-map every page that `[start, end)` touches, in increasing order,
/// one level-0 leaf `leaf_entry(page, bits)` per page. Each page takes at most
/// two new table frames, and the call succeeds whenever that many are free;
/// it returns false when frames for tables ran out. Pages outside the range
/// keep their translation and their leaf; an empty range changes nothing.
pub fn id_map_range(m: &mut PhysMem, root: u64, start: u64, end: u64, bits: u64) -> (r: bool)
    requires
        valid_root(*old(m), root),
        start <= end,
        end <= VA_LIMIT,
        leaf_bits_ok(bits),
    ensures
        words_kept(*old(m), *final(m), frame_of(*old(m), root)),
        forall|f: int|
            is_branch_table(*old(m), frame_of(*old(m), root), f) ==> is_branch_table(
                *final(m),
                frame_of(*final(m), root),
                f,
            ),
        valid_root(*final(m), root),
        frame_of(*final(m), root) == frame_of(*old(m), root),
        final(m).heap_start == old(m).heap_start,
        final(m).heap_size == old(m).heap_size,
        final(m).head == old(m).head,
        final(m).num_frames() == old(m).num_frames(),
        forall|f: int|
            0 <= f < old(m).num_frames() && old(m).descs@[f] != 0 ==> final(m).descs@[f]
                == old(m).descs@[f],
        r ==> forall|a: u64|
            align_down(start) <= a < align_up(end) ==> translate(
                *final(m),
                frame_of(*final(m), root),
                a,
            ) == Some(a),
        r ==> forall|a: u64|
            align_down(start) <= a < align_up(end) ==> leaf_of(
                *final(m),
                frame_of(*final(m), root),
                a,
            ) == Some(leaf_entry(a & !0xfffu64, bits)),
        !r ==> forall|k: int| !is_free_run(final(m).descs@, k, 1),
        forall|a: u64|
            a < VA_LIMIT && !(align_down(start) <= a < align_up(end)) ==> translate(
                *final(m),
                frame_of(*final(m), root),
                a,
            ) == translate(*old(m), frame_of(*old(m), root), a) && leaf_of(
                *final(m),
                frame_of(*final(m), root),
                a,
            ) == leaf_of(*old(m), frame_of(*old(m), root), a),
        forall|a: u64|
            a < VA_LIMIT && translate(*old(m), frame_of(*old(m), root), a) == Some(a) ==> translate(
                *final(m),
                frame_of(*final(m), root),
                a,
            ) == Some(a),
        forall|base: Seq<u8>|
            tables_exactly(*old(m), frame_of(*old(m), root), base) ==> tables_exactly(
                *final(m),
                frame_of(*final(m), root),
                base,
            ),
        count_taken(final(m).descs@) <= count_taken(old(m).descs@) + 2 * pages_in(start, end),
        count_taken(old(m).descs@) + 2 * pages_in(start, end) <= old(m).num_frames() ==> r,
        align_down(start) == align_up(end) ==> final(m).descs@ == old(m).descs@
            && final(m).words@ == old(m).words@,
{
    proof {
        lemma_bounds(start, end);
    }
    let first = start & !0xfff;
    let stop = (end + 0xfff) & !0xfff;
    let ghost m0 = *m;
    let ghost pages = pages_in(start, end);
    let ghost mut i: int = 0;
    assert(stop - first == pages * 4096) by {
        assert((stop - first) % 4096 == 0) by (bit_vector)
            requires
                first & 0xfffu64 == 0u64,
                stop & 0xfffu64 == 0u64,
                first <= stop,
        ;
    }
    let mut mem_addr = first;
    while mem_addr < stop
        invariant
            words_kept(m0, *m, frame_of(m0, root)),
            forall|f: int|
                is_branch_table(m0, frame_of(m0, root), f) ==> is_branch_table(
                    *m,
                    frame_of(*m, root),
                    f,
                ),
            valid_root(*m, root),
            m0 == *old(m),
            frame_of(*m, root) == frame_of(m0, root),
            m.num_frames() == m0.num_frames(),
            m.heap_start == m0.heap_start,
            m.heap_size == m0.heap_size,
            m.head == m0.head,
            forall|f: int|
                0 <= f < m0.num_frames() && m0.descs@[f] != 0 ==> m.descs@[f] == m0.descs@[f],
            first == align_down(start),
            stop == align_up(end),
            stop - first == pages * 4096,
            first <= mem_addr <= stop,
            mem_addr == first + i * 4096,
            0 <= i <= pages,
            stop <= VA_LIMIT,
            stop & 0xfff == 0,
            mem_addr & 0xfff == 0,
            leaf_bits_ok(bits),
            count_taken(m.descs@) <= count_taken(m0.descs@) + 2 * i,
            count_taken(m0.descs@) + 2 * pages <= m0.num_frames() ==> count_taken(m.descs@) + 2 * (
            pages - i) <= m0.num_frames(),
            i == 0 ==> m.descs@ == m0.descs@ && m.words@ == m0.words@,
            forall|a: u64| first <= a < mem_addr ==> translate(*m, frame_of(*m, root), a) == Some(a),
            forall|a: u64|
                first <= a < mem_addr ==> leaf_of(*m, frame_of(*m, root), a) == Some(
                    leaf_entry(a & !0xfffu64, bits),
                ),
            forall|a: u64|
                a < VA_LIMIT && !(first <= a < mem_addr) ==> translate(*m, frame_of(*m, root), a)
                    == translate(m0, frame_of(m0, root), a) && leaf_of(*m, frame_of(*m, root), a)
                    == leaf_of(m0, frame_of(m0, root), a),
            forall|a: u64|
                a < VA_LIMIT && translate(m0, frame_of(m0, root), a) == Some(a) ==> translate(
                    *m,
                    frame_of(*m, root),
                    a,
                ) == Some(a),
            forall|base: Seq<u8>|
                tables_exactly(m0, frame_of(m0, root), base) ==> tables_exactly(
                    *m,
                    frame_of(*m, root),
                    base,
                ),
        decreases stop - mem_addr,
    {
        let ghost m1 = *m;
        proof {
            assert(i < pages) by (nonlinear_arith)
                requires
                    mem_addr == first + i * 4096,
                    mem_addr < stop,
                    stop - first == pages * 4096,
            ;
        }
        if !crate::paging::map(m, root, mem_addr, mem_addr, bits, 0) {
            proof {
                lemma_words_kept_trans(m0, m1, *m, frame_of(m0, root));
            }
            return false;
        }
        proof {
            lemma_words_kept_trans(m0, m1, *m, frame_of(m0, root));
            assert forall|a: u64|
                a < VA_LIMIT && translate(m0, frame_of(m0, root), a) == Some(a) implies translate(
                *m,
                frame_of(*m, root),
                a,
            ) == Some(a) by {
                assert(translate(m1, frame_of(m1, root), a) == Some(a));
                if same_page(a, mem_addr) {
                    lemma_same_page_identity(a, mem_addr);
                }
            }
            assert forall|a: u64| first <= a < mem_addr + 4096 implies translate(
                *m,
                frame_of(*m, root),
                a,
            ) == Some(a) && leaf_of(*m, frame_of(*m, root), a) == Some(
                leaf_entry(a & !0xfffu64, bits),
            ) by {
                if a < mem_addr {
                    lemma_before_page(a, mem_addr);
                } else {
                    lemma_in_page(mem_addr, a);
                }
            }
            assert forall|a: u64| a < VA_LIMIT && !(first <= a < mem_addr + 4096) implies translate(
                *m,
                frame_of(*m, root),
                a,
            ) == translate(m0, frame_of(m0, root), a) && leaf_of(*m, frame_of(*m, root), a)
                == leaf_of(m0, frame_of(m0, root), a) by {
                if a < mem_addr {
                    lemma_before_page(a, mem_addr);
                } else {
                    lemma_after_page(a, mem_addr);
                }
            }
            assert(mem_addr + 4096 <= stop && ((mem_addr + 4096u64) as u64) & 0xfffu64 == 0u64) by (bit_vector)
                requires
                    mem_addr < stop,
                    mem_addr & 0xfffu64 == 0u64,
                    stop & 0xfffu64 == 0u64,
                    stop <= 0x80_0000_0000u64,
            ;
            i = i + 1;
        }
        mem_addr = mem_addr + 4096;
    }
    true
}


/// Every address of the pages that `[s, e)` touches translates to itself.
pub open spec fn identity_mapped(m: PhysMem, root: u64, s: u64, e: u64) -> bool {
    forall|a: u64| align_down(s) <= a < align_up(e) ==> translate(m, frame_of(m, root), a) == Some(a)
}

/// A region to identity-map: start, end and leaf permission bits.
pub type Region = (u64, u64, u64);

/// A region below the Sv39 limit with leaf permission bits.
pub open spec fn region_ok(rg: Region) -> bool {
    rg.0 <= rg.1 <= VA_LIMIT && leaf_bits_ok(rg.2)
}

pub open spec fn regions_ok(rs: Seq<Region>) -> bool {
    forall|i: int| 0 <= i < rs.len() ==> #[trigger] region_ok(rs[i])
}

/// Region `rg` touches the page of `a`.
pub open spec fn covers(rg: Region, a: u64) -> bool {
    align_down(rg.0) <= a < align_up(rg.1)
}

/// Some region of `rs` touches the page of `a`.
pub open spec fn covered(rs: Seq<Region>, a: u64) -> bool
    decreases rs.len(),
{
    if rs.len() == 0 {
        false
    } else {
        covers(rs.last(), a) || covered(rs.drop_last(), a)
    }
}

/// The permission bits of the last region of `rs` that touches the page of `a`.
pub open spec fn cover_bits(rs: Seq<Region>, a: u64) -> u64
    decreases rs.len(),
{
    if rs.len() == 0 {
        0
    } else if covers(rs.last(), a) {
        rs.last().2
    } else {
        cover_bits(rs.drop_last(), a)
    }
}

/// Identity-map each region in turn; where regions overlap, the later one's
/// permission bits stand. Returns false when frames for tables
/// ran out.
pub fn id_map_regions(m: &mut PhysMem, root: u64, rs: &Vec<Region>) -> (r: bool)
    requires
        valid_root(*old(m), root),
        regions_ok(rs@),
    ensures
        words_kept(*old(m), *final(m), frame_of(*old(m), root)),
        forall|f: int|
            is_branch_table(*old(m), frame_of(*old(m), root), f) ==> is_branch_table(
                *final(m),
                frame_of(*final(m), root),
                f,
            ),
        valid_root(*final(m), root),
        frame_of(*final(m), root) == frame_of(*old(m), root),
        final(m).heap_start == old(m).heap_start,
        final(m).heap_size == old(m).heap_size,
        final(m).head == old(m).head,
        final(m).num_frames() == old(m).num_frames(),
        forall|f: int|
            0 <= f < old(m).num_frames() && old(m).descs@[f] != 0 ==> final(m).descs@[f]
                == old(m).descs@[f],
        r ==> forall|i: int|
            0 <= i < rs@.len() ==> identity_mapped(*final(m), root, rs@[i].0, #[trigger] rs@[i].1),
        r ==> forall|a: u64|
            covered(rs@, a) ==> leaf_of(*final(m), frame_of(*final(m), root), a) == Some(
                leaf_entry(a & !0xfffu64, cover_bits(rs@, a)),
            ),
        r ==> forall|a: u64|
            a < VA_LIMIT && !covered(rs@, a) ==> leaf_of(*final(m), frame_of(*final(m), root), a)
                == leaf_of(*old(m), frame_of(*old(m), root), a),
        !r ==> forall|k: int| !is_free_run(final(m).descs@, k, 1),
        forall|base: Seq<u8>|
            tables_exactly(*old(m), frame_of(*old(m), root), base) ==> tables_exactly(
                *final(m),
                frame_of(*final(m), root),
                base,
            ),
        forall|a: u64|
            a < VA_LIMIT && translate(*old(m), frame_of(*old(m), root), a) == Some(a) ==> translate(
                *final(m),
                frame_of(*final(m), root),
                a,
            ) == Some(a),
{
    let ghost m0 = *m;
    let mut i: usize = 0;
    while i < rs.len()
        invariant
            words_kept(m0, *m, frame_of(m0, root)),
            forall|f: int|
                is_branch_table(m0, frame_of(m0, root), f) ==> is_branch_table(
                    *m,
                    frame_of(*m, root),
                    f,
                ),
            m0 == *old(m),
            regions_ok(rs@),
            0 <= i <= rs@.len(),
            valid_root(*m, root),
            frame_of(*m, root) == frame_of(m0, root),
            m.heap_start == m0.heap_start,
            m.heap_size == m0.heap_size,
            m.head == m0.head,
            m.num_frames() == m0.num_frames(),
            forall|f: int|
                0 <= f < m0.num_frames() && m0.descs@[f] != 0 ==> m.descs@[f] == m0.descs@[f],
            forall|j: int|
                0 <= j < i ==> identity_mapped(*m, root, rs@[j].0, #[trigger] rs@[j].1),
            forall|base: Seq<u8>|
                tables_exactly(m0, frame_of(m0, root), base) ==> tables_exactly(
                    *m,
                    frame_of(*m, root),
                    base,
                ),
            forall|a: u64|
                covered(rs@.take(i as int), a) ==> leaf_of(*m, frame_of(*m, root), a) == Some(
                    leaf_entry(a & !0xfffu64, cover_bits(rs@.take(i as int), a)),
                ),
            forall|a: u64|
                a < VA_LIMIT && !covered(rs@.take(i as int), a) ==> leaf_of(*m, frame_of(*m, root), a)
                    == leaf_of(m0, frame_of(m0, root), a),
            forall|a: u64|
                a < VA_LIMIT && translate(m0, frame_of(m0, root), a) == Some(a) ==> translate(
                    *m,
                    frame_of(*m, root),
                    a,
                ) == Some(a),
        decreases rs@.len() - i,
    {
        let (s, e, bits) = rs[i];
        assert(region_ok(rs@[i as int]));
        let ghost m1 = *m;
        if !id_map_range(m, root, s, e, bits) {
            proof {
                lemma_words_kept_trans(m0, m1, *m, frame_of(m0, root));
            }
            return false;
        }
        proof {
            lemma_words_kept_trans(m0, m1, *m, frame_of(m0, root));
            let t0 = rs@.take(i as int);
            let t1 = rs@.take(i + 1);
            assert(t1.drop_last() =~= t0);
            assert(t1.last() == rs@[i as int]);
            lemma_bounds(s, e);
            assert forall|a: u64| covered(t1, a) implies leaf_of(*m, frame_of(*m, root), a) == Some(
                leaf_entry(a & !0xfffu64, cover_bits(t1, a)),
            ) by {
                if !covers(rs@[i as int], a) {
                    assert forall|j: int| 0 <= j < t0.len() implies #[trigger] region_ok(t0[j]) by {
                        assert(t0[j] == rs@[j]);
                        assert(region_ok(rs@[j]));
                    }
                    lemma_covered_below(t0, a);
                }
            }
            assert forall|a: u64| a < VA_LIMIT && !covered(t1, a) implies leaf_of(
                *m,
                frame_of(*m, root),
                a,
            ) == leaf_of(m0, frame_of(m0, root), a) by {}
            assert forall|j: int| 0 <= j < i + 1 implies identity_mapped(
                *m,
                root,
                rs@[j].0,
                #[trigger] rs@[j].1,
            ) by {
                if j < i {
                    let (sj, ej) = (rs@[j].0, rs@[j].1);
                    assert(identity_mapped(m1, root, sj, ej));
                    assert(region_ok(rs@[j]));
                    lemma_bounds(sj, ej);
                    assert forall|a: u64| align_down(sj) <= a < align_up(ej) implies translate(
                        *m,
                        frame_of(*m, root),
                        a,
                    ) == Some(a) by {
                        assert(translate(m1, frame_of(m1, root), a) == Some(a));
                    }
                }
            }
        }
        i = i + 1;
    }
    assert(rs@.take(rs@.len() as int) =~= rs@);
    true
}

/// Every address a region touches lies below the Sv39 limit.
proof fn lemma_covered_below(rs: Seq<Region>, a: u64)
    requires
        regions_ok(rs),
        covered(rs, a),
    ensures
        a < VA_LIMIT,
    decreases rs.len(),
{
    let l = rs.last();
    assert(region_ok(rs[rs.len() - 1]));
    lemma_bounds(l.0, l.1);
    if !covers(l, a) {
        let d = rs.drop_last();
        assert forall|i: int| 0 <= i < d.len() implies #[trigger] region_ok(d[i]) by {
            assert(d[i] == rs[i]);
            assert(region_ok(rs[i]));
        }
        lemma_covered_below(d, a);
    }
}

/// Where the kernel image's sections and hart 0's trap frame lie.
pub struct KernelLayout {
    pub text_start: u64,
    pub text_end: u64,
    pub rodata_start: u64,
    pub rodata_end: u64,
    pub data_start: u64,
    pub data_end: u64,
    pub bss_start: u64,
    pub bss_end: u64,
    pub stack_start: u64,
    pub stack_end: u64,
    pub trap_frame: u64,
    pub trap_frame_size: u64,
}

pub open spec fn layout_ok(l: KernelLayout) -> bool {
    &&& l.text_start <= l.text_end <= VA_LIMIT
    &&& l.rodata_start <= l.rodata_end <= VA_LIMIT
    &&& l.data_start <= l.data_end <= VA_LIMIT
    &&& l.bss_start <= l.bss_end <= VA_LIMIT
    &&& l.stack_start <= l.stack_end <= VA_LIMIT
    &&& l.trap_frame + l.trap_frame_size <= VA_LIMIT
}

/// UART0's registers.
pub const UART_BASE: u64 = 0x1000_0000;

/// The regions that bring-up identity-maps before the trap stack exists:
/// the allocatable frames and the whole managed region read-write, text and
/// read-only data read-execute, data, bss and the kernel stack read-write,
/// then the UART page, the CLINT and the PLIC's two register blocks.
pub open spec fn image_regions(m: PhysMem, l: KernelLayout) -> Seq<Region> {
    seq![
        (m.head, m.end() as u64, READ_WRITE),
        (m.heap_start, (m.heap_start + m.heap_size) as u64, READ_WRITE),
        (l.text_start, l.text_end, READ_EXECUTE),
        (l.rodata_start, l.rodata_end, READ_EXECUTE),
        (l.data_start, l.data_end, READ_WRITE),
        (l.bss_start, l.bss_end, READ_WRITE),
        (l.stack_start, l.stack_end, READ_WRITE),
        (UART_BASE, 0x1000_0100u64, READ_WRITE),
        (0x0200_0000u64, 0x0200_ffffu64, READ_WRITE),
        (0x0c00_0000u64, 0x0c00_2001u64, READ_WRITE),
        (0x0c20_0000u64, 0x0c20_8001u64, READ_WRITE),
    ]
}

/// The trap stack page below `top` and hart 0's trap frame, both read-write.
pub open spec fn trap_regions(l: KernelLayout, top: u64) -> Seq<Region> {
    seq![
        ((top - 4096) as u64, top, READ_WRITE),
        (l.trap_frame, (l.trap_frame + l.trap_frame_size) as u64, READ_WRITE),
    ]
}

/// The state that bring-up leaves: memory, the kernel heap, the root table,
/// the top of hart 0's trap stack and the `satp` value that turns on Sv39.
pub struct Kernel {
    pub mem: PhysMem,
    pub heap: KernelHeap,
    pub root: u64,
    pub trap_stack: u64,
    pub satp: u64,
}

/// An identity range stays mapped across a change that keeps every
/// identity translation below the Sv39 limit.
proof fn lemma_identity_kept(m1: PhysMem, m2: PhysMem, root: u64, s: u64, e: u64)
    requires
        identity_mapped(m1, root, s, e),
        s <= e <= VA_LIMIT,
        forall|a: u64|
            a < VA_LIMIT && translate(m1, frame_of(m1, root), a) == Some(a) ==> translate(
                m2,
                frame_of(m2, root),
                a,
            ) == Some(a),
    ensures
        identity_mapped(m2, root, s, e),
{
    lemma_bounds(s, e);
    assert forall|a: u64| align_down(s) <= a < align_up(e) implies translate(
        m2,
        frame_of(m2, root),
        a,
    ) == Some(a) by {
        assert(translate(m1, frame_of(m1, root), a) == Some(a));
    }
}

/// Identity-map the kernel image's regions, `image_regions`.
fn map_image(m: &mut PhysMem, root: u64, layout: &KernelLayout) -> (r: bool)
    requires
        valid_root(*old(m), root),
        layout_ok(*layout),
        old(m).heap_start + old(m).heap_size <= VA_LIMIT,
    ensures
        valid_root(*final(m), root),
        final(m).heap_start == old(m).heap_start,
        final(m).heap_size == old(m).heap_size,
        final(m).head == old(m).head,
        final(m).num_frames() == old(m).num_frames(),
        !r ==> forall|k: int| !is_free_run(final(m).descs@, k, 1),
        r ==> forall|i: int|
            0 <= i < 11 ==> identity_mapped(
                *final(m),
                root,
                image_regions(*final(m), *layout)[i].0,
                #[trigger] image_regions(*final(m), *layout)[i].1,
            ),
        r ==> forall|a: u64|
            covered(image_regions(*final(m), *layout), a) ==> leaf_of(
                *final(m),
                frame_of(*final(m), root),
                a,
            ) == Some(leaf_entry(a & !0xfffu64, cover_bits(image_regions(*final(m), *layout), a))),
        regions_ok(image_regions(*final(m), *layout)),
        frame_of(*final(m), root) == frame_of(*old(m), root),
        forall|base: Seq<u8>|
            tables_exactly(*old(m), frame_of(*old(m), root), base) ==> tables_exactly(
                *final(m),
                frame_of(*final(m), root),
                base,
            ),
{
    let end = m.get_head() + (m.get_num_allocations() as u64) * 4096;
    let mut rs: Vec<Region> = Vec::new();
    rs.push((m.get_head(), end, READ_WRITE));
    rs.push((m.heap_start, m.heap_start + m.heap_size, READ_WRITE));
    rs.push((layout.text_start, layout.text_end, READ_EXECUTE));
    rs.push((layout.rodata_start, layout.rodata_end, READ_EXECUTE));
    rs.push((layout.data_start, layout.data_end, READ_WRITE));
    rs.push((layout.bss_start, layout.bss_end, READ_WRITE));
    rs.push((layout.stack_start, layout.stack_end, READ_WRITE));
    rs.push((UART_BASE, 0x1000_0100, READ_WRITE));
    rs.push((0x0200_0000, 0x0200_ffff, READ_WRITE));
    rs.push((0x0c00_0000, 0x0c00_2001, READ_WRITE));
    rs.push((0x0c20_0000, 0x0c20_8001, READ_WRITE));
    assert(rs@ =~= image_regions(*m, *layout));
    assert(READ_WRITE & 0xe != 0 && READ_EXECUTE & 0xe != 0) by (bit_vector);
    assert forall|i: int| 0 <= i < rs@.len() implies #[trigger] region_ok(rs@[i]) by {}
    assert(regions_ok(rs@));
    let r = id_map_regions(m, root, &rs);
    assert(rs@ =~= image_regions(*m, *layout));
    r
}

/// Give hart 0 a zeroed trap stack and identity-map it and the trap frame.
/// Returns the stack's top, or 0 when frames ran out.
fn map_trap(m: &mut PhysMem, root: u64, layout: &KernelLayout) -> (r: u64)
    requires
        valid_root(*old(m), root),
        layout_ok(*layout),
        old(m).heap_start + old(m).heap_size <= VA_LIMIT,
    ensures
        valid_root(*final(m), root),
        final(m).heap_start == old(m).heap_start,
        final(m).heap_size == old(m).heap_size,
        final(m).head == old(m).head,
        final(m).num_frames() == old(m).num_frames(),
        forall|a: u64|
            a < VA_LIMIT && translate(*old(m), frame_of(*old(m), root), a) == Some(a) ==> translate(
                *final(m),
                frame_of(*final(m), root),
                a,
            ) == Some(a),
        r == 0 ==> forall|k: int| !is_free_run(final(m).descs@, k, 1),
        r != 0 ==> forall|a: u64|
            covered(trap_regions(*layout, r), a) ==> leaf_of(*final(m), frame_of(*final(m), root), a)
                == Some(leaf_entry(a & !0xfffu64, READ_WRITE)),
        r != 0 ==> forall|a: u64|
            a < VA_LIMIT && !covered(trap_regions(*layout, r), a) ==> leaf_of(
                *final(m),
                frame_of(*final(m), root),
                a,
            ) == leaf_of(*old(m), frame_of(*old(m), root), a),
        r != 0 ==> {
            let s = ((r - 4096 - final(m).head) / 4096) as int;
            &&& 0 <= s < final(m).num_frames()
            &&& r - 4096 == frame_addr(final(m).head as int, s)
            &&& final(m).descs@[s] == crate::page::TAKEN_LAST
            &&& forall|base: Seq<u8>|
                tables_exactly(*old(m), frame_of(*old(m), root), base) ==> tables_exactly(
                    *final(m),
                    frame_of(*final(m), root),
                    mark_run(base, s, 1),
                )
            &&& forall|base: Seq<u8>|
                tables_exactly(*old(m), frame_of(*old(m), root), base) ==> forall|j: int|
                    0 <= j < 512 ==> crate::paging::entry_at(final(m).words@, s, j) == 0
        },
        frame_of(*final(m), root) == frame_of(*old(m), root),
        r != 0 ==> r >= 4096 && identity_mapped(*final(m), root, (r - 4096) as u64, r)
            && identity_mapped(
            *final(m),
            root,
            layout.trap_frame,
            (layout.trap_frame + layout.trap_frame_size) as u64,
        ),
{
    let stack = crate::paging::zalloc_keep(m, root, 1);
    if stack == 0 {
        return 0;
    }
    let ghost i = choose|i: int|
        crate::page::is_first_fit(old(m).descs@, i, 1) && stack == crate::page::frame_addr(
            old(m).head as int,
            i,
        ) && m.descs@ == crate::page::mark_run(old(m).descs@, i, 1) && m.words@
            == crate::page::zero_words(old(m).words@, i * 512, 512) && forall|base: Seq<u8>|
            tables_exactly(*old(m), frame_of(*old(m), root), base) ==> tables_exactly(
                *m,
                frame_of(*m, root),
                mark_run(base, i, 1),
            );
    assert(stack + 4096 <= m.end()) by (nonlinear_arith)
        requires
            stack == m.head + i * 4096,
            0 <= i < m.num_frames(),
            m.end() == m.head + m.num_frames() * 4096,
    {}
    let mut rest: Vec<Region> = Vec::new();
    rest.push((stack, stack + 4096, READ_WRITE));
    rest.push((layout.trap_frame, layout.trap_frame + layout.trap_frame_size, READ_WRITE));
    assert(READ_WRITE & 0xe != 0) by (bit_vector);
    assert forall|j: int| 0 <= j < rest@.len() implies #[trigger] region_ok(rest@[j]) by {}
    assert(regions_ok(rest@));
    let ghost m2 = *m;
    proof {
        crate::paging::lemma_frame_index(m2.head as int, i);
    }
    if !id_map_regions(m, root, &rest) {
        return 0;
    }
    assert(rest@[0].1 == stack + 4096 && rest@[1].1 == layout.trap_frame + layout.trap_frame_size);
    assert(rest@ =~= trap_regions(*layout, (stack + 4096) as u64));
    proof {
        reveal_with_fuel(cover_bits, 3);
        reveal_with_fuel(covered, 3);
        let rf = frame_of(*old(m), root);
        assert forall|base: Seq<u8>| tables_exactly(*old(m), rf, base) implies forall|j: int|
            0 <= j < 512 ==> crate::paging::entry_at(m.words@, i, j) == 0 by {
            assert(tables_exactly(m2, rf, mark_run(base, i, 1)));
            assert(tables_exactly(*m, rf, mark_run(base, i, 1)));
            assert(mark_run(base, i, 1)[i] == crate::page::TAKEN_LAST);
            assert(!is_branch_table(*m, rf, i));
            assert(old(m).descs@[rf] != 0);
            assert(old(m).descs@[i] == 0);
            assert forall|j: int| 0 <= j < 512 implies crate::paging::entry_at(m.words@, i, j) == 0 by {
                crate::paging::lemma_word_in_range(i, j, m2.num_frames() as int);
                assert(crate::paging::entry_at(m.words@, i, j) == crate::paging::entry_at(
                    m2.words@,
                    i,
                    j,
                ));
            }
        }
    }
    stack + 4096
}

/// The descriptors that bring-up leaves besides the page tables: the heap run
/// first, the root table right after it, and the trap stack frame `stack`.
pub open spec fn boot_descs(n: nat, stack: int) -> Seq<u8> {
    mark_run(
        mark_run(mark_run(Seq::new(n, |j: int| 0u8), 0, HEAP_PAGES as int), HEAP_PAGES as int, 1),
        stack,
        1,
    )
}

/// Frames that `PhysMem::new` makes allocatable in a region of `heap_size` bytes.
pub open spec fn managed_frames(heap_size: u64) -> int {
    heap_size / 4096 - crate::page::reserved_frames((heap_size / 4096) as nat)
}

/// First allocatable frame of a region at `heap_start` of `heap_size` bytes.
pub open spec fn managed_head(heap_start: u64, heap_size: u64) -> int {
    heap_start + crate::page::reserved_frames((heap_size / 4096) as nat) * 4096
}

/// No free run of `n` frames means no free run of more.
proof fn lemma_no_longer_run(s: Seq<u8>, n: int)
    requires
        n >= 1,
        forall|k: int| !is_free_run(s, k, 1),
    ensures
        forall|k: int| !is_free_run(s, k, n),
{
    assert forall|k: int| !is_free_run(s, k, n) by {
        if is_free_run(s, k, n) {
            assert(is_free_run(s, k, 1));
        }
    }
}

/// Bring-up: manage `[heap_start, heap_start + heap_size)` as frames, take the
/// kernel heap, build the kernel's identity map, give hart 0 a trap stack and
/// compute `satp`. When frames run out on the way, the memory comes back as
/// `Err`, with no free run of `HEAP_PAGES` frames left in it.
#[verifier::rlimit(80)]
pub fn kinit(heap_start: u64, heap_size: u64, layout: &KernelLayout) -> (r: Result<Kernel, PhysMem>)
    requires
        heap_start > 0,
        heap_start % 4096 == 0,
        heap_start + heap_size <= VA_LIMIT,
        heap_size <= usize::MAX,
        layout_ok(*layout),
    ensures
        r matches Ok(k) ==> {
            &&& valid_root(k.mem, k.root)
            &&& k.mem.heap_start == heap_start
            &&& k.mem.heap_size == heap_size
            &&& k.mem.num_frames() == managed_frames(heap_size)
            &&& k.mem.head == managed_head(heap_start, heap_size)
            &&& k.heap.wf()
            &&& k.heap.chunks@ == seq![(0int, HEAP_PAGES * 512, false)]
            &&& forall|i: int|
                0 <= i < 11 ==> identity_mapped(
                    k.mem,
                    k.root,
                    image_regions(k.mem, *layout)[i].0,
                    #[trigger] image_regions(k.mem, *layout)[i].1,
                )
            &&& identity_mapped(k.mem, k.root, (k.trap_stack - 4096) as u64, k.trap_stack)
            &&& identity_mapped(
                k.mem,
                k.root,
                layout.trap_frame,
                (layout.trap_frame + layout.trap_frame_size) as u64,
            )
            &&& k.satp == (8u64 << 60u64) | (0u64 << 44u64) | (k.root >> 12u64)
            &&& forall|a: u64|
                covered(trap_regions(*layout, k.trap_stack), a) ==> leaf_of(
                    k.mem,
                    frame_of(k.mem, k.root),
                    a,
                ) == Some(leaf_entry(a & !0xfffu64, READ_WRITE))
            &&& forall|a: u64|
                covered(image_regions(k.mem, *layout), a) && !covered(
                    trap_regions(*layout, k.trap_stack),
                    a,
                ) ==> leaf_of(k.mem, frame_of(k.mem, k.root), a) == Some(
                    leaf_entry(a & !0xfffu64, cover_bits(image_regions(k.mem, *layout), a)),
                )
            &&& {
                let s = ((k.trap_stack - 4096 - k.mem.head) / 4096) as int;
                &&& 0 <= s < k.mem.num_frames()
                &&& k.trap_stack - 4096 == frame_addr(k.mem.head as int, s)
                &&& k.mem.descs@[s] == crate::page::TAKEN_LAST
                &&& tables_exactly(k.mem, HEAP_PAGES as int, boot_descs(k.mem.num_frames(), s))
                &&& forall|j: int| 0 <= j < 512 ==> crate::paging::entry_at(k.mem.words@, s, j) == 0
            }
            &&& frame_of(k.mem, k.root) == HEAP_PAGES
            &&& k.heap.base == k.mem.head
        },
        r matches Err(m) ==> {
            &&& m.wf()
            &&& m.heap_start == heap_start
            &&& m.heap_size == heap_size
            &&& m.num_frames() == managed_frames(heap_size)
            &&& m.head == managed_head(heap_start, heap_size)
            &&& forall|k: int| !is_free_run(m.descs@, k, HEAP_PAGES as int)
        },
{
    let mut mem = PhysMem::new(heap_start, heap_size);
    let ghost zeros = Seq::new(mem.num_frames(), |j: int| 0u8);
    assert(mem.descs@ =~= zeros);
    let ghost m0 = mem;
    let heap = match KernelHeap::init(&mut mem, HEAP_PAGES) {
        Some(h) => h,
        None => {
            return Err(mem);
        },
    };
    let ghost hi = choose|i: int|
        crate::page::is_first_fit(m0.descs@, i, HEAP_PAGES as int) && heap.base == frame_addr(
            m0.head as int,
            i,
        ) && mem.descs@ == mark_run(m0.descs@, i, HEAP_PAGES as int);
    proof {
        if hi > 0 {
            assert(crate::page::is_free_run(zeros, 0, HEAP_PAGES as int));
        }
    }
    let ghost d1 = mem.descs@;
    let root = new_root(&mut mem);
    if root == 0 {
        proof {
            lemma_no_longer_run(mem.descs@, HEAP_PAGES as int);
        }
        return Err(mem);
    }
    proof {
        let j = choose|j: int|
            crate::page::is_first_fit(d1, j, 1) && root == frame_addr(mem.head as int, j)
                && mem.descs@ == mark_run(d1, j, 1) && frame_of(mem, root) == j;
        assert(d1[j] == 0);
        assert(j >= HEAP_PAGES);
        if j > HEAP_PAGES {
            assert(crate::page::is_free_run(d1, HEAP_PAGES as int, 1));
        }
        assert(mem.descs@ =~= mark_run(mark_run(zeros, 0, HEAP_PAGES as int), HEAP_PAGES as int, 1));
    }
    let ghost d2 = mem.descs@;
    if !map_image(&mut mem, root, layout) {
        proof {
            lemma_no_longer_run(mem.descs@, HEAP_PAGES as int);
        }
        return Err(mem);
    }
    let ghost m1 = mem;
    let stack = map_trap(&mut mem, root, layout);
    if stack == 0 {
        proof {
            lemma_no_longer_run(mem.descs@, HEAP_PAGES as int);
        }
        return Err(mem);
    }
    proof {
        let st = ((stack - 4096 - mem.head) / 4096) as int;
        assert(tables_exactly(mem, HEAP_PAGES as int, mark_run(d2, st, 1)));
        assert(mark_run(d2, st, 1) == boot_descs(mem.num_frames(), st));
        assert forall|i: int| 0 <= i < 11 implies identity_mapped(
            mem,
            root,
            image_regions(mem, *layout)[i].0,
            #[trigger] image_regions(mem, *layout)[i].1,
        ) by {
            assert(image_regions(mem, *layout) == image_regions(m1, *layout));
            let rg = image_regions(m1, *layout)[i];
            assert(identity_mapped(m1, root, rg.0, rg.1));
            lemma_identity_kept(m1, mem, root, rg.0, rg.1);
        }
        assert(image_regions(mem, *layout) == image_regions(m1, *layout));
        assert forall|a: u64|
            covered(image_regions(mem, *layout), a) && !covered(trap_regions(*layout, stack), a)
            implies leaf_of(mem, frame_of(mem, root), a) == Some(
            leaf_entry(a & !0xfffu64, cover_bits(image_regions(mem, *layout), a)),
        ) by {
            lemma_covered_below(image_regions(m1, *layout), a);
        }
    }
    let satp = build_satp(SatpMode::Sv39, 0, root);
    Ok(Kernel { mem, heap, root, trap_stack: stack, satp })
}
} // verus!
