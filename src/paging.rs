use vstd::prelude::*;
use crate::page::{PhysMem, count_taken, frame_addr, is_first_fit, is_free_run, mark_run, WORDS_PER_PAGE, PHYS_LIMIT};

verus! {

/// Entry bit: the entry is valid.
pub const VALID: u64 = 1;

/// Entry bits: read, write, execute.
pub const READ: u64 = 2;

pub const WRITE: u64 = 4;

pub const EXECUTE: u64 = 8;

/// Entry bit: accessible from user mode.
pub const USER: u64 = 16;

/// Entry bit: global mapping.
pub const GLOBAL: u64 = 32;

/// `VALID | READ | WRITE`.
pub const READ_WRITE: u64 = 7;

/// `VALID | READ | EXECUTE`.
pub const READ_EXECUTE: u64 = 11;

/// `VALID | READ | WRITE | EXECUTE`.
pub const READ_WRITE_EXECUTE: u64 = 15;

/// `VALID | USER | READ | WRITE`.
pub const USER_READ_WRITE: u64 = 23;

pub open spec fn pte_valid(e: u64) -> bool {
    e & 1 == 1
}

/// Some of `R`, `W`, `X` is set: a leaf, when valid.
pub open spec fn pte_leaf(e: u64) -> bool {
    e & 0xe != 0
}

/// The physical address that bits 10..53 of an entry name.
pub open spec fn pte_addr(e: u64) -> u64 {
    ((e >> 10u64) & 0xfff_ffff_ffffu64) << 12u64
}

/// A branch entry naming the page-aligned table at `addr`.
pub open spec fn branch_entry(addr: u64) -> u64 {
    (addr >> 2u64) | 1u64
}

/// A leaf entry for `paddr` with permission `bits`, laid out as PPN[2], PPN[1], PPN[0].
pub open spec fn leaf_entry(paddr: u64, bits: u64) -> u64 {
    ((((paddr >> 30u64) & 0x3ff_ffffu64) << 28u64) | (((paddr >> 21u64) & 0x1ffu64) << 19u64) | (
    ((paddr >> 12u64) & 0x1ffu64) << 10u64)) | bits | 1u64
}

pub open spec fn vpn2(va: u64) -> u64 {
    (va >> 30u64) & 0x1ffu64
}

pub open spec fn vpn1(va: u64) -> u64 {
    (va >> 21u64) & 0x1ffu64
}

pub open spec fn vpn0(va: u64) -> u64 {
    (va >> 12u64) & 0x1ffu64
}

/// `va` and `vb` lie in the same 4 KiB page of the Sv39 space.
pub open spec fn same_page(va: u64, vb: u64) -> bool {
    vpn2(va) == vpn2(vb) && vpn1(va) == vpn1(vb) && vpn0(va) == vpn0(vb)
}

/// Entry `j` of the table in frame `f`.
pub open spec fn entry_at(w: Seq<u64>, f: int, j: int) -> u64 {
    w[f * 512 + j]
}

/// The frame index that a branch entry names.
pub open spec fn child(head: u64, e: u64) -> int {
    (pte_addr(e) - head) / 4096
}

/// The translation of `va` under the tree rooted at frame `root`, as the
/// hardware walk finds it: absent at an invalid entry, composed at a leaf.
pub open spec fn translate(m: PhysMem, root: int, va: u64) -> Option<u64> {
    let w = m.words@;
    let e2 = entry_at(w, root, vpn2(va) as int);
    if !pte_valid(e2) {
        None
    } else if pte_leaf(e2) {
        Some((pte_addr(e2) & !0x3fff_ffffu64) | (va & 0x3fff_ffffu64))
    } else {
        let e1 = entry_at(w, child(m.head, e2), vpn1(va) as int);
        if !pte_valid(e1) {
            None
        } else if pte_leaf(e1) {
            Some((pte_addr(e1) & !0x1f_ffffu64) | (va & 0x1f_ffffu64))
        } else {
            let e0 = entry_at(w, child(m.head, e1), vpn0(va) as int);
            if pte_valid(e0) && pte_leaf(e0) {
                Some(pte_addr(e0) | (va & 0xfffu64))
            } else {
                None
            }
        }
    }
}

/// A valid branch entry of the table in `parent` names another table frame,
/// in range and taken.
pub open spec fn branch_ok(m: PhysMem, parent: int, e: u64) -> bool {
    let c = child(m.head, e);
    &&& !pte_leaf(e)
    &&& pte_addr(e) == frame_addr(m.head as int, c)
    &&& 0 <= c < m.num_frames()
    &&& m.descs@[c] != 0
    &&& c != parent
}

/// Frame `f` is in range and taken.
pub open spec fn is_table_frame(m: PhysMem, f: int) -> bool {
    0 <= f < m.num_frames() && m.descs@[f] != 0
}

/// Entry `j2` of the root names a level-1 table.
pub open spec fn is_l1(m: PhysMem, root: int, j2: int) -> bool {
    0 <= j2 < 512 && pte_valid(entry_at(m.words@, root, j2))
}

/// The level-1 table that entry `j2` of the root names.
pub open spec fn l1(m: PhysMem, root: int, j2: int) -> int {
    child(m.head, entry_at(m.words@, root, j2))
}

/// Entry `j1` of level-1 table `j2` names a level-0 table.
pub open spec fn is_l0(m: PhysMem, root: int, j2: int, j1: int) -> bool {
    is_l1(m, root, j2) && 0 <= j1 < 512 && pte_valid(entry_at(m.words@, l1(m, root, j2), j1))
}

/// The level-0 table that entry `j1` of level-1 table `j2` names.
pub open spec fn l0(m: PhysMem, root: int, j2: int, j1: int) -> int {
    child(m.head, entry_at(m.words@, l1(m, root, j2), j1))
}

/// The tree rooted at `root` is well formed: every valid entry at levels 2
/// and 1 is a branch to a taken frame, leaves stand at level 0, and no two
/// entries share a table.
pub open spec fn pt_wf(m: PhysMem, root: int) -> bool {
    &&& m.wf()
    &&& is_table_frame(m, root)
    &&& forall|j2: int| #[trigger]
        is_l1(m, root, j2) ==> branch_ok(m, root, entry_at(m.words@, root, j2))
    &&& forall|j2: int, j1: int| #[trigger]
        is_l0(m, root, j2, j1) ==> branch_ok(
            m,
            l1(m, root, j2),
            entry_at(m.words@, l1(m, root, j2), j1),
        ) && l0(m, root, j2, j1) != root
    &&& forall|j2: int, k2: int|
        #[trigger] is_l1(m, root, j2) && #[trigger] is_l1(m, root, k2) && j2 != k2 ==> l1(
            m,
            root,
            j2,
        ) != l1(m, root, k2)
    &&& forall|j2: int, j1: int, k2: int|
        #[trigger] is_l0(m, root, j2, j1) && #[trigger] is_l1(m, root, k2) ==> l0(m, root, j2, j1)
            != l1(m, root, k2)
    &&& forall|j2: int, j1: int, k2: int, k1: int|
        #[trigger] is_l0(m, root, j2, j1) && #[trigger] is_l0(m, root, k2, k1) && (j2 != k2 || j1
            != k1) ==> l0(m, root, j2, j1) != l0(m, root, k2, k1)
}

/// A leaf installed for page-aligned `va` and `pa` translates every byte of
/// the page: `va + d` goes to `pa + d` for each offset `d` below 4096, as the
/// `map` contract gives it for every address of `va`'s page.
pub proof fn lemma_round_trip(va: u64, pa: u64, d: u64)
    requires
        va & 0xfff == 0,
        pa & 0xfff == 0,
        d < 4096,
    ensures
        same_page((va + d) as u64, va),
        (pa & !0xfffu64) | (((va + d) as u64) & 0xfffu64) == pa + d,
{
    assert(((((va + d) as u64) >> 30u64) & 0x1ffu64 == (va >> 30u64) & 0x1ffu64) && ((((va
        + d) as u64) >> 21u64) & 0x1ffu64 == (va >> 21u64) & 0x1ffu64) && ((((va + d) as u64)
        >> 12u64) & 0x1ffu64 == (va >> 12u64) & 0x1ffu64) && (pa & !0xfffu64) | (((va
        + d) as u64) & 0xfffu64) == pa + d) by (bit_vector)
        requires
            va & 0xfffu64 == 0u64,
            pa & 0xfffu64 == 0u64,
            d < 4096u64,
    ;
}

/// The valid level-0 entry that maps `va`'s page, with its permission bits.
pub open spec fn leaf_of(m: PhysMem, root: int, va: u64) -> Option<u64> {
    let j2 = vpn2(va) as int;
    let j1 = vpn1(va) as int;
    let e0 = entry_at(m.words@, l0(m, root, j2, j1), vpn0(va) as int);
    if is_l0(m, root, j2, j1) && pte_valid(e0) {
        Some(e0)
    } else {
        None
    }
}

/// The frame that holds the table at `addr`.
pub open spec fn frame_of(m: PhysMem, addr: u64) -> int {
    (addr - m.head) / 4096
}

/// `root` is the address of a well-formed tree's root table in `m`.
pub open spec fn valid_root(m: PhysMem, root: u64) -> bool {
    &&& root >= m.head
    &&& root == frame_addr(m.head as int, frame_of(m, root))
    &&& pt_wf(m, frame_of(m, root))
}

/// Permission bits of a leaf: only flag bits, and some of `R`, `W`, `X`.
pub open spec fn leaf_bits_ok(bits: u64) -> bool {
    bits < 0x400 && bits & 0xe != 0
}

proof fn lemma_branch_entry(addr: u64)
    requires
        addr & 0xfff == 0,
        addr < PHYS_LIMIT,
    ensures
        pte_valid(branch_entry(addr)),
        !pte_leaf(branch_entry(addr)),
        pte_addr(branch_entry(addr)) == addr,
{
    assert(((addr >> 2u64) | 1u64) & 1u64 == 1u64 && ((addr >> 2u64) | 1u64) & 0xeu64 == 0u64
        && ((((addr >> 2u64) | 1u64) >> 10u64) & 0xfff_ffff_ffffu64) << 12u64 == addr)
        by (bit_vector)
        requires
            addr & 0xfffu64 == 0u64,
            addr < 0x0100_0000_0000_0000u64,
    ;
}

proof fn lemma_leaf_entry(paddr: u64, bits: u64)
    requires
        paddr < PHYS_LIMIT,
        leaf_bits_ok(bits),
    ensures
        pte_valid(leaf_entry(paddr, bits)),
        pte_leaf(leaf_entry(paddr, bits)),
        pte_addr(leaf_entry(paddr, bits)) == paddr & !0xfffu64,
{
    assert((((((paddr >> 30u64) & 0x3ff_ffffu64) << 28u64) | (((paddr >> 21u64) & 0x1ffu64)
        << 19u64) | (((paddr >> 12u64) & 0x1ffu64) << 10u64)) | bits | 1u64) & 1u64 == 1u64)
        by (bit_vector);
    assert((((((paddr >> 30u64) & 0x3ff_ffffu64) << 28u64) | (((paddr >> 21u64) & 0x1ffu64)
        << 19u64) | (((paddr >> 12u64) & 0x1ffu64) << 10u64)) | bits | 1u64) & 0xeu64 != 0u64)
        by (bit_vector)
        requires
            bits & 0xeu64 != 0u64,
    ;
    assert(((((((((paddr >> 30u64) & 0x3ff_ffffu64) << 28u64) | (((paddr >> 21u64) & 0x1ffu64)
        << 19u64) | (((paddr >> 12u64) & 0x1ffu64) << 10u64)) | bits | 1u64) >> 10u64)
        & 0xfff_ffff_ffffu64) << 12u64) == paddr & !0xfffu64) by (bit_vector)
        requires
            paddr < 0x0100_0000_0000_0000u64,
            bits < 0x400u64,
    ;
}

proof fn lemma_vpn_range(va: u64)
    ensures
        vpn2(va) < 512,
        vpn1(va) < 512,
        vpn0(va) < 512,
{
    assert((va >> 30u64) & 0x1ffu64 < 512u64 && (va >> 21u64) & 0x1ffu64 < 512u64 && (va >> 12u64)
        & 0x1ffu64 < 512u64) by (bit_vector);
}

proof fn lemma_zero_invalid()
    ensures
        !pte_valid(0u64),
{
    assert(0u64 & 1u64 == 0u64) by (bit_vector);
}

/// Entries of distinct frames are distinct words.
proof fn lemma_word_disjoint(f: int, g: int, j: int)
    requires
        f != g,
        0 <= j < 512,
        f >= 0,
        g >= 0,
    ensures
        !(g * 512 <= f * 512 + j < g * 512 + 512),
{
    assert(!(g * 512 <= f * 512 + j < g * 512 + 512)) by (nonlinear_arith)
        requires
            f != g,
            0 <= j < 512,
    ;
}

/// Word `j` of frame `f` lies among the words of `n` frames.
pub proof fn lemma_word_in_range(f: int, j: int, n: int)
    requires
        0 <= f < n,
        0 <= j < 512,
    ensures
        0 <= f * 512 + j < n * 512,
{
    assert(0 <= f * 512 + j < n * 512) by (nonlinear_arith)
        requires
            0 <= f < n,
            0 <= j < 512,
    ;
}

/// A change that keeps every taken frame's words and takes no frame back
/// keeps the tree and all its translations.
proof fn lemma_tables_kept(m1: PhysMem, m2: PhysMem, root: int)
    requires
        pt_wf(m1, root),
        m2.wf(),
        m2.head == m1.head,
        m2.num_frames() == m1.num_frames(),
        forall|f: int| 0 <= f < m1.num_frames() && m1.descs@[f] != 0 ==> m2.descs@[f] != 0,
        forall|f: int, j: int|
            is_table_frame(m1, f) && 0 <= j < 512 ==> entry_at(m2.words@, f, j) == entry_at(
                m1.words@,
                f,
                j,
            ),
    ensures
        pt_wf(m2, root),
        forall|va: u64| translate(m2, root, va) == translate(m1, root, va),
        forall|k2: int|
            0 <= k2 < 512 ==> is_l1(m2, root, k2) == is_l1(m1, root, k2) && l1(m2, root, k2) == l1(
                m1,
                root,
                k2,
            ),
        forall|k2: int, k1: int|
            is_l1(m1, root, k2) && 0 <= k1 < 512 ==> is_l0(m2, root, k2, k1) == is_l0(
                m1,
                root,
                k2,
                k1,
            ) && l0(m2, root, k2, k1) == l0(m1, root, k2, k1),
        forall|va: u64| leaf_of(m2, root, va) == leaf_of(m1, root, va),
{
    let w1 = m1.words@;
    let w2 = m2.words@;
    assert forall|j2: int| 0 <= j2 < 512 implies entry_at(w2, root, j2) == entry_at(w1, root, j2)
        && (is_l1(m2, root, j2) == is_l1(m1, root, j2)) && l1(m2, root, j2) == l1(m1, root, j2) by {
    }
    assert forall|j2: int, j1: int| is_l1(m1, root, j2) && 0 <= j1 < 512 implies entry_at(
        w2,
        l1(m1, root, j2),
        j1,
    ) == entry_at(w1, l1(m1, root, j2), j1) && (is_l0(m2, root, j2, j1) == is_l0(
        m1,
        root,
        j2,
        j1,
    )) && l0(m2, root, j2, j1) == l0(m1, root, j2, j1) by {
        assert(branch_ok(m1, root, entry_at(w1, root, j2)));
    }
    assert forall|j2: int| #[trigger] is_l1(m2, root, j2) implies branch_ok(
        m2,
        root,
        entry_at(w2, root, j2),
    ) by {
        assert(is_l1(m1, root, j2));
    }
    assert forall|j2: int, j1: int| #[trigger] is_l0(m2, root, j2, j1) implies branch_ok(
        m2,
        l1(m2, root, j2),
        entry_at(w2, l1(m2, root, j2), j1),
    ) && l0(m2, root, j2, j1) != root by {
        assert(is_l1(m1, root, j2));
        assert(is_l0(m1, root, j2, j1));
    }
    assert forall|j2: int, k2: int|
        #[trigger] is_l1(m2, root, j2) && #[trigger] is_l1(m2, root, k2) && j2 != k2 implies l1(
        m2,
        root,
        j2,
    ) != l1(m2, root, k2) by {
        assert(is_l1(m1, root, j2) && is_l1(m1, root, k2));
    }
    assert forall|j2: int, j1: int, k2: int|
        #[trigger] is_l0(m2, root, j2, j1) && #[trigger] is_l1(m2, root, k2) implies l0(
        m2,
        root,
        j2,
        j1,
    ) != l1(m2, root, k2) by {
        assert(is_l1(m1, root, j2) && is_l1(m1, root, k2));
        assert(is_l0(m1, root, j2, j1));
    }
    assert forall|j2: int, j1: int, k2: int, k1: int|
        #[trigger] is_l0(m2, root, j2, j1) && #[trigger] is_l0(m2, root, k2, k1) && (j2 != k2 || j1
            != k1) implies l0(m2, root, j2, j1) != l0(m2, root, k2, k1) by {
        assert(is_l1(m1, root, j2) && is_l1(m1, root, k2));
        assert(is_l0(m1, root, j2, j1) && is_l0(m1, root, k2, k1));
    }
    assert forall|va: u64| translate(m2, root, va) == translate(m1, root, va) by {
        lemma_vpn_range(va);
        let j2 = vpn2(va) as int;
        let j1 = vpn1(va) as int;
        let j0 = vpn0(va) as int;
        if is_l1(m1, root, j2) {
            if is_l0(m1, root, j2, j1) {
                let c0 = l0(m1, root, j2, j1);
                assert(entry_at(w2, c0, j0) == entry_at(w1, c0, j0));
            }
        }
    }
    assert forall|va: u64| leaf_of(m2, root, va) == leaf_of(m1, root, va) by {
        lemma_vpn_range(va);
        let j2 = vpn2(va) as int;
        let j1 = vpn1(va) as int;
        let j0 = vpn0(va) as int;
        if is_l1(m1, root, j2) {
            if is_l0(m1, root, j2, j1) {
                let c0 = l0(m1, root, j2, j1);
                assert(branch_ok(m1, l1(m1, root, j2), entry_at(w1, l1(m1, root, j2), j1)));
                assert(entry_at(w2, c0, j0) == entry_at(w1, c0, j0));
            }
        }
    }
}


/// Writing entry `j` of frame `f` leaves every other entry as it was.
proof fn lemma_entry_other(w: Seq<u64>, f: int, j: int, e: u64, g: int, k: int)
    requires
        0 <= f,
        0 <= g,
        0 <= j < 512,
        0 <= k < 512,
        f != g || j != k,
        0 <= f * 512 + j < w.len(),
        0 <= g * 512 + k < w.len(),
    ensures
        entry_at(w.update(f * 512 + j, e), g, k) == entry_at(w, g, k),
{
    assert(f * 512 + j != g * 512 + k) by (nonlinear_arith)
        requires
            f != g || j != k,
            0 <= j < 512,
            0 <= k < 512,
    ;
}

/// The frame index of frame `c`'s address, from one page below it.
pub proof fn lemma_frame_index(head: int, c: int)
    requires
        c >= 0,
    ensures
        (frame_addr(head, c) + 4096 - 4096 - head) / 4096 == c,
{
    lemma_frame_of_addr(head, c);
}

proof fn lemma_frame_of_addr(head: int, c: int)
    requires
        c >= 0,
    ensures
        (frame_addr(head, c) - head) / 4096 == c,
{
    assert((head + c * 4096 - head) / 4096 == c) by (nonlinear_arith);
}

proof fn lemma_aligned(x: u64)
    requires
        x % 4096 == 0,
    ensures
        x & 0xfff == 0,
{
    assert(x & 0xfffu64 == 0u64) by (bit_vector)
        requires
            x % 4096u64 == 0u64,
    ;
}

/// Entry `j2` of the root, invalid so far, becomes a branch to the empty
/// table `c`, which no entry named: the tree stays well formed and no
/// translation changes.
proof fn lemma_install_l1(m1: PhysMem, m2: PhysMem, rf: int, j2: int, c: int)
    requires
        pt_wf(m1, rf),
        0 <= j2 < 512,
        !is_l1(m1, rf, j2),
        is_table_frame(m1, c),
        c != rf,
        forall|k2: int| is_l1(m1, rf, k2) ==> l1(m1, rf, k2) != c,
        forall|k2: int, k1: int| is_l0(m1, rf, k2, k1) ==> l0(m1, rf, k2, k1) != c,
        forall|j: int| 0 <= j < 512 ==> entry_at(m1.words@, c, j) == 0,
        m2.wf(),
        m2.head == m1.head,
        m2.descs@ == m1.descs@,
        m2.words@ == m1.words@.update(rf * 512 + j2, branch_entry(frame_addr(m1.head as int, c) as u64)),
        frame_addr(m1.head as int, c) % 4096 == 0,
        frame_addr(m1.head as int, c) < PHYS_LIMIT,
    ensures
        pt_wf(m2, rf),
        forall|va: u64| translate(m2, rf, va) == translate(m1, rf, va),
        is_l1(m2, rf, j2),
        l1(m2, rf, j2) == c,
        forall|j1: int| !is_l0(m2, rf, j2, j1),
        forall|k2: int|
            0 <= k2 < 512 && k2 != j2 ==> is_l1(m2, rf, k2) == is_l1(m1, rf, k2) && l1(m2, rf, k2)
                == l1(m1, rf, k2),
        forall|k2: int, k1: int|
            is_l1(m1, rf, k2) && 0 <= k1 < 512 ==> is_l0(m2, rf, k2, k1) == is_l0(m1, rf, k2, k1)
                && l0(m2, rf, k2, k1) == l0(m1, rf, k2, k1),
        forall|va: u64| leaf_of(m2, rf, va) == leaf_of(m1, rf, va),
{
    let w1 = m1.words@;
    let w2 = m2.words@;
    let a = frame_addr(m1.head as int, c) as u64;
    lemma_aligned(a);
    lemma_branch_entry(a);
    lemma_frame_of_addr(m1.head as int, c);
    lemma_word_in_range(rf, j2, m1.num_frames() as int);
    lemma_zero_invalid();
    assert(entry_at(w2, rf, j2) == branch_entry(a));
    assert forall|g: int, k: int|
        0 <= g < m1.num_frames() && 0 <= k < 512 && (g != rf || k != j2) implies entry_at(
        w2,
        g,
        k,
    ) == entry_at(w1, g, k) by {
        lemma_word_in_range(g, k, m1.num_frames() as int);
        lemma_entry_other(w1, rf, j2, branch_entry(a), g, k);
    }
    assert(l1(m2, rf, j2) == c);
    assert forall|j1: int| 0 <= j1 < 512 implies entry_at(w2, c, j1) == 0 by {}
    assert forall|k2: int| is_l1(m1, rf, k2) implies is_l1(m2, rf, k2) && l1(m2, rf, k2) == l1(
        m1,
        rf,
        k2,
    ) && forall|k1: int|
        0 <= k1 < 512 ==> (is_l0(m2, rf, k2, k1) == is_l0(m1, rf, k2, k1) && l0(m2, rf, k2, k1)
            == l0(m1, rf, k2, k1) && (is_l0(m1, rf, k2, k1) ==> l0(m1, rf, k2, k1) != rf)) by {
        assert(branch_ok(m1, rf, entry_at(w1, rf, k2)));
        assert forall|k1: int| 0 <= k1 < 512 implies (is_l0(m2, rf, k2, k1) == is_l0(
            m1,
            rf,
            k2,
            k1,
        ) && l0(m2, rf, k2, k1) == l0(m1, rf, k2, k1)) by {
            assert(entry_at(w2, l1(m1, rf, k2), k1) == entry_at(w1, l1(m1, rf, k2), k1));
        }
    }
    assert forall|k2: int| 0 <= k2 < 512 && k2 != j2 implies is_l1(m2, rf, k2) == is_l1(
        m1,
        rf,
        k2,
    ) by {}
    assert forall|k2: int| #[trigger] is_l1(m2, rf, k2) implies branch_ok(
        m2,
        rf,
        entry_at(w2, rf, k2),
    ) by {
        if k2 != j2 {
            assert(is_l1(m1, rf, k2));
        }
    }
    assert forall|k2: int, k1: int| #[trigger] is_l0(m2, rf, k2, k1) implies branch_ok(
        m2,
        l1(m2, rf, k2),
        entry_at(w2, l1(m2, rf, k2), k1),
    ) && l0(m2, rf, k2, k1) != rf by {
        if k2 != j2 {
            assert(is_l1(m1, rf, k2));
            assert(is_l0(m1, rf, k2, k1));
            assert(entry_at(w2, l1(m1, rf, k2), k1) == entry_at(w1, l1(m1, rf, k2), k1));
        }
    }
    assert forall|j: int, k: int|
        #[trigger] is_l1(m2, rf, j) && #[trigger] is_l1(m2, rf, k) && j != k implies l1(m2, rf, j)
        != l1(m2, rf, k) by {
        if j != j2 {
            assert(is_l1(m1, rf, j));
        }
        if k != j2 {
            assert(is_l1(m1, rf, k));
        }
    }
    assert forall|j: int, j1: int, k: int|
        #[trigger] is_l0(m2, rf, j, j1) && #[trigger] is_l1(m2, rf, k) implies l0(m2, rf, j, j1)
        != l1(m2, rf, k) by {
        assert(j != j2);
        assert(is_l1(m1, rf, j));
        assert(is_l0(m1, rf, j, j1));
        if k != j2 {
            assert(is_l1(m1, rf, k));
        }
    }
    assert forall|j: int, j1: int, k: int, k1: int|
        #[trigger] is_l0(m2, rf, j, j1) && #[trigger] is_l0(m2, rf, k, k1) && (j != k || j1 != k1)
        implies l0(m2, rf, j, j1) != l0(m2, rf, k, k1) by {
        assert(j != j2 && k != j2);
        assert(is_l1(m1, rf, j) && is_l1(m1, rf, k));
        assert(is_l0(m1, rf, j, j1) && is_l0(m1, rf, k, k1));
    }
    assert forall|va: u64| translate(m2, rf, va) == translate(m1, rf, va) by {
        lemma_vpn_range(va);
        let v2 = vpn2(va) as int;
        let v1 = vpn1(va) as int;
        let v0 = vpn0(va) as int;
        if v2 != j2 && is_l1(m1, rf, v2) {
            assert(is_l1(m2, rf, v2));
            if is_l0(m1, rf, v2, v1) {
                let c0 = l0(m1, rf, v2, v1);
                assert(c0 != rf);
                assert(entry_at(w2, c0, v0) == entry_at(w1, c0, v0));
            }
        }
    }
    assert forall|va: u64| leaf_of(m2, rf, va) == leaf_of(m1, rf, va) by {
        lemma_vpn_range(va);
        let v2 = vpn2(va) as int;
        let v1 = vpn1(va) as int;
        let v0 = vpn0(va) as int;
        if v2 != j2 && is_l1(m1, rf, v2) {
            assert(is_l1(m2, rf, v2));
            if is_l0(m1, rf, v2, v1) {
                let c0 = l0(m1, rf, v2, v1);
                assert(c0 != rf);
                assert(entry_at(w2, c0, v0) == entry_at(w1, c0, v0));
            }
        }
    }
}


/// Entry `j1` of level-1 table `j2`, invalid so far, becomes a branch to the
/// empty table `c`, which no entry named: the tree stays well formed and no
/// translation changes.
proof fn lemma_install_l0(m1: PhysMem, m2: PhysMem, rf: int, j2: int, j1: int, c: int)
    requires
        pt_wf(m1, rf),
        is_l1(m1, rf, j2),
        0 <= j1 < 512,
        !is_l0(m1, rf, j2, j1),
        is_table_frame(m1, c),
        c != rf,
        forall|k2: int| is_l1(m1, rf, k2) ==> l1(m1, rf, k2) != c,
        forall|k2: int, k1: int| is_l0(m1, rf, k2, k1) ==> l0(m1, rf, k2, k1) != c,
        forall|j: int| 0 <= j < 512 ==> entry_at(m1.words@, c, j) == 0,
        m2.wf(),
        m2.head == m1.head,
        m2.descs@ == m1.descs@,
        m2.words@ == m1.words@.update(
            l1(m1, rf, j2) * 512 + j1,
            branch_entry(frame_addr(m1.head as int, c) as u64),
        ),
        frame_addr(m1.head as int, c) % 4096 == 0,
        frame_addr(m1.head as int, c) < PHYS_LIMIT,
    ensures
        pt_wf(m2, rf),
        forall|va: u64| translate(m2, rf, va) == translate(m1, rf, va),
        is_l0(m2, rf, j2, j1),
        l0(m2, rf, j2, j1) == c,
        forall|j: int| 0 <= j < 512 ==> entry_at(m2.words@, c, j) == 0,
        forall|k2: int|
            0 <= k2 < 512 ==> is_l1(m2, rf, k2) == is_l1(m1, rf, k2) && l1(m2, rf, k2) == l1(
                m1,
                rf,
                k2,
            ),
        forall|k2: int, k1: int|
            is_l1(m1, rf, k2) && 0 <= k1 < 512 && (k2 != j2 || k1 != j1) ==> is_l0(m2, rf, k2, k1)
                == is_l0(m1, rf, k2, k1) && l0(m2, rf, k2, k1) == l0(m1, rf, k2, k1),
        forall|va: u64| leaf_of(m2, rf, va) == leaf_of(m1, rf, va),
{
    let w1 = m1.words@;
    let w2 = m2.words@;
    let n = m1.num_frames() as int;
    let t = l1(m1, rf, j2);
    let a = frame_addr(m1.head as int, c) as u64;
    assert(branch_ok(m1, rf, entry_at(w1, rf, j2)));
    lemma_aligned(a);
    lemma_branch_entry(a);
    lemma_frame_of_addr(m1.head as int, c);
    lemma_word_in_range(t, j1, n);
    lemma_zero_invalid();
    assert forall|g: int, k: int| 0 <= g < n && 0 <= k < 512 && (g != t || k != j1) implies entry_at(
        w2,
        g,
        k,
    ) == entry_at(w1, g, k) by {
        lemma_word_in_range(g, k, n);
        lemma_entry_other(w1, t, j1, branch_entry(a), g, k);
    }
    assert forall|k2: int| 0 <= k2 < 512 implies is_l1(m2, rf, k2) == is_l1(m1, rf, k2) && l1(
        m2,
        rf,
        k2,
    ) == l1(m1, rf, k2) by {
        assert(entry_at(w2, rf, k2) == entry_at(w1, rf, k2));
    }
    assert forall|k2: int, k1: int| is_l1(m1, rf, k2) && 0 <= k1 < 512 && (k2 != j2 || k1 != j1)
        implies is_l0(m2, rf, k2, k1) == is_l0(m1, rf, k2, k1) && l0(m2, rf, k2, k1) == l0(
        m1,
        rf,
        k2,
        k1,
    ) by {
        assert(branch_ok(m1, rf, entry_at(w1, rf, k2)));
        if k2 != j2 {
            assert(is_l1(m1, rf, j2) && is_l1(m1, rf, k2));
        }
        assert(entry_at(w2, l1(m1, rf, k2), k1) == entry_at(w1, l1(m1, rf, k2), k1));
    }
    assert(entry_at(w2, t, j1) == branch_entry(a));
    assert(is_l0(m2, rf, j2, j1) && l0(m2, rf, j2, j1) == c);
    assert forall|j: int| 0 <= j < 512 implies entry_at(w2, c, j) == 0 by {
        assert(entry_at(w2, c, j) == entry_at(w1, c, j));
    }
    assert forall|k2: int| #[trigger] is_l1(m2, rf, k2) implies branch_ok(
        m2,
        rf,
        entry_at(w2, rf, k2),
    ) by {
        assert(is_l1(m1, rf, k2));
    }
    assert forall|k2: int, k1: int| #[trigger] is_l0(m2, rf, k2, k1) implies branch_ok(
        m2,
        l1(m2, rf, k2),
        entry_at(w2, l1(m2, rf, k2), k1),
    ) && l0(m2, rf, k2, k1) != rf by {
        assert(is_l1(m1, rf, k2));
        if k2 != j2 || k1 != j1 {
            assert(is_l0(m1, rf, k2, k1));
        }
    }
    assert forall|j: int, k: int|
        #[trigger] is_l1(m2, rf, j) && #[trigger] is_l1(m2, rf, k) && j != k implies l1(m2, rf, j)
        != l1(m2, rf, k) by {
        assert(is_l1(m1, rf, j) && is_l1(m1, rf, k));
    }
    assert forall|j: int, i1: int, k: int|
        #[trigger] is_l0(m2, rf, j, i1) && #[trigger] is_l1(m2, rf, k) implies l0(m2, rf, j, i1)
        != l1(m2, rf, k) by {
        assert(is_l1(m1, rf, j) && is_l1(m1, rf, k));
        if j != j2 || i1 != j1 {
            assert(is_l0(m1, rf, j, i1));
        }
    }
    assert forall|j: int, i1: int, k: int, k1: int|
        #[trigger] is_l0(m2, rf, j, i1) && #[trigger] is_l0(m2, rf, k, k1) && (j != k || i1 != k1)
        implies l0(m2, rf, j, i1) != l0(m2, rf, k, k1) by {
        assert(is_l1(m1, rf, j) && is_l1(m1, rf, k));
        if j != j2 || i1 != j1 {
            assert(is_l0(m1, rf, j, i1));
        }
        if k != j2 || k1 != j1 {
            assert(is_l0(m1, rf, k, k1));
        }
    }
    assert forall|va: u64| translate(m2, rf, va) == translate(m1, rf, va) by {
        lemma_vpn_range(va);
        let v2 = vpn2(va) as int;
        let v1 = vpn1(va) as int;
        let v0 = vpn0(va) as int;
        if is_l1(m1, rf, v2) {
            if v2 == j2 && v1 == j1 {
                assert(entry_at(w2, c, v0) == 0);
            } else if is_l0(m1, rf, v2, v1) {
                let c0 = l0(m1, rf, v2, v1);
                assert(is_l1(m1, rf, v2));
                assert(entry_at(w2, c0, v0) == entry_at(w1, c0, v0));
            }
        }
    }
    assert forall|va: u64| leaf_of(m2, rf, va) == leaf_of(m1, rf, va) by {
        lemma_vpn_range(va);
        let v2 = vpn2(va) as int;
        let v1 = vpn1(va) as int;
        let v0 = vpn0(va) as int;
        if is_l1(m1, rf, v2) {
            if v2 == j2 && v1 == j1 {
                assert(entry_at(w2, c, v0) == 0);
            } else if is_l0(m1, rf, v2, v1) {
                let c0 = l0(m1, rf, v2, v1);
                assert(branch_ok(m1, l1(m1, rf, v2), entry_at(w1, l1(m1, rf, v2), v1)));
                assert(is_l1(m1, rf, v2) && is_l1(m1, rf, j2));
                assert(c0 != t);
                assert(entry_at(w2, c0, v0) == entry_at(w1, c0, v0));
            }
        }
    }
}

/// A leaf written at level 0 for `va`'s page sets the translation of that
/// page and of no other; the tree stays well formed.
proof fn lemma_install_leaf(m1: PhysMem, m2: PhysMem, rf: int, va: u64, e: u64)
    requires
        pt_wf(m1, rf),
        is_l0(m1, rf, vpn2(va) as int, vpn1(va) as int),
        pte_valid(e),
        pte_leaf(e),
        m2.wf(),
        m2.head == m1.head,
        m2.descs@ == m1.descs@,
        m2.words@ == m1.words@.update(
            l0(m1, rf, vpn2(va) as int, vpn1(va) as int) * 512 + vpn0(va),
            e,
        ),
    ensures
        pt_wf(m2, rf),
        forall|vb: u64|
            same_page(vb, va) ==> translate(m2, rf, vb) == Some(pte_addr(e) | (vb & 0xfffu64)),
        forall|vb: u64| !same_page(vb, va) ==> translate(m2, rf, vb) == translate(m1, rf, vb),
        forall|k2: int|
            0 <= k2 < 512 ==> is_l1(m2, rf, k2) == is_l1(m1, rf, k2) && l1(m2, rf, k2) == l1(
                m1,
                rf,
                k2,
            ),
        forall|k2: int, k1: int|
            is_l1(m1, rf, k2) && 0 <= k1 < 512 ==> is_l0(m2, rf, k2, k1) == is_l0(m1, rf, k2, k1)
                && l0(m2, rf, k2, k1) == l0(m1, rf, k2, k1),
        forall|vb: u64| same_page(vb, va) ==> leaf_of(m2, rf, vb) == Some(e),
        forall|vb: u64| !same_page(vb, va) ==> leaf_of(m2, rf, vb) == leaf_of(m1, rf, vb),
{
    let w1 = m1.words@;
    let w2 = m2.words@;
    let n = m1.num_frames() as int;
    lemma_vpn_range(va);
    let j2 = vpn2(va) as int;
    let j1 = vpn1(va) as int;
    let j0 = vpn0(va) as int;
    let t = l0(m1, rf, j2, j1);
    assert(branch_ok(m1, l1(m1, rf, j2), entry_at(w1, l1(m1, rf, j2), j1)));
    lemma_word_in_range(t, j0, n);
    assert forall|g: int, k: int| 0 <= g < n && 0 <= k < 512 && (g != t || k != j0) implies entry_at(
        w2,
        g,
        k,
    ) == entry_at(w1, g, k) by {
        lemma_word_in_range(g, k, n);
        lemma_entry_other(w1, t, j0, e, g, k);
    }
    assert forall|k2: int| 0 <= k2 < 512 implies is_l1(m2, rf, k2) == is_l1(m1, rf, k2) && l1(
        m2,
        rf,
        k2,
    ) == l1(m1, rf, k2) by {
        assert(entry_at(w2, rf, k2) == entry_at(w1, rf, k2));
    }
    assert forall|k2: int, k1: int| is_l1(m1, rf, k2) && 0 <= k1 < 512 implies is_l0(
        m2,
        rf,
        k2,
        k1,
    ) == is_l0(m1, rf, k2, k1) && l0(m2, rf, k2, k1) == l0(m1, rf, k2, k1) by {
        assert(branch_ok(m1, rf, entry_at(w1, rf, k2)));
        assert(is_l1(m1, rf, k2) && is_l0(m1, rf, j2, j1));
        assert(entry_at(w2, l1(m1, rf, k2), k1) == entry_at(w1, l1(m1, rf, k2), k1));
    }
    assert forall|k2: int| #[trigger] is_l1(m2, rf, k2) implies branch_ok(
        m2,
        rf,
        entry_at(w2, rf, k2),
    ) by {
        assert(is_l1(m1, rf, k2));
    }
    assert forall|k2: int, k1: int| #[trigger] is_l0(m2, rf, k2, k1) implies branch_ok(
        m2,
        l1(m2, rf, k2),
        entry_at(w2, l1(m2, rf, k2), k1),
    ) && l0(m2, rf, k2, k1) != rf by {
        assert(is_l1(m1, rf, k2));
        assert(is_l0(m1, rf, k2, k1));
    }
    assert forall|j: int, k: int|
        #[trigger] is_l1(m2, rf, j) && #[trigger] is_l1(m2, rf, k) && j != k implies l1(m2, rf, j)
        != l1(m2, rf, k) by {
        assert(is_l1(m1, rf, j) && is_l1(m1, rf, k));
    }
    assert forall|j: int, i1: int, k: int|
        #[trigger] is_l0(m2, rf, j, i1) && #[trigger] is_l1(m2, rf, k) implies l0(m2, rf, j, i1)
        != l1(m2, rf, k) by {
        assert(is_l1(m1, rf, j) && is_l1(m1, rf, k));
        assert(is_l0(m1, rf, j, i1));
    }
    assert forall|j: int, i1: int, k: int, k1: int|
        #[trigger] is_l0(m2, rf, j, i1) && #[trigger] is_l0(m2, rf, k, k1) && (j != k || i1 != k1)
        implies l0(m2, rf, j, i1) != l0(m2, rf, k, k1) by {
        assert(is_l1(m1, rf, j) && is_l1(m1, rf, k));
        assert(is_l0(m1, rf, j, i1));
        assert(is_l0(m1, rf, k, k1));
    }
    assert forall|vb: u64| same_page(vb, va) implies translate(m2, rf, vb) == Some(
        pte_addr(e) | (vb & 0xfffu64),
    ) by {
        assert(is_l1(m2, rf, j2) && is_l0(m2, rf, j2, j1));
        assert(entry_at(w2, t, j0) == e);
    }
    assert forall|vb: u64| !same_page(vb, va) implies translate(m2, rf, vb) == translate(
        m1,
        rf,
        vb,
    ) by {
        lemma_vpn_range(vb);
        let v2 = vpn2(vb) as int;
        let v1 = vpn1(vb) as int;
        let v0 = vpn0(vb) as int;
        if is_l1(m1, rf, v2) {
            assert(branch_ok(m1, rf, entry_at(w1, rf, v2)));
            if is_l0(m1, rf, v2, v1) {
                let c0 = l0(m1, rf, v2, v1);
                assert(branch_ok(m1, l1(m1, rf, v2), entry_at(w1, l1(m1, rf, v2), v1)));
                if v2 != j2 || v1 != j1 {
                    assert(c0 != t);
                }
                assert(entry_at(w2, c0, v0) == entry_at(w1, c0, v0));
            }
        }
    }
    assert forall|vb: u64| same_page(vb, va) implies leaf_of(m2, rf, vb) == Some(e) by {
        assert(is_l1(m2, rf, j2) && is_l0(m2, rf, j2, j1));
        assert(entry_at(w2, t, j0) == e);
    }
    assert forall|vb: u64| !same_page(vb, va) implies leaf_of(m2, rf, vb) == leaf_of(m1, rf, vb) by {
        lemma_vpn_range(vb);
        let v2 = vpn2(vb) as int;
        let v1 = vpn1(vb) as int;
        let v0 = vpn0(vb) as int;
        if is_l1(m1, rf, v2) {
            assert(branch_ok(m1, rf, entry_at(w1, rf, v2)));
            if is_l0(m1, rf, v2, v1) {
                let c0 = l0(m1, rf, v2, v1);
                assert(branch_ok(m1, l1(m1, rf, v2), entry_at(w1, l1(m1, rf, v2), v1)));
                if v2 != j2 || v1 != j1 {
                    assert(c0 != t);
                }
                assert(entry_at(w2, c0, v0) == entry_at(w1, c0, v0));
            }
        }
    }
}


/// Entry `j` of the table in frame `f`.
fn read_entry(m: &PhysMem, f: usize, j: usize) -> (r: u64)
    requires
        m.wf(),
        f < m.num_frames(),
        j < 512,
    ensures
        r == entry_at(m.words@, f as int, j as int),
{
    proof {
        lemma_word_in_range(f as int, j as int, m.num_frames() as int);
    }
    m.words[f * WORDS_PER_PAGE + j]
}

/// Set entry `j` of the table in frame `f` to `e`.
fn write_entry(m: &mut PhysMem, f: usize, j: usize, e: u64)
    requires
        old(m).wf(),
        f < old(m).num_frames(),
        j < 512,
    ensures
        final(m).wf(),
        final(m).words@ == old(m).words@.update(f * 512 + j, e),
        final(m).descs@ == old(m).descs@,
        final(m).heap_start == old(m).heap_start,
        final(m).heap_size == old(m).heap_size,
        final(m).head == old(m).head,
{
    proof {
        lemma_word_in_range(f as int, j as int, old(m).num_frames() as int);
    }
    m.words.set(f * WORDS_PER_PAGE + j, e);
}

/// The frame that holds the table at `addr`.
fn frame_index(m: &PhysMem, addr: u64) -> (r: usize)
    requires
        m.wf(),
        addr >= m.head,
        addr == frame_addr(m.head as int, frame_of(*m, addr)),
        frame_of(*m, addr) < m.num_frames(),
    ensures
        r == frame_of(*m, addr),
{
    ((addr - m.head) / 4096) as usize
}

/// The address that an entry names, as `pte_addr`.
fn entry_addr(e: u64) -> (r: u64)
    ensures
        r == pte_addr(e),
{
    ((e >> 10) & 0xfff_ffff_ffff) << 12
}

/// A zeroed frame for a new table of the tree at `rf`; `None` when no frame is free.
fn new_table(m: &mut PhysMem, rf: usize) -> (r: Option<usize>)
    requires
        pt_wf(*old(m), rf as int),
    ensures
        final(m).wf(),
        final(m).heap_start == old(m).heap_start,
        final(m).heap_size == old(m).heap_size,
        final(m).head == old(m).head,
        pt_wf(*final(m), rf as int),
        forall|va: u64| translate(*final(m), rf as int, va) == translate(*old(m), rf as int, va),
        forall|f: int, j: int|
            is_table_frame(*old(m), f) && 0 <= j < 512 ==> entry_at(final(m).words@, f, j)
                == entry_at(old(m).words@, f, j),
        forall|f: int| is_branch_table(*final(m), rf as int, f) == is_branch_table(*old(m), rf as int, f),
        forall|va: u64| leaf_of(*final(m), rf as int, va) == leaf_of(*old(m), rf as int, va),
        r is None ==> count_taken(old(m).descs@) == old(m).descs@.len(),
        r is Some ==> count_taken(final(m).descs@) == count_taken(old(m).descs@) + 1,
        r is None ==> final(m).words@ == old(m).words@,
        r is None ==> final(m).descs@ == old(m).descs@ && forall|k: int|
            !is_free_run(final(m).descs@, k, 1),
        r matches Some(c) ==> {
            &&& is_table_frame(*final(m), c as int)
            &&& forall|f: int, j: int|
                0 <= f < old(m).num_frames() && f != c && 0 <= j < 512 ==> entry_at(
                    final(m).words@,
                    f,
                    j,
                ) == entry_at(old(m).words@, f, j)
            &&& c != rf
            &&& old(m).descs@[c as int] == 0
            &&& final(m).descs@ == mark_run(old(m).descs@, c as int, 1)
            &&& forall|k2: int| is_l1(*final(m), rf as int, k2) ==> l1(*final(m), rf as int, k2) != c
            &&& forall|k2: int, k1: int|
                is_l0(*final(m), rf as int, k2, k1) ==> l0(*final(m), rf as int, k2, k1) != c
            &&& forall|j: int| 0 <= j < 512 ==> entry_at(final(m).words@, c as int, j) == 0
            &&& frame_addr(final(m).head as int, c as int) % 4096 == 0
            &&& frame_addr(final(m).head as int, c as int) < PHYS_LIMIT
        },
{
    let ghost m0 = *m;
    let a = m.zalloc(1);
    if a == 0 {
        proof {
            lemma_tables_kept(m0, *m, rf as int);
            lemma_same_branch_tables(m0, *m, rf as int);
            assert forall|k: int| !is_free_run(m0.descs@, k, 1) by {}
            crate::page::lemma_count_full(m0.descs@);
        }
        return None;
    }
    let ghost i = choose|i: int|
        is_first_fit(m0.descs@, i, 1) && a == frame_addr(m0.head as int, i) && m.descs@
            == mark_run(m0.descs@, i, 1) && m.words@ == crate::page::zero_words(
            m0.words@,
            i * 512,
            512,
        );
    proof {
        let n = m0.num_frames() as int;
        assert forall|f: int, j: int| 0 <= f < n && f != i && 0 <= j < 512 implies entry_at(
            m.words@,
            f,
            j,
        ) == entry_at(m0.words@, f, j) by {
            lemma_word_disjoint(f, i, j);
            lemma_word_in_range(f, j, n);
        }
        assert forall|f: int, j: int| is_table_frame(m0, f) && 0 <= j < 512 implies entry_at(
            m.words@,
            f,
            j,
        ) == entry_at(m0.words@, f, j) by {
            assert(m0.descs@[i] == 0);
        }
        lemma_tables_kept(m0, *m, rf as int);
        lemma_same_branch_tables(m0, *m, rf as int);
        crate::page::lemma_frame_accounting(m0.descs@, i, 1);
        lemma_frame_of_addr(m0.head as int, i);
        assert(frame_addr(m0.head as int, i) % 4096 == 0) by (nonlinear_arith)
            requires
                m0.head == m0.heap_start + crate::page::reserved_frames(
                    (m0.heap_size / 4096) as nat,
                ) * 4096,
                m0.heap_start % 4096 == 0,
                i >= 0,
        {}
        assert(frame_addr(m0.head as int, i) < m0.end()) by (nonlinear_arith)
            requires
                0 <= i < m0.num_frames(),
                m0.end() == m0.head + m0.num_frames() * 4096,
        {}
        assert forall|j: int| 0 <= j < 512 implies entry_at(m.words@, i, j) == 0 by {
            lemma_word_in_range(i, j, n);
        }
        assert forall|k2: int| is_l1(*m, rf as int, k2) implies l1(*m, rf as int, k2) != i by {
            assert(entry_at(m.words@, rf as int, k2) == entry_at(m0.words@, rf as int, k2));
            assert(is_l1(m0, rf as int, k2));
        }
        assert forall|k2: int, k1: int| is_l0(*m, rf as int, k2, k1) implies l0(
            *m,
            rf as int,
            k2,
            k1,
        ) != i by {
            let t = l1(*m, rf as int, k2);
            assert(entry_at(m.words@, rf as int, k2) == entry_at(m0.words@, rf as int, k2));
            assert(is_l1(m0, rf as int, k2));
            assert(entry_at(m.words@, t, k1) == entry_at(m0.words@, t, k1));
            assert(is_l0(m0, rf as int, k2, k1));
        }
    }
    let c = frame_index(m, a);
    Some(c)
}

/// Install a level-0 leaf that maps `vaddr`'s page to `paddr`'s frame with
/// permission `bits`, making the missing tables on the way from zeroed
/// frames. Returns false when no frame was left for a table; the
/// translations are then as before. Leaves stand at level 0 only: superpages
/// (leaves at levels 1 and 2) are deferred, so `level` must be 0.
pub fn map(m: &mut PhysMem, root: u64, vaddr: u64, paddr: u64, bits: u64, level: usize) -> (r: bool)
    requires
        valid_root(*old(m), root),
        level == 0,
        leaf_bits_ok(bits),
        paddr < PHYS_LIMIT,
    ensures
        valid_root(*final(m), root),
        frame_of(*final(m), root) == frame_of(*old(m), root),
        final(m).heap_start == old(m).heap_start,
        final(m).heap_size == old(m).heap_size,
        final(m).head == old(m).head,
        final(m).num_frames() == old(m).num_frames(),
        forall|f: int|
            0 <= f < old(m).num_frames() && old(m).descs@[f] != 0 ==> final(m).descs@[f]
                == old(m).descs@[f],
        r ==> forall|vb: u64|
            same_page(vb, vaddr) ==> translate(*final(m), frame_of(*final(m), root), vb) == Some(
                (paddr & !0xfffu64) | (vb & 0xfffu64),
            ),
        forall|vb: u64|
            !same_page(vb, vaddr) ==> translate(*final(m), frame_of(*final(m), root), vb)
                == translate(*old(m), frame_of(*old(m), root), vb),
        !r ==> (forall|vb: u64|
            translate(*final(m), frame_of(*final(m), root), vb) == translate(
                *old(m),
                frame_of(*old(m), root),
                vb,
            )) && forall|k: int| !is_free_run(final(m).descs@, k, 1),
        forall|base: Seq<u8>|
            tables_exactly(*old(m), frame_of(*old(m), root), base) ==> tables_exactly(
                *final(m),
                frame_of(*final(m), root),
                base,
            ),
        count_taken(final(m).descs@) <= count_taken(old(m).descs@) + 2,
        count_taken(old(m).descs@) + 2 <= old(m).num_frames() ==> r,
        r ==> forall|vb: u64|
            same_page(vb, vaddr) ==> leaf_of(*final(m), frame_of(*final(m), root), vb) == Some(
                leaf_entry(paddr, bits),
            ),
        forall|vb: u64|
            !same_page(vb, vaddr) ==> leaf_of(*final(m), frame_of(*final(m), root), vb) == leaf_of(
                *old(m),
                frame_of(*old(m), root),
                vb,
            ),
        !r ==> forall|vb: u64|
            leaf_of(*final(m), frame_of(*final(m), root), vb) == leaf_of(
                *old(m),
                frame_of(*old(m), root),
                vb,
            ),
        words_kept(*old(m), *final(m), frame_of(*old(m), root)),
        forall|f: int|
            is_branch_table(*old(m), frame_of(*old(m), root), f) ==> is_branch_table(
                *final(m),
                frame_of(*final(m), root),
                f,
            ),
{
    let ghost m0 = *m;
    let rf = frame_index(m, root);
    proof {
        lemma_vpn_range(vaddr);
    }
    let v2 = ((vaddr >> 30) & 0x1ff) as usize;
    let v1 = ((vaddr >> 21) & 0x1ff) as usize;
    let v0 = ((vaddr >> 12) & 0x1ff) as usize;
    let e2 = read_entry(m, rf, v2);
    let t1: usize;
    if e2 & 1 == 1 {
        assert(is_l1(*m, rf as int, v2 as int));
        assert(branch_ok(*m, rf as int, e2));
        t1 = frame_index(m, entry_addr(e2));
    } else {
        match new_table(m, rf) {
            None => {
                return false;
            },
            Some(c) => {
                let ghost m2 = *m;
                assert(entry_at(m2.words@, rf as int, v2 as int) == e2);
                let a = frame_addr_of(m, c);
                write_entry(m, rf, v2, (a >> 2) | 1);
                proof {
                    lemma_install_l1(m2, *m, rf as int, v2 as int, c as int);
                }
                t1 = c;
            },
        }
    }
    assert(is_l1(*m, rf as int, v2 as int) && l1(*m, rf as int, v2 as int) == t1);
    assert(branch_ok(*m, rf as int, entry_at(m.words@, rf as int, v2 as int)));
    let ghost m1 = *m;
    assert(forall|base: Seq<u8>| tables_exactly(m0, rf as int, base) ==> tables_exactly(
        m1,
        rf as int,
        base,
    ));
    assert(count_taken(m1.descs@) <= count_taken(m0.descs@) + 1);
    assert(words_kept(m0, m1, rf as int));
    assert(forall|f: int| is_branch_table(m0, rf as int, f) ==> is_branch_table(m1, rf as int, f));
    assert(forall|vb: u64| leaf_of(m1, rf as int, vb) == leaf_of(m0, rf as int, vb));
    let e1 = read_entry(m, t1, v1);
    let t0: usize;
    if e1 & 1 == 1 {
        assert(is_l0(*m, rf as int, v2 as int, v1 as int));
        assert(branch_ok(*m, t1 as int, e1));
        t0 = frame_index(m, entry_addr(e1));
    } else {
        match new_table(m, rf) {
            None => {
                proof {
                    assert forall|base: Seq<u8>| tables_exactly(m0, rf as int, base) implies tables_exactly(
                        *m,
                        rf as int,
                        base,
                    ) by {
                        assert(tables_exactly(m1, rf as int, base));
                        lemma_exactly_same(m1, *m, rf as int, base);
                    }
                }
                return false;
            },
            Some(c) => {
                let ghost m2 = *m;
                assert(entry_at(m2.words@, rf as int, v2 as int) == entry_at(
                    m1.words@,
                    rf as int,
                    v2 as int,
                ));
                assert(entry_at(m2.words@, t1 as int, v1 as int) == e1);
                assert(is_l1(m2, rf as int, v2 as int) && l1(m2, rf as int, v2 as int) == t1);
                let a = frame_addr_of(m, c);
                write_entry(m, t1, v1, (a >> 2) | 1);
                proof {
                    lemma_install_l0(m2, *m, rf as int, v2 as int, v1 as int, c as int);
                    assert(!is_l0(m2, rf as int, v2 as int, v1 as int));
                    lemma_add_l0_table(m2, *m, rf as int, v2 as int, v1 as int, c as int);
                    assert(is_l1(*m, rf as int, v2 as int) && l1(*m, rf as int, v2 as int) == t1);
                    assert(is_branch_table(*m, rf as int, t1 as int));
                    lemma_words_kept_step(m1, m2, *m, rf as int, c as int, t1 as int, v1 as int, (a >> 2) | 1);
                    assert forall|base: Seq<u8>| tables_exactly(m0, rf as int, base) implies tables_exactly(
                        *m,
                        rf as int,
                        base,
                    ) by {
                        assert(tables_exactly(m1, rf as int, base));
                        lemma_exactly_add(m1, *m, rf as int, base, c as int);
                    }
                }
                t0 = c;
            },
        }
    }
    assert(is_l0(*m, rf as int, v2 as int, v1 as int) && l0(*m, rf as int, v2 as int, v1 as int) == t0);
    let leaf = ((((paddr >> 30) & 0x3ff_ffff) << 28) | (((paddr >> 21) & 0x1ff) << 19) | (((paddr
        >> 12) & 0x1ff) << 10)) | bits | 1;
    let ghost m3 = *m;
    proof {
        lemma_leaf_entry(paddr, bits);
        assert(branch_ok(m3, t1 as int, entry_at(m3.words@, t1 as int, v1 as int)));
    }
    assert(forall|base: Seq<u8>| tables_exactly(m0, rf as int, base) ==> tables_exactly(
        m3,
        rf as int,
        base,
    ));
    assert(count_taken(m3.descs@) <= count_taken(m0.descs@) + 2);
    assert(words_kept(m1, m3, rf as int));
    assert(forall|f: int| is_branch_table(m1, rf as int, f) ==> is_branch_table(m3, rf as int, f));
    proof {
        lemma_words_kept_trans(m0, m1, m3, rf as int);
    }
    assert(forall|vb: u64| leaf_of(m3, rf as int, vb) == leaf_of(m0, rf as int, vb));
    write_entry(m, t0, v0, leaf);
    proof {
        lemma_install_leaf(m3, *m, rf as int, vaddr, leaf);
        lemma_same_branch_tables(m3, *m, rf as int);
        assert(is_branch_table(*m, rf as int, t0 as int));
        assert forall|f: int, k: int| 0 <= f < m3.num_frames() && f != t0 && 0 <= k < 512 implies entry_at(
            m3.words@,
            f,
            k,
        ) == entry_at(m3.words@, f, k) by {}
        lemma_words_kept_step(m3, m3, *m, rf as int, t0 as int, t0 as int, v0 as int, leaf);
        lemma_words_kept_trans(m0, m3, *m, rf as int);
        assert forall|base: Seq<u8>| tables_exactly(m0, rf as int, base) implies tables_exactly(
            *m,
            rf as int,
            base,
        ) by {
            lemma_exactly_same(m3, *m, rf as int, base);
        }
    }
    true
}

/// As `zalloc`, for a caller that holds the tree at `root`: the frames come
/// from the free ones, so the tree and its translations are untouched.
pub fn zalloc_keep(m: &mut PhysMem, root: u64, pages: usize) -> (r: u64)
    requires
        valid_root(*old(m), root),
        pages > 0,
    ensures
        valid_root(*final(m), root),
        frame_of(*final(m), root) == frame_of(*old(m), root),
        final(m).heap_start == old(m).heap_start,
        final(m).heap_size == old(m).heap_size,
        final(m).head == old(m).head,
        final(m).num_frames() == old(m).num_frames(),
        forall|va: u64|
            translate(*final(m), frame_of(*final(m), root), va) == translate(
                *old(m),
                frame_of(*old(m), root),
                va,
            ),
        forall|va: u64|
            leaf_of(*final(m), frame_of(*final(m), root), va) == leaf_of(
                *old(m),
                frame_of(*old(m), root),
                va,
            ),
        (r != 0) <==> exists|k: int| is_free_run(old(m).descs@, k, pages as int),
        r != 0 ==> exists|i: int|
            is_first_fit(old(m).descs@, i, pages as int) && r == frame_addr(old(m).head as int, i)
                && final(m).descs@ == mark_run(old(m).descs@, i, pages as int) && final(m).words@
                == crate::page::zero_words(old(m).words@, i * 512, pages * 512) && forall|
                base: Seq<u8>,
            |
                tables_exactly(*old(m), frame_of(*old(m), root), base) ==> tables_exactly(
                    *final(m),
                    frame_of(*final(m), root),
                    mark_run(base, i, pages as int),
                ),
        r == 0 ==> final(m).descs@ == old(m).descs@,
{
    let ghost m0 = *m;
    let r = m.zalloc(pages);
    proof {
        let rf = frame_of(m0, root);
        let n = m0.num_frames() as int;
        if r != 0 {
            let i = choose|i: int|
                is_first_fit(m0.descs@, i, pages as int) && r == frame_addr(m0.head as int, i)
                    && m.descs@ == mark_run(m0.descs@, i, pages as int) && m.words@
                    == crate::page::zero_words(m0.words@, i * 512, pages * 512);
            assert forall|f: int, j: int| is_table_frame(m0, f) && 0 <= j < 512 implies entry_at(
                m.words@,
                f,
                j,
            ) == entry_at(m0.words@, f, j) by {
                lemma_word_in_range(f, j, n);
                assert(!(i <= f < i + pages));
                assert(!(i * 512 <= f * 512 + j < i * 512 + pages * 512)) by (nonlinear_arith)
                    requires
                        !(i <= f < i + pages),
                        0 <= j < 512,
                ;
            }
            lemma_tables_kept(m0, *m, rf);
            lemma_same_branch_tables(m0, *m, rf);
            assert forall|base: Seq<u8>| tables_exactly(m0, rf, base) implies tables_exactly(
                *m,
                rf,
                mark_run(base, i, pages as int),
            ) by {
                assert(is_free_run(base, i, pages as int)) by {
                    assert forall|f: int| i <= f < i + pages implies base[f] == 0 by {
                        assert(m0.descs@[f] == 0);
                    }
                }
                crate::page::lemma_alloc_dealloc_restores(base, i, pages as int);
                assert forall|f: int| 0 <= f < m.num_frames() && is_branch_table(*m, rf, f) implies !(i
                    <= f < i + pages) by {
                    assert(m0.descs@[f] == crate::page::TAKEN_LAST);
                }
            }
        }
        lemma_tables_kept(m0, *m, rf);
    }
    r
}

/// A zeroed frame as the root table of a new, empty tree; 0 when no frame is free.
pub fn new_root(m: &mut PhysMem) -> (r: u64)
    requires
        old(m).wf(),
    ensures
        final(m).wf(),
        final(m).heap_start == old(m).heap_start,
        final(m).heap_size == old(m).heap_size,
        final(m).head == old(m).head,
        final(m).num_frames() == old(m).num_frames(),
        forall|f: int|
            0 <= f < old(m).num_frames() && old(m).descs@[f] != 0 ==> final(m).descs@[f]
                == old(m).descs@[f],
        r == 0 <==> forall|k: int| !is_free_run(old(m).descs@, k, 1),
        r == 0 ==> final(m).descs@ == old(m).descs@,
        r != 0 ==> exists|i: int|
            is_first_fit(old(m).descs@, i, 1) && r == frame_addr(old(m).head as int, i)
                && final(m).descs@ == mark_run(old(m).descs@, i, 1) && frame_of(*final(m), r) == i,
        r != 0 ==> valid_root(*final(m), r) && forall|va: u64|
            translate(*final(m), frame_of(*final(m), r), va) is None,
        r != 0 ==> tables_exactly(*final(m), frame_of(*final(m), r), final(m).descs@),
{
    let r = m.zalloc(1);
    if r != 0 {
        let ghost i = choose|i: int|
            is_first_fit(old(m).descs@, i, 1) && r == frame_addr(old(m).head as int, i)
                && m.descs@ == mark_run(old(m).descs@, i, 1) && m.words@ == crate::page::zero_words(
                old(m).words@,
                i * 512,
                512,
            );
        proof {
            lemma_frame_of_addr(m.head as int, i);
            lemma_zero_invalid();
            assert forall|j: int| 0 <= j < 512 implies entry_at(m.words@, i, j) == 0 by {
                lemma_word_in_range(i, j, m.num_frames() as int);
            }
            assert forall|va: u64| translate(*m, i, va) is None by {
                lemma_vpn_range(va);
            }
            assert forall|j2: int| !is_l1(*m, i, j2) by {}
            assert forall|j2: int, j1: int| !is_l0(*m, i, j2, j1) by {}
            assert(pt_wf(*m, i));
            assert forall|f: int| !is_branch_table(*m, i, f) by {}
            assert(tables_exactly(*m, i, m.descs@));
        }
    }
    r
}

/// Every table below the root is a one-frame allocation, as `map` makes them.
pub open spec fn tables_single(m: PhysMem, root: int) -> bool {
    &&& forall|j2: int|
        #[trigger] is_l1(m, root, j2) ==> crate::page::is_allocation(m.descs@, l1(m, root, j2), 1)
    &&& forall|j2: int, j1: int|
        #[trigger] is_l0(m, root, j2, j1) ==> crate::page::is_allocation(
            m.descs@,
            l0(m, root, j2, j1),
            1,
        )
}

/// Frame `f` is a table below the root reached from root entries before `j2`,
/// or from entries before `j1` of level-1 table `j2`.
pub open spec fn freed_before(m: PhysMem, root: int, j2: int, j1: int, f: int) -> bool {
    (exists|k2: int| 0 <= k2 < j2 && is_l1(m, root, k2) && l1(m, root, k2) == f) || (exists|
        k2: int,
        k1: int,
    | 0 <= k2 < j2 && is_l0(m, root, k2, k1) && l0(m, root, k2, k1) == f) || (exists|k1: int|
        0 <= k1 < j1 && is_l0(m, root, j2, k1) && l0(m, root, j2, k1) == f)
}

/// Frame `f` is a table of the tree below the root.
pub open spec fn is_branch_table(m: PhysMem, root: int, f: int) -> bool {
    freed_before(m, root, 512, 0, f)
}

/// The descriptors match the tables freed so far.
pub open spec fn freed_matches(m0: PhysMem, root: int, j2: int, j1: int, d: Seq<u8>) -> bool {
    &&& d.len() == m0.descs@.len()
    &&& forall|f: int|
        0 <= f < m0.num_frames() ==> d[f] == if freed_before(m0, root, j2, j1, f) {
            0u8
        } else {
            m0.descs@[f]
        }
}

/// The level-0 table at `(j2, j1)` is not freed yet and is still a one-frame
/// allocation.
proof fn lemma_free_one(m0: PhysMem, m: PhysMem, rf: int, j2: int, j1: int)
    requires
        pt_wf(m0, rf),
        tables_single(m0, rf),
        is_l0(m0, rf, j2, j1),
        freed_matches(m0, rf, j2, j1, m.descs@),
    ensures
        !freed_before(m0, rf, j2, j1, l0(m0, rf, j2, j1)),
        crate::page::is_allocation(m.descs@, l0(m0, rf, j2, j1), 1),
{
    let t0 = l0(m0, rf, j2, j1);
    assert(branch_ok(m0, l1(m0, rf, j2), entry_at(m0.words@, l1(m0, rf, j2), j1)));
    assert(crate::page::is_allocation(m0.descs@, t0, 1));
    if freed_before(m0, rf, j2, j1, t0) {
        if exists|k2: int| 0 <= k2 < j2 && is_l1(m0, rf, k2) && l1(m0, rf, k2) == t0 {
            let k2 = choose|k2: int| 0 <= k2 < j2 && is_l1(m0, rf, k2) && l1(m0, rf, k2) == t0;
            assert(false);
        } else if exists|k2: int, k1: int|
            0 <= k2 < j2 && is_l0(m0, rf, k2, k1) && l0(m0, rf, k2, k1) == t0 {
            let (k2, k1) = choose|k2: int, k1: int|
                0 <= k2 < j2 && is_l0(m0, rf, k2, k1) && l0(m0, rf, k2, k1) == t0;
            assert(false);
        } else {
            let k1 = choose|k1: int| 0 <= k1 < j1 && is_l0(m0, rf, j2, k1) && l0(m0, rf, j2, k1) == t0;
            assert(false);
        }
    }
    if t0 > 0 {
        assert(m0.descs@[t0 - 1] != crate::page::TAKEN);
    }
}

/// Freeing the level-0 table at `(j2, j1)` advances the match by one entry.
proof fn lemma_freed_step(m0: PhysMem, rf: int, j2: int, j1: int, d0: Seq<u8>, d1: Seq<u8>)
    requires
        pt_wf(m0, rf),
        is_l0(m0, rf, j2, j1),
        freed_matches(m0, rf, j2, j1, d0),
        d1 == crate::page::clear_run(d0, l0(m0, rf, j2, j1), 1),
    ensures
        freed_matches(m0, rf, j2, j1 + 1, d1),
{
    let t0 = l0(m0, rf, j2, j1);
    assert forall|f: int| 0 <= f < m0.num_frames() implies d1[f] == if freed_before(
        m0,
        rf,
        j2,
        j1 + 1,
        f,
    ) {
        0u8
    } else {
        m0.descs@[f]
    } by {
        if f == t0 {
            assert(freed_before(m0, rf, j2, j1 + 1, f));
        } else if freed_before(m0, rf, j2, j1 + 1, f) && !freed_before(m0, rf, j2, j1, f) {
            let k1 = choose|k1: int| 0 <= k1 < j1 + 1 && is_l0(m0, rf, j2, k1) && l0(m0, rf, j2, k1) == f;
            assert(k1 != j1);
        }
    }
}

/// The level-1 table `j2`, its row done, is not freed yet and is still a
/// one-frame allocation.
proof fn lemma_free_l1(m0: PhysMem, m: PhysMem, rf: int, j2: int)
    requires
        pt_wf(m0, rf),
        tables_single(m0, rf),
        is_l1(m0, rf, j2),
        freed_matches(m0, rf, j2, 512, m.descs@),
    ensures
        !freed_before(m0, rf, j2, 512, l1(m0, rf, j2)),
        crate::page::is_allocation(m.descs@, l1(m0, rf, j2), 1),
{
    let t1 = l1(m0, rf, j2);
    assert(branch_ok(m0, rf, entry_at(m0.words@, rf, j2)));
    assert(crate::page::is_allocation(m0.descs@, t1, 1));
    if freed_before(m0, rf, j2, 512, t1) {
        if exists|k2: int| 0 <= k2 < j2 && is_l1(m0, rf, k2) && l1(m0, rf, k2) == t1 {
            let k2 = choose|k2: int| 0 <= k2 < j2 && is_l1(m0, rf, k2) && l1(m0, rf, k2) == t1;
            assert(false);
        } else if exists|k2: int, k1: int|
            0 <= k2 < j2 && is_l0(m0, rf, k2, k1) && l0(m0, rf, k2, k1) == t1 {
            let (k2, k1) = choose|k2: int, k1: int|
                0 <= k2 < j2 && is_l0(m0, rf, k2, k1) && l0(m0, rf, k2, k1) == t1;
            assert(false);
        } else {
            let k1 = choose|k1: int| 0 <= k1 < 512 && is_l0(m0, rf, j2, k1) && l0(m0, rf, j2, k1) == t1;
            assert(false);
        }
    }
    if t1 > 0 {
        assert(m0.descs@[t1 - 1] != crate::page::TAKEN);
    }
}

/// Freeing level-1 table `j2` after its row moves the match to the next root entry.
proof fn lemma_freed_row(m0: PhysMem, rf: int, j2: int, d0: Seq<u8>, d1: Seq<u8>)
    requires
        pt_wf(m0, rf),
        is_l1(m0, rf, j2),
        freed_matches(m0, rf, j2, 512, d0),
        d1 == crate::page::clear_run(d0, l1(m0, rf, j2), 1),
    ensures
        freed_matches(m0, rf, j2 + 1, 0, d1),
{
    let t1 = l1(m0, rf, j2);
    assert forall|f: int| 0 <= f < m0.num_frames() implies d1[f] == if freed_before(
        m0,
        rf,
        j2 + 1,
        0,
        f,
    ) {
        0u8
    } else {
        m0.descs@[f]
    } by {
        if f == t1 {
            assert(freed_before(m0, rf, j2 + 1, 0, f));
        } else {
            if freed_before(m0, rf, j2 + 1, 0, f) {
                if exists|k2: int| 0 <= k2 < j2 + 1 && is_l1(m0, rf, k2) && l1(m0, rf, k2) == f {
                    let k2 = choose|k2: int|
                        0 <= k2 < j2 + 1 && is_l1(m0, rf, k2) && l1(m0, rf, k2) == f;
                    assert(k2 != j2);
                    assert(freed_before(m0, rf, j2, 512, f));
                } else {
                    let (k2, k1) = choose|k2: int, k1: int|
                        0 <= k2 < j2 + 1 && is_l0(m0, rf, k2, k1) && l0(m0, rf, k2, k1) == f;
                    assert(freed_before(m0, rf, j2, 512, f));
                }
            }
            if freed_before(m0, rf, j2, 512, f) {
                if exists|k2: int| 0 <= k2 < j2 && is_l1(m0, rf, k2) && l1(m0, rf, k2) == f {
                } else if exists|k2: int, k1: int|
                    0 <= k2 < j2 && is_l0(m0, rf, k2, k1) && l0(m0, rf, k2, k1) == f {
                    let (k2, k1) = choose|k2: int, k1: int|
                        0 <= k2 < j2 && is_l0(m0, rf, k2, k1) && l0(m0, rf, k2, k1) == f;
                    assert(0 <= k2 < j2 + 1 && is_l0(m0, rf, k2, k1));
                } else {
                    let k1 = choose|k1: int|
                        0 <= k1 < 512 && is_l0(m0, rf, j2, k1) && l0(m0, rf, j2, k1) == f;
                    assert(0 <= j2 < j2 + 1 && is_l0(m0, rf, j2, k1));
                }
                assert(freed_before(m0, rf, j2 + 1, 0, f));
            }
        }
    }
}

/// A root entry without a table adds nothing to free.
proof fn lemma_skip_row(m0: PhysMem, rf: int, j2: int, d: Seq<u8>)
    requires
        0 <= j2 < 512,
        !is_l1(m0, rf, j2),
        freed_matches(m0, rf, j2, 0, d),
    ensures
        freed_matches(m0, rf, j2 + 1, 0, d),
{
    assert forall|f: int| freed_before(m0, rf, j2 + 1, 0, f) == freed_before(m0, rf, j2, 0, f) by {
        if freed_before(m0, rf, j2 + 1, 0, f) {
            if exists|k2: int| 0 <= k2 < j2 + 1 && is_l1(m0, rf, k2) && l1(m0, rf, k2) == f {
                let k2 = choose|k2: int| 0 <= k2 < j2 + 1 && is_l1(m0, rf, k2) && l1(m0, rf, k2) == f;
                assert(k2 != j2);
            } else {
                let (k2, k1) = choose|k2: int, k1: int|
                    0 <= k2 < j2 + 1 && is_l0(m0, rf, k2, k1) && l0(m0, rf, k2, k1) == f;
                assert(k2 != j2);
            }
        }
    }
}

/// The descriptors are `base` but for the tables below the root, which are
/// taken as one-frame allocations and free in `base`.
pub open spec fn tables_exactly(m: PhysMem, root: int, base: Seq<u8>) -> bool {
    &&& base.len() == m.descs@.len()
    &&& crate::page::descs_wf(base)
    &&& forall|f: int|
        0 <= f < m.num_frames() ==> m.descs@[f] == if is_branch_table(m, root, f) {
            crate::page::TAKEN_LAST
        } else {
            base[f]
        }
    &&& forall|f: int| 0 <= f < m.num_frames() && is_branch_table(m, root, f) ==> base[f] == 0
}

/// Tables that are exactly the taken frames beyond `base` are one-frame allocations.
pub proof fn lemma_exactly_single(m: PhysMem, root: int, base: Seq<u8>)
    requires
        pt_wf(m, root),
        tables_exactly(m, root, base),
    ensures
        tables_single(m, root),
{
    assert forall|f: int| 0 <= f < m.num_frames() && is_branch_table(m, root, f) implies crate::page::is_allocation(
        m.descs@,
        f,
        1,
    ) by {
        if f > 0 {
            if is_branch_table(m, root, f - 1) {
            } else {
                assert(base[f - 1] != crate::page::TAKEN);
            }
        }
    }
    assert forall|j2: int| #[trigger] is_l1(m, root, j2) implies crate::page::is_allocation(
        m.descs@,
        l1(m, root, j2),
        1,
    ) by {
        assert(branch_ok(m, root, entry_at(m.words@, root, j2)));
        assert(is_branch_table(m, root, l1(m, root, j2)));
    }
    assert forall|j2: int, j1: int| #[trigger] is_l0(m, root, j2, j1) implies crate::page::is_allocation(
        m.descs@,
        l0(m, root, j2, j1),
        1,
    ) by {
        assert(branch_ok(m, l1(m, root, j2), entry_at(m.words@, l1(m, root, j2), j1)));
        assert(is_branch_table(m, root, l0(m, root, j2, j1)));
    }
}

/// Trees whose tables are the same have the same branch tables.
proof fn lemma_same_branch_tables(m1: PhysMem, m2: PhysMem, rf: int)
    requires
        forall|k2: int|
            0 <= k2 < 512 ==> is_l1(m2, rf, k2) == is_l1(m1, rf, k2) && l1(m2, rf, k2) == l1(
                m1,
                rf,
                k2,
            ),
        forall|k2: int, k1: int|
            is_l1(m1, rf, k2) && 0 <= k1 < 512 ==> is_l0(m2, rf, k2, k1) == is_l0(m1, rf, k2, k1)
                && l0(m2, rf, k2, k1) == l0(m1, rf, k2, k1),
    ensures
        forall|f: int| is_branch_table(m2, rf, f) == is_branch_table(m1, rf, f),
{
    assert forall|f: int| is_branch_table(m2, rf, f) == is_branch_table(m1, rf, f) by {
        if exists|k2: int| 0 <= k2 < 512 && is_l1(m2, rf, k2) && l1(m2, rf, k2) == f {
            let k2 = choose|k2: int| 0 <= k2 < 512 && is_l1(m2, rf, k2) && l1(m2, rf, k2) == f;
            assert(is_l1(m1, rf, k2) && l1(m1, rf, k2) == f);
        }
        if exists|k2: int, k1: int| 0 <= k2 < 512 && is_l0(m2, rf, k2, k1) && l0(m2, rf, k2, k1) == f {
            let (k2, k1) = choose|k2: int, k1: int|
                0 <= k2 < 512 && is_l0(m2, rf, k2, k1) && l0(m2, rf, k2, k1) == f;
            assert(is_l1(m1, rf, k2));
            assert(is_l0(m1, rf, k2, k1) && l0(m1, rf, k2, k1) == f);
        }
        if exists|k2: int| 0 <= k2 < 512 && is_l1(m1, rf, k2) && l1(m1, rf, k2) == f {
            let k2 = choose|k2: int| 0 <= k2 < 512 && is_l1(m1, rf, k2) && l1(m1, rf, k2) == f;
            assert(is_l1(m2, rf, k2) && l1(m2, rf, k2) == f);
        }
        if exists|k2: int, k1: int| 0 <= k2 < 512 && is_l0(m1, rf, k2, k1) && l0(m1, rf, k2, k1) == f {
            let (k2, k1) = choose|k2: int, k1: int|
                0 <= k2 < 512 && is_l0(m1, rf, k2, k1) && l0(m1, rf, k2, k1) == f;
            assert(is_l0(m2, rf, k2, k1) && l0(m2, rf, k2, k1) == f);
        }
    }
}

/// A new level-1 table `c` at root entry `j2` adds `c` to the branch tables.
proof fn lemma_add_l1_table(m1: PhysMem, m2: PhysMem, rf: int, j2: int, c: int)
    requires
        0 <= j2 < 512,
        !is_l1(m1, rf, j2),
        is_l1(m2, rf, j2),
        l1(m2, rf, j2) == c,
        forall|j1: int| !is_l0(m2, rf, j2, j1),
        forall|k2: int|
            0 <= k2 < 512 && k2 != j2 ==> is_l1(m2, rf, k2) == is_l1(m1, rf, k2) && l1(m2, rf, k2)
                == l1(m1, rf, k2),
        forall|k2: int, k1: int|
            is_l1(m1, rf, k2) && 0 <= k1 < 512 ==> is_l0(m2, rf, k2, k1) == is_l0(m1, rf, k2, k1)
                && l0(m2, rf, k2, k1) == l0(m1, rf, k2, k1),
    ensures
        forall|f: int| is_branch_table(m2, rf, f) == (is_branch_table(m1, rf, f) || f == c),
{
    assert forall|f: int| is_branch_table(m2, rf, f) == (is_branch_table(m1, rf, f) || f == c) by {
        if exists|k2: int| 0 <= k2 < 512 && is_l1(m2, rf, k2) && l1(m2, rf, k2) == f {
            let k2 = choose|k2: int| 0 <= k2 < 512 && is_l1(m2, rf, k2) && l1(m2, rf, k2) == f;
            if k2 != j2 {
                assert(is_l1(m1, rf, k2) && l1(m1, rf, k2) == f);
            }
        }
        if exists|k2: int, k1: int| 0 <= k2 < 512 && is_l0(m2, rf, k2, k1) && l0(m2, rf, k2, k1) == f {
            let (k2, k1) = choose|k2: int, k1: int|
                0 <= k2 < 512 && is_l0(m2, rf, k2, k1) && l0(m2, rf, k2, k1) == f;
            assert(k2 != j2);
            assert(is_l1(m1, rf, k2));
            assert(is_l0(m1, rf, k2, k1) && l0(m1, rf, k2, k1) == f);
        }
        if exists|k2: int| 0 <= k2 < 512 && is_l1(m1, rf, k2) && l1(m1, rf, k2) == f {
            let k2 = choose|k2: int| 0 <= k2 < 512 && is_l1(m1, rf, k2) && l1(m1, rf, k2) == f;
            assert(k2 != j2);
            assert(is_l1(m2, rf, k2) && l1(m2, rf, k2) == f);
        }
        if exists|k2: int, k1: int| 0 <= k2 < 512 && is_l0(m1, rf, k2, k1) && l0(m1, rf, k2, k1) == f {
            let (k2, k1) = choose|k2: int, k1: int|
                0 <= k2 < 512 && is_l0(m1, rf, k2, k1) && l0(m1, rf, k2, k1) == f;
            assert(is_l0(m2, rf, k2, k1) && l0(m2, rf, k2, k1) == f);
        }
        if f == c {
            assert(is_l1(m2, rf, j2) && l1(m2, rf, j2) == f);
        }
    }
}

/// A new level-0 table `c` at entry `(j2, j1)` adds `c` to the branch tables.
proof fn lemma_add_l0_table(m1: PhysMem, m2: PhysMem, rf: int, j2: int, j1: int, c: int)
    requires
        is_l1(m1, rf, j2),
        0 <= j1 < 512,
        !is_l0(m1, rf, j2, j1),
        is_l0(m2, rf, j2, j1),
        l0(m2, rf, j2, j1) == c,
        forall|k2: int|
            0 <= k2 < 512 ==> is_l1(m2, rf, k2) == is_l1(m1, rf, k2) && l1(m2, rf, k2) == l1(
                m1,
                rf,
                k2,
            ),
        forall|k2: int, k1: int|
            is_l1(m1, rf, k2) && 0 <= k1 < 512 && (k2 != j2 || k1 != j1) ==> is_l0(m2, rf, k2, k1)
                == is_l0(m1, rf, k2, k1) && l0(m2, rf, k2, k1) == l0(m1, rf, k2, k1),
    ensures
        forall|f: int| is_branch_table(m2, rf, f) == (is_branch_table(m1, rf, f) || f == c),
{
    assert forall|f: int| is_branch_table(m2, rf, f) == (is_branch_table(m1, rf, f) || f == c) by {
        if exists|k2: int| 0 <= k2 < 512 && is_l1(m2, rf, k2) && l1(m2, rf, k2) == f {
            let k2 = choose|k2: int| 0 <= k2 < 512 && is_l1(m2, rf, k2) && l1(m2, rf, k2) == f;
            assert(is_l1(m1, rf, k2) && l1(m1, rf, k2) == f);
        }
        if exists|k2: int, k1: int| 0 <= k2 < 512 && is_l0(m2, rf, k2, k1) && l0(m2, rf, k2, k1) == f {
            let (k2, k1) = choose|k2: int, k1: int|
                0 <= k2 < 512 && is_l0(m2, rf, k2, k1) && l0(m2, rf, k2, k1) == f;
            assert(is_l1(m1, rf, k2));
            if k2 != j2 || k1 != j1 {
                assert(is_l0(m1, rf, k2, k1) && l0(m1, rf, k2, k1) == f);
            }
        }
        if exists|k2: int| 0 <= k2 < 512 && is_l1(m1, rf, k2) && l1(m1, rf, k2) == f {
            let k2 = choose|k2: int| 0 <= k2 < 512 && is_l1(m1, rf, k2) && l1(m1, rf, k2) == f;
            assert(is_l1(m2, rf, k2) && l1(m2, rf, k2) == f);
        }
        if exists|k2: int, k1: int| 0 <= k2 < 512 && is_l0(m1, rf, k2, k1) && l0(m1, rf, k2, k1) == f {
            let (k2, k1) = choose|k2: int, k1: int|
                0 <= k2 < 512 && is_l0(m1, rf, k2, k1) && l0(m1, rf, k2, k1) == f;
            assert(k2 != j2 || k1 != j1);
            assert(is_l0(m2, rf, k2, k1) && l0(m2, rf, k2, k1) == f);
        }
        if f == c {
            assert(is_l0(m2, rf, j2, j1) && l0(m2, rf, j2, j1) == f);
        }
    }
}

/// Every frame other than the root and the tables of `m2`'s tree holds the
/// same words in `m2` as in `m1`.
pub open spec fn words_kept(m1: PhysMem, m2: PhysMem, root: int) -> bool {
    forall|f: int, j: int|
        0 <= f < m1.num_frames() && f != root && !is_branch_table(m2, root, f) && 0 <= j < 512
            ==> entry_at(m2.words@, f, j) == entry_at(m1.words@, f, j)
}

/// A step that zeroes frame `c` and writes entry `j` of frame `g`, both the
/// root or tables of the new tree, keeps every other frame's words.
proof fn lemma_words_kept_step(ma: PhysMem, mb: PhysMem, mc: PhysMem, rf: int, c: int, g: int, j: int, e: u64)
    requires
        ma.wf(),
        ma.num_frames() == mb.num_frames(),
        forall|f: int, k: int|
            0 <= f < ma.num_frames() && f != c && 0 <= k < 512 ==> entry_at(mb.words@, f, k)
                == entry_at(ma.words@, f, k),
        mb.words@.len() == ma.words@.len(),
        mc.words@ == mb.words@.update(g * 512 + j, e),
        0 <= g < ma.num_frames(),
        0 <= j < 512,
        c == rf || is_branch_table(mc, rf, c),
        g == rf || is_branch_table(mc, rf, g),
    ensures
        words_kept(ma, mc, rf),
{
    let n = ma.num_frames() as int;
    lemma_word_in_range(g, j, n);
    assert forall|f: int, k: int|
        0 <= f < n && f != rf && !is_branch_table(mc, rf, f) && 0 <= k < 512 implies entry_at(
        mc.words@,
        f,
        k,
    ) == entry_at(ma.words@, f, k) by {
        lemma_word_in_range(f, k, n);
        lemma_entry_other(mb.words@, g, j, e, f, k);
    }
}

/// Keeping words across two steps, with the tables of the middle state still
/// tables at the end.
pub proof fn lemma_words_kept_trans(ma: PhysMem, mb: PhysMem, mc: PhysMem, rf: int)
    requires
        words_kept(ma, mb, rf),
        words_kept(mb, mc, rf),
        ma.num_frames() == mb.num_frames(),
        forall|f: int| is_branch_table(mb, rf, f) ==> is_branch_table(mc, rf, f),
    ensures
        words_kept(ma, mc, rf),
{
}

/// Same descriptors and same branch tables keep the match with `base`.
proof fn lemma_exactly_same(m1: PhysMem, m2: PhysMem, rf: int, base: Seq<u8>)
    requires
        tables_exactly(m1, rf, base),
        m2.descs@ == m1.descs@,
        forall|f: int| is_branch_table(m2, rf, f) == is_branch_table(m1, rf, f),
    ensures
        tables_exactly(m2, rf, base),
{
}

/// Taking the free frame `c` and making it a branch table keeps the
/// descriptors exactly `base` plus the tables.
proof fn lemma_exactly_add(m1: PhysMem, m2: PhysMem, rf: int, base: Seq<u8>, c: int)
    requires
        tables_exactly(m1, rf, base),
        0 <= c < m1.num_frames(),
        m1.descs@[c] == 0,
        m2.descs@ == mark_run(m1.descs@, c, 1),
        forall|f: int| is_branch_table(m2, rf, f) == (is_branch_table(m1, rf, f) || f == c),
    ensures
        tables_exactly(m2, rf, base),
{
    assert(!is_branch_table(m1, rf, c));
}

/// Return every table below the root to the frame allocator, level-0 tables
/// before the level-1 table above them. Leaf targets are left alone and the
/// root itself stays taken; its entries are stale afterwards. After any
/// number of `map` calls on a root from `new_root`, this gives back the
/// descriptors as they were right after the root was made.
pub fn unmap(m: &mut PhysMem, root: u64)
    requires
        valid_root(*old(m), root),
        tables_single(*old(m), frame_of(*old(m), root)),
    ensures
        final(m).wf(),
        final(m).words@ == old(m).words@,
        final(m).heap_start == old(m).heap_start,
        final(m).heap_size == old(m).heap_size,
        final(m).head == old(m).head,
        final(m).num_frames() == old(m).num_frames(),
        forall|f: int|
            0 <= f < old(m).num_frames() ==> final(m).descs@[f] == if is_branch_table(
                *old(m),
                frame_of(*old(m), root),
                f,
            ) {
                0u8
            } else {
                old(m).descs@[f]
            },
        forall|base: Seq<u8>|
            tables_exactly(*old(m), frame_of(*old(m), root), base) ==> final(m).descs@ == base,
{
    let ghost m0 = *m;
    let ghost rf = frame_of(m0, root);
    let rfi = frame_index(m, root);
    let mut j2: usize = 0;
    while j2 < 512
        invariant
            m0 == *old(m),
            rf == frame_of(m0, root),
            rfi == rf,
            pt_wf(m0, rf),
            tables_single(m0, rf),
            m.wf(),
            m.words@ == m0.words@,
            m.heap_start == m0.heap_start,
            m.heap_size == m0.heap_size,
            m.head == m0.head,
            m.num_frames() == m0.num_frames(),
            j2 <= 512,
            freed_matches(m0, rf, j2 as int, 0, m.descs@),
        decreases 512 - j2,
    {
        let e2 = read_entry(m, rfi, j2);
        if e2 & 1 == 1 {
            assert(is_l1(m0, rf, j2 as int));
            assert(branch_ok(m0, rf, e2));
            let t1a = entry_addr(e2);
            let t1 = frame_index(m, t1a);
            let mut j1: usize = 0;
            while j1 < 512
                invariant
                    m0 == *old(m),
                    rf == frame_of(m0, root),
                    pt_wf(m0, rf),
                    tables_single(m0, rf),
                    is_l1(m0, rf, j2 as int),
                    t1 == l1(m0, rf, j2 as int),
                    t1a == frame_addr(m0.head as int, t1 as int),
                    j2 < 512,
                    m.wf(),
                    m.words@ == m0.words@,
                    m.heap_start == m0.heap_start,
                    m.heap_size == m0.heap_size,
                    m.head == m0.head,
                    m.num_frames() == m0.num_frames(),
                    j1 <= 512,
                    freed_matches(m0, rf, j2 as int, j1 as int, m.descs@),
                decreases 512 - j1,
            {
                let e1 = read_entry(m, t1, j1);
                if e1 & 1 == 1 {
                    assert(is_l0(m0, rf, j2 as int, j1 as int));
                    let ghost t0 = l0(m0, rf, j2 as int, j1 as int);
                    assert(branch_ok(m0, t1 as int, e1));
                    let t0a = entry_addr(e1);
                    proof {
                        lemma_free_one(m0, *m, rf, j2 as int, j1 as int);
                    }
                    let ghost d0 = m.descs@;
                    m.dealloc(t0a);
                    assert(m.descs@ == crate::page::clear_run(d0, t0, 1));
                    proof {
                        lemma_freed_step(m0, rf, j2 as int, j1 as int, d0, m.descs@);
                    }
                } else {
                    proof {
                        assert(!is_l0(m0, rf, j2 as int, j1 as int));
                        assert forall|f: int| freed_before(m0, rf, j2 as int, j1 + 1, f) == freed_before(
                            m0,
                            rf,
                            j2 as int,
                            j1 as int,
                            f,
                        ) by {
                            if freed_before(m0, rf, j2 as int, j1 + 1, f) && !freed_before(
                                m0,
                                rf,
                                j2 as int,
                                j1 as int,
                                f,
                            ) {
                                let k1 = choose|k1: int|
                                    0 <= k1 < j1 + 1 && is_l0(m0, rf, j2 as int, k1) && l0(
                                        m0,
                                        rf,
                                        j2 as int,
                                        k1,
                                    ) == f;
                                assert(k1 != j1);
                            }
                        }
                    }
                }
                j1 = j1 + 1;
            }
            proof {
                lemma_free_l1(m0, *m, rf, j2 as int);
            }
            let ghost d0 = m.descs@;
            m.dealloc(t1a);
            assert(m.descs@ == crate::page::clear_run(d0, t1 as int, 1));
            proof {
                lemma_freed_row(m0, rf, j2 as int, d0, m.descs@);
            }
        } else {
            proof {
                assert(!is_l1(m0, rf, j2 as int));
                lemma_skip_row(m0, rf, j2 as int, m.descs@);
            }
        }
        j2 = j2 + 1;
    }
    assert forall|base: Seq<u8>| tables_exactly(m0, rf, base) implies m.descs@ == base by {
        assert(m.descs@ =~= base);
    }
}

/// Physical address of allocatable frame `c`.
fn frame_addr_of(m: &PhysMem, c: usize) -> (r: u64)
    requires
        m.wf(),
        c < m.num_frames(),
    ensures
        r == frame_addr(m.head as int, c as int),
{
    proof {
        assert(m.head + c * 4096 < m.end()) by (nonlinear_arith)
            requires
                c < m.num_frames(),
                m.end() == m.head + m.num_frames() * 4096,
        {}
    }
    m.head + (c as u64) * 4096
}

/// The physical address that `vaddr` translates to under the tree at `root`,
/// or `None` where no valid leaf maps it.
pub fn virt_to_phys(m: &PhysMem, root: u64, vaddr: u64) -> (r: Option<u64>)
    requires
        valid_root(*m, root),
    ensures
        r == translate(*m, frame_of(*m, root), vaddr),
{
    let rf = frame_index(m, root);
    proof {
        lemma_vpn_range(vaddr);
    }
    let e2 = read_entry(m, rf, ((vaddr >> 30) & 0x1ff) as usize);
    if e2 & 1 != 1 {
        return None;
    }
    if e2 & 0xe != 0 {
        return Some((entry_addr(e2) & !0x3fff_ffff) | (vaddr & 0x3fff_ffff));
    }
    assert(is_l1(*m, rf as int, vpn2(vaddr) as int));
    let t1 = frame_index(m, entry_addr(e2));
    let e1 = read_entry(m, t1, ((vaddr >> 21) & 0x1ff) as usize);
    if e1 & 1 != 1 {
        return None;
    }
    if e1 & 0xe != 0 {
        return Some((entry_addr(e1) & !0x1f_ffff) | (vaddr & 0x1f_ffff));
    }
    assert(is_l0(*m, rf as int, vpn2(vaddr) as int, vpn1(vaddr) as int));
    let t0 = frame_index(m, entry_addr(e1));
    let e0 = read_entry(m, t0, ((vaddr >> 12) & 0x1ff) as usize);
    if e0 & 1 == 1 && e0 & 0xe != 0 {
        Some(entry_addr(e0) | (vaddr & 0xfff))
    } else {
        None
    }
}

} // verus!
