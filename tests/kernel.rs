use rvkernel::cpu::{build_satp, SatpMode};
use rvkernel::id_map_range;
use rvkernel::kmem::{KernelHeap, HEAP_PAGES};
use rvkernel::page::{PhysMem, LAST, TAKEN};
use rvkernel::paging::{virt_to_phys, READ_EXECUTE, READ_WRITE};
use rvkernel::trap::{decide_trap, echo_for, next_timer, Echo, TrapAction};

const HEAP_START: u64 = 0x8010_0000;
const HEAP_SIZE: u64 = 0x0020_0000;

fn fresh() -> PhysMem {
    PhysMem::new(HEAP_START, HEAP_SIZE)
}

#[test]
fn bring_up_smoke() {
    let m = fresh();
    assert_eq!(m.get_num_allocations(), 511);
    assert_eq!(m.get_head(), 0x8010_1000);
}

#[test]
fn descriptor_frames_for_large_region() {
    // 8192 frames need two descriptor frames.
    let m = PhysMem::new(0x8000_0000, 8192 * 4096);
    assert_eq!(m.get_num_allocations(), 8190);
    assert_eq!(m.get_head(), 0x8000_2000);
}

#[test]
fn round_trip_map() {
    let mut m = fresh();
    let root = m.zalloc(1);
    assert_ne!(root, 0);
    assert!(rvkernel::paging::map(&mut m, root, 0x8009_3000, 0x8009_3000, READ_WRITE, 0));
    assert_eq!(virt_to_phys(&m, root, 0x8009_3abc), Some(0x8009_3abc));
    assert_eq!(virt_to_phys(&m, root, 0x8009_3000), Some(0x8009_3000));
    assert_eq!(virt_to_phys(&m, root, 0x8009_3fff), Some(0x8009_3fff));
    assert_eq!(virt_to_phys(&m, root, 0x8009_4000), None);
    assert_eq!(virt_to_phys(&m, root, 0x8009_2fff), None);
}

#[test]
fn map_to_other_frame() {
    let mut m = fresh();
    let root = m.zalloc(1);
    assert!(rvkernel::paging::map(&mut m, root, 0x4000_0000, 0x8765_4000, READ_EXECUTE, 0));
    for d in [0u64, 1, 0x123, 0xfff] {
        assert_eq!(virt_to_phys(&m, root, 0x4000_0000 + d), Some(0x8765_4000 + d));
    }
    // remapping the page replaces the leaf
    assert!(rvkernel::paging::map(&mut m, root, 0x4000_0000, 0x9000_0000, READ_WRITE, 0));
    assert_eq!(virt_to_phys(&m, root, 0x4000_0010), Some(0x9000_0010));
}

#[test]
fn map_allocates_two_tables_once() {
    let mut m = fresh();
    let root = m.zalloc(1);
    let before = count_taken(&m);
    assert!(rvkernel::paging::map(&mut m, root, 0x8000_0000, 0x8000_0000, READ_WRITE, 0));
    assert_eq!(count_taken(&m), before + 2);
    // the same level-0 table serves the next page
    assert!(rvkernel::paging::map(&mut m, root, 0x8000_1000, 0x8000_1000, READ_WRITE, 0));
    assert_eq!(count_taken(&m), before + 2);
    assert_eq!(virt_to_phys(&m, root, 0x8000_0008), Some(0x8000_0008));
    assert_eq!(virt_to_phys(&m, root, 0x8000_1008), Some(0x8000_1008));
}

#[test]
fn map_fails_without_frames() {
    // three frames: one for descriptors, one root, one table; the second table is missing
    let mut m = PhysMem::new(0x8000_0000, 3 * 4096);
    assert_eq!(m.get_num_allocations(), 2);
    let root = m.zalloc(1);
    assert_ne!(root, 0);
    assert!(!rvkernel::paging::map(&mut m, root, 0x1000, 0x1000, READ_WRITE, 0));
    assert_eq!(virt_to_phys(&m, root, 0x1000), None);
    assert_eq!(m.alloc_pages(1), 0);
}

#[test]
fn identity_range_leaf_value() {
    let mut m = fresh();
    let root = m.zalloc(1);
    assert!(id_map_range(&mut m, root, 0x1000_0000, 0x1000_0100, READ_WRITE));
    let t0 = level0_table(&m, root, 0x1000_0000);
    assert_eq!(m.words[t0 * 512], 0x0400_0007);
    let t0 = {
        assert!(id_map_range(&mut m, root, 0x8000_0000, 0x8000_1000, READ_EXECUTE));
        level0_table(&m, root, 0x8000_0000)
    };
    assert_eq!(m.words[t0 * 512], ((0x8000_0000u64 >> 12) << 10) | READ_EXECUTE);
}

#[test]
fn identity_range() {
    let mut m = fresh();
    let root = m.zalloc(1);
    let before = count_taken(&m);
    assert!(id_map_range(&mut m, root, 0x1000_0000, 0x1000_0100, READ_WRITE));
    // one leaf, under one new level-1 and one new level-0 table
    assert_eq!(count_taken(&m), before + 2);
    let t0 = level0_table(&m, root, 0x1000_0000);
    let leaves = (0..512)
        .filter(|j| m.words[t0 * 512 + j] & 1 == 1)
        .count();
    assert_eq!(leaves, 1);
    assert_eq!(virt_to_phys(&m, root, 0x1000_00ff), Some(0x1000_00ff));
    assert_eq!(virt_to_phys(&m, root, 0x1000_1000), None);
}

#[test]
fn identity_range_spans_pages() {
    let mut m = fresh();
    let root = m.zalloc(1);
    assert!(id_map_range(&mut m, root, 0x0200_0000, 0x0200_ffff, READ_WRITE));
    for a in [0x0200_0000u64, 0x0200_5a5a, 0x0200_ffff] {
        assert_eq!(virt_to_phys(&m, root, a), Some(a));
    }
    assert_eq!(virt_to_phys(&m, root, 0x0201_0000), None);
    assert_eq!(virt_to_phys(&m, root, 0x01ff_ffff), None);
}

#[test]
fn identity_range_unaligned_ends() {
    let mut m = fresh();
    let root = m.zalloc(1);
    assert!(id_map_range(&mut m, root, 0x0c00_0123, 0x0c00_2001, READ_WRITE));
    assert_eq!(virt_to_phys(&m, root, 0x0c00_0000), Some(0x0c00_0000));
    assert_eq!(virt_to_phys(&m, root, 0x0c00_2fff), Some(0x0c00_2fff));
    assert_eq!(virt_to_phys(&m, root, 0x0c00_3000), None);
}

#[test]
fn identity_range_empty() {
    let mut m = fresh();
    let root = m.zalloc(1);
    let before = count_taken(&m);
    assert!(id_map_range(&mut m, root, 0x3000, 0x3000, READ_WRITE));
    assert_eq!(count_taken(&m), before);
    assert_eq!(virt_to_phys(&m, root, 0x3000), None);
}

#[test]
fn translation_of_superpage_leaf() {
    let mut m = fresh();
    let root = m.zalloc(1);
    let rf = ((root - m.head) / 4096) as usize;
    // level-2 leaf for VPN[2] = 2, naming the gigapage at 0x4000_0000
    m.words[rf * 512 + 2] = (0x4000_0000u64 >> 2) | READ_WRITE;
    assert_eq!(virt_to_phys(&m, root, 0x8012_3456), Some(0x4012_3456));
    // level-1 leaf under a fresh table for VPN[2] = 0
    let t1 = m.zalloc(1);
    let f1 = ((t1 - m.head) / 4096) as usize;
    m.words[rf * 512] = (t1 >> 2) | 1;
    m.words[f1 * 512 + 3] = (0x8020_0000u64 >> 2) | READ_WRITE;
    assert_eq!(virt_to_phys(&m, root, 0x0061_2345), Some(0x8021_2345));
}

#[test]
fn heap_basic() {
    let mut m = fresh();
    let mut heap = KernelHeap::init(&mut m, HEAP_PAGES).unwrap();
    let first = heap.kmalloc(100);
    assert_ne!(first, 0);
    let second = heap.kmalloc(200);
    assert!(second > first + 100);
    heap.kfree(first);
    let table = heap.chunk_table();
    assert!(!table[0].2);
    assert_eq!(table[0].0 + 8, first);
    let third = heap.kmalloc(50);
    assert_eq!(third, first);
}

#[test]
fn heap_coalesce_forward() {
    let mut m = fresh();
    let mut heap = KernelHeap::init(&mut m, HEAP_PAGES).unwrap();
    let first = heap.kmalloc(100);
    let second = heap.kmalloc(100);
    assert_ne!(second, 0);
    heap.kfree(second);
    heap.kfree(first);
    let table = heap.chunk_table();
    assert_eq!(table.len(), 1);
    assert_eq!(table[0], (first - 8, (HEAP_PAGES as u64) * 4096, false));
    let again = heap.kmalloc(250);
    assert_eq!(again, first);
}

#[test]
fn heap_no_backward_coalesce() {
    let mut m = fresh();
    let mut heap = KernelHeap::init(&mut m, HEAP_PAGES).unwrap();
    let first = heap.kmalloc(8);
    let second = heap.kmalloc(8);
    let _third = heap.kmalloc(8);
    heap.kfree(first);
    heap.kfree(second);
    let table = heap.chunk_table();
    // second merged with nothing behind it: both 16-byte chunks stay apart
    assert_eq!(table.len(), 4);
    assert_eq!(table[0], (first - 8, 16, false));
    assert_eq!(table[1], (second - 8, 16, false));
    assert!(table[2].2);
}

#[test]
fn heap_sizes_round_to_eight_plus_header() {
    let mut m = fresh();
    let mut heap = KernelHeap::init(&mut m, 1).unwrap();
    let p = heap.kmalloc(1);
    let q = heap.kmalloc(0);
    let table = heap.chunk_table();
    assert_eq!(table[0], (p - 8, 16, true));
    assert_eq!(table[1], (q - 8, 8, true));
    assert_eq!(table[2], (q, 4096 - 24, false));
    let sum: u64 = table.iter().map(|c| c.1).sum();
    assert_eq!(sum, 4096);
}

#[test]
fn heap_exact_fit_takes_whole_chunk() {
    let mut m = fresh();
    let mut heap = KernelHeap::init(&mut m, 1).unwrap();
    let p = heap.kmalloc(4096 - 8);
    assert_ne!(p, 0);
    let table = heap.chunk_table();
    assert_eq!(table, vec![(p - 8, 4096, true)]);
    assert_eq!(heap.kmalloc(1), 0);
}

#[test]
fn heap_exhaustion() {
    let mut m = fresh();
    let mut heap = KernelHeap::init(&mut m, HEAP_PAGES).unwrap();
    assert_eq!(heap.kmalloc(HEAP_PAGES * 4096), 0);
    assert_eq!(heap.kmalloc(usize::MAX), 0);
    assert_eq!(heap.chunk_table().len(), 1);
}

#[test]
fn heap_free_then_same_request_fits() {
    let mut m = fresh();
    let mut heap = KernelHeap::init(&mut m, 1).unwrap();
    let p = heap.kmalloc(2000);
    let _q = heap.kmalloc(2000);
    assert_eq!(heap.kmalloc(2000), 0);
    heap.kfree(p);
    let r = heap.kmalloc(2000);
    assert_eq!(r, p);
    heap.kfree(0);
}

#[test]
fn heap_init_takes_frames() {
    let mut m = fresh();
    let heap = KernelHeap::init(&mut m, HEAP_PAGES).unwrap();
    assert_eq!(heap.base, 0x8010_1000);
    assert_eq!(count_taken(&m), HEAP_PAGES);
    assert!(KernelHeap::init(&mut m, 511).is_none());
}

#[test]
fn frame_exhaustion() {
    let mut m = fresh();
    let mut count = 0;
    while m.alloc_pages(1) != 0 {
        count += 1;
    }
    assert_eq!(count, m.get_num_allocations());
}

#[test]
fn frame_alloc_first_fit_and_descriptors() {
    let mut m = fresh();
    let a = m.alloc_pages(3);
    assert_eq!(a, 0x8010_1000);
    assert_eq!(m.descs[0], TAKEN);
    assert_eq!(m.descs[1], TAKEN);
    assert_eq!(m.descs[2], TAKEN | LAST);
    assert_eq!(m.descs[3], 0);
    let b = m.alloc_pages(2);
    assert_eq!(b, 0x8010_4000);
    m.dealloc(a);
    // a 2-frame request fits in the hole left at the front
    assert_eq!(m.alloc_pages(2), 0x8010_1000);
    // a 2-frame request no longer fits there: the next run is after b
    assert_eq!(m.alloc_pages(2), 0x8010_6000);
}

#[test]
fn alloc_then_dealloc_restores_descriptors() {
    let mut m = fresh();
    let _keep = m.alloc_pages(5);
    let before = m.descs.clone();
    let p = m.alloc_pages(7);
    assert_ne!(p, 0);
    m.dealloc(p);
    assert_eq!(m.descs, before);
    m.dealloc(0);
    assert_eq!(m.descs, before);
}

#[test]
fn alloc_too_large_fails() {
    let mut m = fresh();
    assert_eq!(m.alloc_pages(512), 0);
    assert_eq!(m.alloc_pages(511), 0x8010_1000);
    assert_eq!(m.alloc_pages(1), 0);
}

#[test]
fn zalloc_zeroes_frames() {
    let mut m = fresh();
    for w in m.words.iter_mut().take(2 * 512) {
        *w = 0xdead_beef;
    }
    let p = m.zalloc(2);
    assert_eq!(p, 0x8010_1000);
    assert!(m.words[..1024].iter().all(|w| *w == 0));
    let q = m.alloc_pages(1);
    assert_eq!(q, 0x8010_3000);
}

#[test]
fn satp_for_sv39() {
    assert_eq!(build_satp(SatpMode::Sv39, 0, 0x8010_1000), (8u64 << 60) | 0x80101);
    assert_eq!(build_satp(SatpMode::Off, 0, 0), 0);
    assert_eq!(
        build_satp(SatpMode::Sv48, 5, 0x8000_0000),
        (9u64 << 60) | (5u64 << 44) | 0x80000
    );
}

fn count_taken(m: &PhysMem) -> usize {
    m.descs.iter().filter(|d| **d != 0).count()
}

fn level0_table(m: &PhysMem, root: u64, va: u64) -> usize {
    let rf = ((root - m.head) / 4096) as usize;
    let e2 = m.words[rf * 512 + ((va >> 30) & 0x1ff) as usize];
    let t1 = ((((e2 >> 10) << 12) - m.head) / 4096) as usize;
    let e1 = m.words[t1 * 512 + ((va >> 21) & 0x1ff) as usize];
    ((((e1 >> 10) << 12) - m.head) / 4096) as usize
}

fn layout() -> rvkernel::KernelLayout {
    rvkernel::KernelLayout {
        text_start: 0x8000_0000,
        text_end: 0x8000_6000,
        rodata_start: 0x8000_6000,
        rodata_end: 0x8000_8000,
        data_start: 0x8000_8000,
        data_end: 0x8000_9000,
        bss_start: 0x8000_9000,
        bss_end: 0x8000_a000,
        stack_start: 0x8000_a000,
        stack_end: 0x8008_a000,
        trap_frame: 0x8008_a000,
        trap_frame_size: 0x218,
    }
}

#[test]
fn kinit_builds_identity_map() {
    let k = rvkernel::kinit(HEAP_START, HEAP_SIZE, &layout()).ok().unwrap();
    assert_eq!(k.satp, (8u64 << 60) | (k.root >> 12));
    for a in [
        0x8000_0000u64,
        0x8000_7abc,
        0x8008_9ff8,
        0x8010_0000,
        0x802f_ffff,
        0x1000_0000,
        0x0200_bff8,
        0x0c00_2000,
        0x0c20_8000,
        0x8008_a210,
    ] {
        assert_eq!(virt_to_phys(&k.mem, k.root, a), Some(a));
    }
    assert_eq!(virt_to_phys(&k.mem, k.root, 0x1000_1000), None);
    assert_eq!(virt_to_phys(&k.mem, k.root, 0x0c00_3000), None);
    assert_eq!(virt_to_phys(&k.mem, k.root, 0x8009_3000), None);
    // heap frames come first, then the root
    assert_eq!(k.heap.base, 0x8010_1000);
    assert_eq!(k.root, 0x8010_1000 + (HEAP_PAGES as u64) * 4096);
    assert_eq!(virt_to_phys(&k.mem, k.root, k.trap_stack - 8), Some(k.trap_stack - 8));
    assert_eq!(k.heap.chunk_table().len(), 1);
}

#[test]
fn kinit_fails_when_frames_run_out() {
    let m = rvkernel::kinit(HEAP_START, 64 * 4096, &layout()).err().unwrap();
    assert_eq!(m.get_num_allocations(), 63);
    assert_eq!(m.get_head(), HEAP_START + 4096);
    assert!(m.descs.iter().all(|d| *d == 0));
}

#[test]
fn unmap_returns_tables() {
    let mut m = fresh();
    let root = rvkernel::paging::new_root(&mut m);
    let before = m.descs.clone();
    assert!(rvkernel::paging::map(&mut m, root, 0x8000_0000, 0x8000_0000, READ_WRITE, 0));
    assert!(rvkernel::paging::map(&mut m, root, 0x4000_0000, 0x8000_0000, READ_WRITE, 0));
    assert!(rvkernel::paging::map(&mut m, root, 0x4020_0000, 0x8000_0000, READ_WRITE, 0));
    let target = m.alloc_pages(1);
    assert_eq!(count_taken(&m), count_taken_of(&before) + 5 + 1);
    rvkernel::paging::unmap(&mut m, root);
    assert_eq!(count_taken(&m), count_taken_of(&before) + 1);
    m.dealloc(target);
    assert_eq!(m.descs, before);
}

#[test]
fn new_root_is_empty() {
    let mut m = fresh();
    let root = rvkernel::paging::new_root(&mut m);
    assert_eq!(root, 0x8010_1000);
    assert_eq!(virt_to_phys(&m, root, 0), None);
    assert_eq!(virt_to_phys(&m, root, 0x8010_1000), None);
}

#[test]
fn zalloc_keep_leaves_translations() {
    let mut m = fresh();
    let root = rvkernel::paging::new_root(&mut m);
    assert!(rvkernel::paging::map(&mut m, root, 0x5000, 0x6000, READ_WRITE, 0));
    let p = rvkernel::paging::zalloc_keep(&mut m, root, 2);
    assert_eq!(p, 0x8010_1000 + 3 * 4096);
    assert_eq!(virt_to_phys(&m, root, 0x5004), Some(0x6004));
}

#[test]
fn trap_decisions() {
    let irq = 1u64 << 63;
    let d = decide_trap(irq | 7, 0x100);
    assert_eq!((d.action, d.return_pc), (TrapAction::Timer, 0x100));
    assert_eq!(decide_trap(irq | 3, 0x100).action, TrapAction::MachineSoftware);
    assert_eq!(decide_trap(irq | 11, 0x100).action, TrapAction::External);
    assert_eq!(decide_trap(irq | 5, 0x100).action, TrapAction::UnhandledAsync);
    let d = decide_trap(8, 0x200);
    assert_eq!((d.action, d.return_pc), (TrapAction::UserEcall, 0x204));
    assert_eq!(decide_trap(9, 0x200).return_pc, 0x204);
    let d = decide_trap(12, u64::MAX - 1);
    assert_eq!((d.action, d.return_pc), (TrapAction::InstructionPageFault, 2));
    assert_eq!(decide_trap(13, 0x300).return_pc, 0x304);
    assert_eq!(decide_trap(15, 0x300).action, TrapAction::StorePageFault);
    let d = decide_trap(2, 0x400);
    assert_eq!((d.action, d.return_pc), (TrapAction::IllegalInstruction, 0x400));
    assert!(d.action.is_fatal());
    assert!(decide_trap(11, 0).action.is_fatal());
    assert_eq!(decide_trap(14, 0).action, TrapAction::UnhandledSync);
    assert!(!decide_trap(13, 0).action.is_fatal());
    // only the low 12 bits name the cause
    assert_eq!(decide_trap(0x1000 | 8, 0).action, TrapAction::UserEcall);
}

#[test]
fn timer_and_echo() {
    assert_eq!(next_timer(5), 10_000_005);
    assert_eq!(next_timer(u64::MAX), 9_999_999);
    assert_eq!(echo_for(8), Echo::Erase);
    assert_eq!(echo_for(10), Echo::NewLine);
    assert_eq!(echo_for(13), Echo::NewLine);
    assert_eq!(echo_for(b'x'), Echo::Show(b'x'));
}

fn count_taken_of(d: &[u8]) -> usize {
    d.iter().filter(|x| **x != 0).count()
}

#[test]
fn frame_accounting_counts() {
    let mut m = fresh();
    let sizes = [3usize, 1, 7, 2];
    let mut addrs = Vec::new();
    for n in sizes {
        addrs.push(m.alloc_pages(n));
    }
    let last = m.descs.iter().filter(|d| **d & LAST != 0).count();
    assert_eq!(count_taken(&m), 13);
    assert_eq!(last, 4);
    m.dealloc(addrs[2]);
    let last = m.descs.iter().filter(|d| **d & LAST != 0).count();
    assert_eq!(count_taken(&m), 6);
    assert_eq!(last, 3);
    // each remaining allocation is contiguous and ends in its LAST frame
    let first = ((addrs[0] - m.head) / 4096) as usize;
    assert_eq!(&m.descs[first..first + 3], &[TAKEN, TAKEN, TAKEN | LAST]);
}

#[test]
fn heap_chunks_cover_region() {
    let mut m = fresh();
    let mut heap = KernelHeap::init(&mut m, 4).unwrap();
    let a = heap.kmalloc(100);
    let b = heap.kmalloc(3000);
    let c = heap.kmalloc(17);
    heap.kfree(b);
    let d = heap.kmalloc(40);
    heap.kfree(a);
    heap.kfree(c);
    assert_ne!(d, 0);
    let table = heap.chunk_table();
    let total: u64 = table.iter().map(|t| t.1).sum();
    assert_eq!(total, 4 * 4096);
    let mut next = heap.base;
    for (addr, size, _) in &table {
        assert_eq!(*addr, next);
        assert!(*size >= 8 && *size % 8 == 0);
        next += size;
    }
    assert_eq!(next, heap.base + 4 * 4096);
}

#[test]
fn kinit_descriptors_and_trap_stack() {
    let k = rvkernel::kinit(HEAP_START, HEAP_SIZE, &layout()).ok().unwrap();
    let n = HEAP_PAGES;
    assert!(k.mem.descs[..n - 1].iter().all(|d| *d == TAKEN));
    assert_eq!(k.mem.descs[n - 1], TAKEN | LAST);
    assert_eq!(k.mem.descs[n], TAKEN | LAST);
    let s = ((k.trap_stack - 4096 - k.mem.head) / 4096) as usize;
    assert_eq!(k.mem.descs[s], TAKEN | LAST);
    assert!(k.mem.words[s * 512..s * 512 + 512].iter().all(|w| *w == 0));
    // every other taken frame is a one-frame table allocation
    let lasts = k.mem.descs.iter().filter(|d| **d == TAKEN | LAST).count();
    assert_eq!(count_taken(&k.mem), (n - 1) + lasts);
    // text is read-execute, data read-write
    let t0 = level0_table(&k.mem, k.root, 0x8000_0000);
    assert_eq!(k.mem.words[t0 * 512], ((0x8000_0000u64 >> 12) << 10) | READ_EXECUTE);
    let d = level0_table(&k.mem, k.root, 0x8000_8000);
    assert_eq!(k.mem.words[d * 512 + 8], ((0x8000_8000u64 >> 12) << 10) | READ_WRITE);
}
