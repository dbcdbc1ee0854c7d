use vstd::prelude::*;

verus! {

/// Size of a frame and of a page, in bytes.
pub const PAGE_SIZE: usize = 4096;

/// log2 of `PAGE_SIZE`.
pub const PAGE_ORDER: usize = 12;

/// Number of 64-bit words in one frame.
pub const WORDS_PER_PAGE: usize = 512;

/// Descriptor bit: the frame is allocated.
pub const TAKEN: u8 = 1;

/// Descriptor bit: the frame ends a contiguous allocation.
pub const LAST: u8 = 2;

/// Descriptor of the final frame of an allocation: `TAKEN | LAST`.
pub const TAKEN_LAST: u8 = 3;

/// Physical addresses must fit in the 56 bits that an Sv39 entry can name.
pub const PHYS_LIMIT: u64 = 0x0100_0000_0000_0000;

/// Frames needed for the descriptor bytes of `n` frames: one byte per frame.
pub open spec fn reserved_frames(n: nat) -> nat {
    (n + 4095) / 4096
}

/// Physical address of allocatable frame `i`.
pub open spec fn frame_addr(head: int, i: int) -> int {
    head + i * 4096
}

/// Frames `i .. i + n` exist and are all untaken.
pub open spec fn is_free_run(s: Seq<u8>, i: int, n: int) -> bool {
    &&& 0 <= i
    &&& i + n <= s.len()
    &&& forall|j: int| i <= j < i + n ==> s[j] == 0
}

/// `i` is where a first-fit scan finds `n` free frames.
pub open spec fn is_first_fit(s: Seq<u8>, i: int, n: int) -> bool {
    &&& is_free_run(s, i, n)
    &&& forall|k: int| 0 <= k < i ==> !is_free_run(s, k, n)
}

/// The descriptors after frames `i .. i + n` are handed out as one allocation.
pub open spec fn mark_run(s: Seq<u8>, i: int, n: int) -> Seq<u8> {
    Seq::new(
        s.len(),
        |j: int|
            if i <= j < i + n - 1 {
                TAKEN
            } else if j == i + n - 1 {
                TAKEN_LAST
            } else {
                s[j]
            },
    )
}

/// The descriptors after frames `i .. i + n` are returned.
pub open spec fn clear_run(s: Seq<u8>, i: int, n: int) -> Seq<u8> {
    Seq::new(s.len(), |j: int| if i <= j < i + n { 0u8 } else { s[j] })
}

/// Words `from .. from + n` set to zero.
pub open spec fn zero_words(w: Seq<u64>, from: int, n: int) -> Seq<u64> {
    Seq::new(w.len(), |j: int| if from <= j < from + n { 0u64 } else { w[j] })
}

/// Frames `i .. i + k` form one outstanding allocation that starts at `i`.
pub open spec fn is_allocation(s: Seq<u8>, i: int, k: int) -> bool {
    &&& 0 <= i
    &&& 1 <= k
    &&& i + k <= s.len()
    &&& i == 0 || s[i - 1] != TAKEN
    &&& forall|j: int| i <= j < i + k - 1 ==> s[j] == TAKEN
    &&& s[i + k - 1] == TAKEN_LAST
}

/// Descriptors are valid and every frame taken without `LAST` is followed by a taken frame.
pub open spec fn descs_wf(s: Seq<u8>) -> bool {
    &&& forall|j: int| 0 <= j < s.len() ==> (s[j] == 0 || s[j] == TAKEN || s[j] == TAKEN_LAST)
    &&& forall|j: int|
        0 <= j < s.len() && #[trigger] s[j] == TAKEN ==> j + 1 < s.len() && s[j + 1] != 0
}

/// Handing out a free run and returning it restores the descriptors exactly:
/// the marked run is one allocation starting at `i`, and clearing it gives
/// back `s`.
pub proof fn lemma_alloc_dealloc_restores(s: Seq<u8>, i: int, n: int)
    requires
        descs_wf(s),
        n > 0,
        is_free_run(s, i, n),
    ensures
        is_allocation(mark_run(s, i, n), i, n),
        descs_wf(mark_run(s, i, n)),
        clear_run(mark_run(s, i, n), i, n) == s,
{
    let t = mark_run(s, i, n);
    if i > 0 {
        assert(s[i] == 0);
        assert(s[i - 1] != TAKEN);
    }
    assert forall|j: int| 0 <= j < t.len() && #[trigger] t[j] == TAKEN implies j + 1 < t.len()
        && t[j + 1] != 0 by {
        if !(i <= j < i + n - 1) {
            assert(s[j] == TAKEN);
        }
    }
    assert(clear_run(t, i, n) =~= s);
}

/// Number of `TAKEN` frames among the descriptors.
pub open spec fn count_taken(s: Seq<u8>) -> nat
    decreases s.len(),
{
    if s.len() == 0 {
        0
    } else {
        count_taken(s.drop_last()) + if s.last() != 0 {
            1nat
        } else {
            0nat
        }
    }
}

/// Number of `LAST` frames among the descriptors: one per allocation.
pub open spec fn count_last(s: Seq<u8>) -> nat
    decreases s.len(),
{
    if s.len() == 0 {
        0
    } else {
        count_last(s.drop_last()) + if s.last() == TAKEN_LAST {
            1nat
        } else {
            0nat
        }
    }
}

proof fn lemma_count_run(s: Seq<u8>, i: int, n: int)
    requires
        n > 0,
        is_free_run(s, i, n),
    ensures
        count_taken(mark_run(s, i, n)) == count_taken(s) + n,
        count_last(mark_run(s, i, n)) == count_last(s) + 1,
    decreases s.len(),
{
    let t = mark_run(s, i, n);
    let l = s.len() - 1;
    if i + n == s.len() {
        assert(t.last() == TAKEN_LAST);
        if n == 1 {
            assert(t.drop_last() =~= s.drop_last());
        } else {
            let s1 = s.drop_last();
            assert(is_free_run(s1, i, n - 1));
            lemma_count_run(s1, i, n - 1);
            let t1 = mark_run(s1, i, n - 1);
            assert(t.drop_last() =~= t1.update(i + n - 2, TAKEN));
            lemma_count_set(t1, i + n - 2, TAKEN);
        }
    } else {
        let s1 = s.drop_last();
        lemma_count_run(s1, i, n);
        assert(t.drop_last() =~= mark_run(s1, i, n));
        assert(t.last() == s.last());
    }
}

/// Turning one `LAST` descriptor into plain `TAKEN` drops one `LAST` and
/// keeps the taken count.
proof fn lemma_count_set(t: Seq<u8>, j: int, v: u8)
    requires
        0 <= j < t.len(),
        t[j] == TAKEN_LAST,
        v == TAKEN,
    ensures
        count_taken(t.update(j, v)) == count_taken(t),
        count_last(t.update(j, v)) + 1 == count_last(t),
    decreases t.len(),
{
    let u = t.update(j, v);
    if j == t.len() - 1 {
        assert(u.drop_last() =~= t.drop_last());
    } else {
        lemma_count_set(t.drop_last(), j, v);
        assert(u.drop_last() =~= t.drop_last().update(j, v));
    }
}

/// Frame accounting: handing out a free run of `n` frames adds exactly `n`
/// taken frames and one `LAST` frame, and returning that allocation takes
/// them away again, so the taken frames always number the sizes of the
/// outstanding allocations and the `LAST` frames their count.
pub proof fn lemma_frame_accounting(s: Seq<u8>, i: int, n: int)
    requires
        descs_wf(s),
        n > 0,
        is_free_run(s, i, n),
    ensures
        count_taken(mark_run(s, i, n)) == count_taken(s) + n,
        count_last(mark_run(s, i, n)) == count_last(s) + 1,
        count_taken(clear_run(mark_run(s, i, n), i, n)) == count_taken(s),
        count_last(clear_run(mark_run(s, i, n), i, n)) == count_last(s),
{
    lemma_count_run(s, i, n);
    lemma_alloc_dealloc_restores(s, i, n);
}

/// At most every frame is taken.
pub proof fn lemma_count_bound(s: Seq<u8>)
    ensures
        count_taken(s) <= s.len(),
    decreases s.len(),
{
    if s.len() > 0 {
        lemma_count_bound(s.drop_last());
    }
}

/// With no free frame left, every frame is taken.
pub proof fn lemma_count_full(s: Seq<u8>)
    requires
        forall|k: int| !is_free_run(s, k, 1),
    ensures
        count_taken(s) == s.len(),
    decreases s.len(),
{
    if s.len() > 0 {
        let t = s.drop_last();
        assert forall|k: int| !is_free_run(t, k, 1) by {
            if is_free_run(t, k, 1) {
                assert(t[k] == s[k]);
                assert(is_free_run(s, k, 1));
            }
        }
        lemma_count_full(t);
        assert(!is_free_run(s, s.len() - 1, 1));
    }
}

/// Physical memory managed as 4 KiB frames: one descriptor byte per allocatable
/// frame, and the contents of those frames as 64-bit words.
pub struct PhysMem {
    pub heap_start: u64,
    pub heap_size: u64,
    pub head: u64,
    pub descs: Vec<u8>,
    pub words: Vec<u64>,
}

impl PhysMem {
    pub open spec fn num_frames(&self) -> nat {
        self.descs@.len()
    }

    /// One past the last byte of the allocatable frames.
    pub open spec fn end(&self) -> int {
        frame_addr(self.head as int, self.num_frames() as int)
    }

    pub open spec fn wf(&self) -> bool {
        &&& self.heap_start > 0
        &&& self.heap_start % 4096 == 0
        &&& self.heap_start + self.heap_size <= PHYS_LIMIT
        &&& self.heap_size <= usize::MAX
        &&& self.num_frames() + reserved_frames((self.heap_size / 4096) as nat)
            == self.heap_size / 4096
        &&& self.head == frame_addr(
            self.heap_start as int,
            reserved_frames((self.heap_size / 4096) as nat) as int,
        )
        &&& self.end() <= self.heap_start + self.heap_size
        &&& self.words@.len() == self.num_frames() * 512
        &&& descs_wf(self.descs@)
    }

    /// Word `w` of frame `f`.
    pub open spec fn word(&self, f: int, w: int) -> u64 {
        self.words@[f * 512 + w]
    }

    /// Manage `[heap_start, heap_start + heap_size)`: the first frames hold the
    /// descriptors, the rest are allocatable, untaken and zero.
    pub fn new(heap_start: u64, heap_size: u64) -> (r: PhysMem)
        requires
            heap_size <= usize::MAX,
            heap_start > 0,
            heap_start % 4096 == 0,
            heap_start + heap_size <= PHYS_LIMIT,
        ensures
            r.wf(),
            r.heap_start == heap_start,
            r.heap_size == heap_size,
            r.num_frames() == heap_size / 4096 - reserved_frames((heap_size / 4096) as nat),
            r.head == heap_start + reserved_frames((heap_size / 4096) as nat) * 4096,
            forall|j: int| 0 <= j < r.num_frames() ==> r.descs@[j] == 0,
            forall|j: int| 0 <= j < r.words@.len() ==> r.words@[j] == 0,
    {
        let total: u64 = heap_size / 4096;
        let reserved: u64 = (total + 4095) / 4096;
        assert(reserved <= total) by {
            assert(total == 0 || (total + 4095) / 4096 <= total);
        }
        let n: usize = (total - reserved) as usize;
        let head: u64 = heap_start + reserved * 4096;
        assert(head + n * 4096 <= heap_start + heap_size) by (nonlinear_arith)
            requires
                head == heap_start + reserved * 4096,
                n + reserved == total,
                total == heap_size / 4096,
        {}
        let mut descs: Vec<u8> = Vec::new();
        let mut i: usize = 0;
        while i < n
            invariant
                i <= n,
                descs@.len() == i,
                forall|j: int| 0 <= j < i ==> descs@[j] == 0,
            decreases n - i,
        {
            descs.push(0);
            i = i + 1;
        }
        assert(n * 512 <= usize::MAX) by (nonlinear_arith)
            requires
                n <= heap_size / 4096,
                heap_size <= usize::MAX,
        {}
        let nw = n * WORDS_PER_PAGE;
        let mut words: Vec<u64> = Vec::new();
        let mut w: usize = 0;
        while w < nw
            invariant
                w <= nw,
                words@.len() == w,
                forall|j: int| 0 <= j < w ==> words@[j] == 0,
            decreases nw - w,
        {
            words.push(0);
            w = w + 1;
        }
        PhysMem { heap_start, heap_size, head, descs, words }
    }

    /// First-fit scan: the first index of `pages` consecutive untaken frames.
    fn find_run(&self, pages: usize) -> (r: Option<usize>)
        requires
            self.wf(),
            pages > 0,
        ensures
            r matches Some(i) ==> is_first_fit(self.descs@, i as int, pages as int),
            r is None ==> forall|k: int| !is_free_run(self.descs@, k, pages as int),
    {
        let n = self.descs.len();
        let ghost s = self.descs@;
        let mut count: usize = 0;
        let mut j: usize = 0;
        while j < n
            invariant
                s == self.descs@,
                n == s.len(),
                j <= n,
                count < pages,
                count <= j,
                forall|k: int| j - count <= k < j ==> s[k] == 0,
                j - count == 0 || s[j - count - 1] != 0,
                forall|k: int| 0 <= k && k + pages <= j ==> !is_free_run(s, k, pages as int),
            decreases n - j,
        {
            let ghost old_count = count;
            if self.descs[j] == 0 {
                count = count + 1;
            } else {
                count = 0;
            }
            assert forall|k: int| 0 <= k && k + pages <= j + 1 && count < pages implies !is_free_run(
                s,
                k,
                pages as int,
            ) by {
                if k + pages == j + 1 {
                    if s[j as int] != 0 {
                        assert(!(s[j as int] == 0));
                    } else {
                        let w = j - old_count - 1;
                        assert(s[w] != 0);
                        assert(k <= w < k + pages);
                    }
                }
            }
            if count == pages {
                let start = j + 1 - pages;
                assert forall|k: int| 0 <= k < start implies !is_free_run(s, k, pages as int) by {
                    assert(k + pages <= j);
                }
                return Some(start);
            }
            j = j + 1;
        }
        assert forall|k: int| is_free_run(s, k, pages as int) implies false by {
            assert(k + pages <= j);
        }
        None
    }

    /// Hand out frames `i .. i + pages`: all `TAKEN`, the final one also `LAST`.
    fn mark(&mut self, i: usize, pages: usize)
        requires
            old(self).wf(),
            pages > 0,
            is_free_run(old(self).descs@, i as int, pages as int),
        ensures
            final(self).wf(),
            final(self).descs@ == mark_run(old(self).descs@, i as int, pages as int),
            final(self).words@ == old(self).words@,
            final(self).heap_start == old(self).heap_start,
            final(self).heap_size == old(self).heap_size,
            final(self).head == old(self).head,
    {
        let ghost s = self.descs@;
        let last = i + pages - 1;
        let mut j: usize = i;
        while j < last
            invariant
                i <= j <= last,
                last == i + pages - 1,
                last < s.len(),
                self.descs@.len() == s.len(),
                self.words@ == old(self).words@,
                self.heap_start == old(self).heap_start,
                self.heap_size == old(self).heap_size,
                self.head == old(self).head,
                forall|k: int|
                    0 <= k < s.len() ==> self.descs@[k] == if i <= k < j {
                        TAKEN
                    } else {
                        s[k]
                    },
            decreases last - j,
        {
            self.descs.set(j, TAKEN);
            j = j + 1;
        }
        self.descs.set(last, TAKEN_LAST);
        assert(self.descs@ =~= mark_run(s, i as int, pages as int));
        let ghost t = self.descs@;
        assert forall|k: int| 0 <= k < t.len() && #[trigger] t[k] == TAKEN implies k + 1 < t.len()
            && t[k + 1] != 0 by {
            if !(i <= k < last) {
                assert(s[k] == TAKEN);
            }
        }
    }

    /// Allocate `pages` contiguous frames, first fit; 0 when no run is free.
    pub fn alloc_pages(&mut self, pages: usize) -> (r: u64)
        requires
            old(self).wf(),
            pages > 0,
        ensures
            final(self).wf(),
            final(self).words@ == old(self).words@,
            final(self).heap_start == old(self).heap_start,
            final(self).heap_size == old(self).heap_size,
            final(self).head == old(self).head,
            (r != 0) <==> exists|k: int| is_free_run(old(self).descs@, k, pages as int),
            r == 0 ==> final(self).descs@ == old(self).descs@,
            r != 0 ==> exists|i: int|
                is_first_fit(old(self).descs@, i, pages as int) && r == frame_addr(
                    old(self).head as int,
                    i,
                ) && final(self).descs@ == mark_run(old(self).descs@, i, pages as int)
                    && is_allocation(final(self).descs@, i, pages as int),
    {
        match self.find_run(pages) {
            None => 0,
            Some(i) => {
                proof {
                    lemma_alloc_dealloc_restores(self.descs@, i as int, pages as int);
                }
                self.mark(i, pages);
                self.addr_of(i)
            },
        }
    }

    /// As `alloc_pages`, and every word of the frames handed out is zero.
    pub fn zalloc(&mut self, pages: usize) -> (r: u64)
        requires
            old(self).wf(),
            pages > 0,
        ensures
            final(self).wf(),
            final(self).heap_start == old(self).heap_start,
            final(self).heap_size == old(self).heap_size,
            final(self).head == old(self).head,
            (r != 0) <==> exists|k: int| is_free_run(old(self).descs@, k, pages as int),
            r == 0 ==> final(self).descs@ == old(self).descs@ && final(self).words@
                == old(self).words@,
            r != 0 ==> exists|i: int|
                is_first_fit(old(self).descs@, i, pages as int) && r == frame_addr(
                    old(self).head as int,
                    i,
                ) && final(self).descs@ == mark_run(old(self).descs@, i, pages as int)
                    && final(self).words@ == zero_words(old(self).words@, i * 512, pages * 512),
    {
        match self.find_run(pages) {
            None => 0,
            Some(i) => {
                self.mark(i, pages);
                assert(i * 512 + pages * 512 <= self.words@.len()) by (nonlinear_arith)
                    requires
                        i + pages <= self.num_frames(),
                        self.words@.len() == self.num_frames() * 512,
                {}
                let from = i * WORDS_PER_PAGE;
                let to = from + pages * WORDS_PER_PAGE;
                let ghost w0 = self.words@;
                let mut j: usize = from;
                while j < to
                    invariant
                        from <= j <= to,
                        to <= w0.len(),
                        self.words@.len() == w0.len(),
                        self.descs@ == mark_run(old(self).descs@, i as int, pages as int),
                        self.wf(),
                        self.heap_start == old(self).heap_start,
                        self.heap_size == old(self).heap_size,
                        self.head == old(self).head,
                        forall|k: int|
                            0 <= k < w0.len() ==> self.words@[k] == if from <= k < j {
                                0u64
                            } else {
                                w0[k]
                            },
                    decreases to - j,
                {
                    self.words.set(j, 0);
                    j = j + 1;
                }
                assert(self.words@ =~= zero_words(w0, i * 512, pages * 512));
                self.addr_of(i)
            },
        }
    }

    /// Return the allocation that starts at `addr`; a null `addr` is ignored.
    /// `addr` must be the first frame of an outstanding allocation.
    pub fn dealloc(&mut self, addr: u64)
        requires
            old(self).wf(),
            addr == 0 || exists|i: int, k: int|
                addr == frame_addr(old(self).head as int, i) && is_allocation(
                    old(self).descs@,
                    i,
                    k,
                ),
        ensures
            final(self).wf(),
            final(self).words@ == old(self).words@,
            final(self).heap_start == old(self).heap_start,
            final(self).heap_size == old(self).heap_size,
            final(self).head == old(self).head,
            addr == 0 ==> final(self).descs@ == old(self).descs@,
            forall|i: int, k: int|
                addr == frame_addr(old(self).head as int, i) && is_allocation(
                    old(self).descs@,
                    i,
                    k,
                ) ==> final(self).descs@ == clear_run(old(self).descs@, i, k),
    {
        if addr == 0 {
            assert forall|i: int, k: int|
                addr == frame_addr(old(self).head as int, i) && is_allocation(
                    old(self).descs@,
                    i,
                    k,
                ) implies false by {
                assert(self.head + i * 4096 > 0) by (nonlinear_arith)
                    requires self.head > 0, i >= 0,
                {}
            }
            return;
        }
        let ghost s = self.descs@;
        let ghost (gi, gk) = choose|i: int, k: int|
            addr == frame_addr(self.head as int, i) && is_allocation(s, i, k);
        let i = ((addr - self.head) / 4096) as usize;
        assert(i == gi) by (nonlinear_arith)
            requires
                addr == self.head + gi * 4096,
                gi >= 0,
                i == (addr - self.head) / 4096,
        {}
        let n = self.descs.len();
        let mut j: usize = i;
        while self.descs[j] != TAKEN_LAST
            invariant
                n == s.len(),
                i <= j < i + gk,
                is_allocation(s, i as int, gk),
                self.descs@.len() == s.len(),
                self.words@ == old(self).words@,
                self.heap_start == old(self).heap_start,
                self.heap_size == old(self).heap_size,
                self.head == old(self).head,
                forall|k: int|
                    0 <= k < s.len() ==> self.descs@[k] == if i <= k < j {
                        0u8
                    } else {
                        s[k]
                    },
            decreases i + gk - j,
        {
            assert(j < i + gk - 1);
            self.descs.set(j, 0);
            j = j + 1;
        }
        assert(j == i + gk - 1);
        self.descs.set(j, 0);
        assert(self.descs@ =~= clear_run(s, i as int, gk));
        let ghost t = self.descs@;
        assert forall|k: int| 0 <= k < t.len() && #[trigger] t[k] == TAKEN implies k + 1 < t.len()
            && t[k + 1] != 0 by {
            assert(s[k] == TAKEN);
            if k + 1 == i {
            }
        }
        assert forall|i2: int, k2: int|
            addr == frame_addr(old(self).head as int, i2) && is_allocation(
                old(self).descs@,
                i2,
                k2,
            ) implies self.descs@ == clear_run(old(self).descs@, i2, k2) by {
            assert(i2 == gi);
            if k2 < gk {
                assert(s[i2 + k2 - 1] == TAKEN);
            } else if k2 > gk {
                assert(s[i2 + gk - 1] == TAKEN);
            }
        }
    }

    /// Address of allocatable frame `i`.
    fn addr_of(&self, i: usize) -> (r: u64)
        requires
            self.wf(),
            i < self.num_frames(),
        ensures
            r == frame_addr(self.head as int, i as int),
            r > 0,
    {
        assert(self.head + i * 4096 < self.end()) by (nonlinear_arith)
            requires i < self.num_frames(), self.end() == self.head + self.num_frames() * 4096,
        {}
        self.head + (i as u64) * 4096
    }

    /// First allocatable frame's address, just past the descriptor frames.
    pub fn get_head(&self) -> (r: u64)
        ensures
            r == self.head,
    {
        self.head
    }

    /// Number of allocatable frames.
    pub fn get_num_allocations(&self) -> (r: usize)
        ensures
            r == self.num_frames(),
    {
        self.descs.len()
    }
}

} // verus!
