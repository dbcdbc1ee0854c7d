use vstd::prelude::*;
use crate::page::{PhysMem, frame_addr, zero_words, mark_run};

verus! {

/// Header bit 63: the chunk is allocated.
pub const CHUNK_TAKEN: u64 = 0x8000_0000_0000_0000;

/// Frames the kernel heap takes at initialisation.
pub const HEAP_PAGES: usize = 64;

/// A chunk of the heap: first word (its header), length in words, taken.
pub type Chunk = (int, int, bool);

/// The header word of a chunk of `bytes` bytes.
pub open spec fn tag(bytes: int, taken: bool) -> int {
    if taken {
        bytes + CHUNK_TAKEN
    } else {
        bytes
    }
}

/// Words a request of `n` bytes takes: rounded up to 8 bytes, plus the header.
pub open spec fn request_words(n: int) -> int {
    (n + 7) / 8 + 1
}

/// Chunk `c` can serve a request of `rw` words.
pub open spec fn fits(c: Chunk, rw: int) -> bool {
    !c.2 && c.1 >= rw
}

/// Chunk `k` is the first that can serve `rw` words.
pub open spec fn is_first_chunk_fit(cs: Seq<Chunk>, k: int, rw: int) -> bool {
    &&& 0 <= k < cs.len()
    &&& fits(cs[k], rw)
    &&& forall|j: int| 0 <= j < k ==> !fits(cs[j], rw)
}

/// The chunks after chunk `k` serves `rw` words: taken whole on an exact
/// fit, else cut in two with the rest left free.
pub open spec fn take_chunk(cs: Seq<Chunk>, k: int, rw: int) -> Seq<Chunk> {
    let c = cs[k];
    if c.1 == rw {
        cs.update(k, (c.0, c.1, true))
    } else {
        cs.take(k) + seq![(c.0, rw, true), (c.0 + rw, c.1 - rw, false)] + cs.skip(k + 1)
    }
}

/// The chunks after chunk `k` is freed and merged with the next one when
/// that one is free.
pub open spec fn free_chunk(cs: Seq<Chunk>, k: int) -> Seq<Chunk> {
    let c = cs[k];
    if k + 1 < cs.len() && !cs[k + 1].2 {
        cs.take(k) + seq![(c.0, c.1 + cs[k + 1].1, false)] + cs.skip(k + 2)
    } else {
        cs.update(k, (c.0, c.1, false))
    }
}

/// The chunks tile `[0, len)` in order, each at least a header long, and
/// each header word holds the chunk's byte length and state.
pub open spec fn chunks_wf(cs: Seq<Chunk>, w: Seq<u64>) -> bool {
    &&& cs.len() >= 1
    &&& cs[0].0 == 0
    &&& cs.last().0 + cs.last().1 == w.len()
    &&& forall|k: int| 0 <= k < cs.len() - 1 ==> #[trigger] cs[k + 1].0 == cs[k].0 + cs[k].1
    &&& forall|k: int| 0 <= k < cs.len() ==> #[trigger] cs[k].1 >= 1
    &&& forall|j: int, k: int| 0 <= j < k < cs.len() ==> cs[j].0 + cs[j].1 <= #[trigger] cs[k].0
        && #[trigger] cs[j].0 < cs[k].0
    &&& forall|k: int| 0 <= k < cs.len() ==> w[#[trigger] cs[k].0] as int == tag(cs[k].1 * 8, cs[k].2)
}

/// Every chunk lies inside the region.
proof fn lemma_chunk_in_range(cs: Seq<Chunk>, w: Seq<u64>, k: int)
    requires
        chunks_wf(cs, w),
        0 <= k < cs.len(),
    ensures
        0 <= cs[k].0,
        cs[k].0 + cs[k].1 <= w.len(),
{
    if k > 0 {
        assert(cs[0].0 < cs[k].0);
    }
    if k < cs.len() - 1 {
        assert(cs[k].0 + cs[k].1 <= cs[cs.len() - 1].0);
    }
}

/// Cutting a free chunk in two keeps the chunks well formed.
proof fn lemma_split_wf(cs: Seq<Chunk>, w0: Seq<u64>, w1: Seq<u64>, k: int, rw: int)
    requires
        chunks_wf(cs, w0),
        0 <= k < cs.len(),
        !cs[k].2,
        1 <= rw < cs[k].1,
        w0.len() * 8 < CHUNK_TAKEN,
        w1 == w0.update(cs[k].0, (rw * 8 + CHUNK_TAKEN) as u64).update(
            cs[k].0 + rw,
            ((cs[k].1 - rw) * 8) as u64,
        ),
    ensures
        chunks_wf(
            cs.take(k) + seq![(cs[k].0, rw, true), (cs[k].0 + rw, cs[k].1 - rw, false)] + cs.skip(
                k + 1,
            ),
            w1,
        ),
{
    let c = cs[k];
    let ncs = cs.take(k) + seq![(c.0, rw, true), (c.0 + rw, c.1 - rw, false)] + cs.skip(k + 1);
    lemma_chunk_in_range(cs, w0, k);
    assert(ncs.len() == cs.len() + 1);
    assert forall|j: int| 0 <= j < ncs.len() implies ncs[j] == if j < k {
        cs[j]
    } else if j == k {
        (c.0, rw, true)
    } else if j == k + 1 {
        (c.0 + rw, c.1 - rw, false)
    } else {
        cs[j - 1]
    } by {}
    assert forall|j: int| 0 <= j < ncs.len() - 1 implies #[trigger] ncs[j + 1].0 == ncs[j].0
        + ncs[j].1 by {
        if j < k {
            assert(cs[j + 1].0 == cs[j].0 + cs[j].1);
        } else if j > k + 1 {
            let p = j - 1;
            assert(cs[p + 1].0 == cs[p].0 + cs[p].1);
        } else if j == k + 1 {
            assert(cs[k + 1].0 == cs[k].0 + cs[k].1);
        }
    }
    assert forall|j: int| 0 <= j < ncs.len() implies #[trigger] ncs[j].1 >= 1 by {
        if j < k {
            assert(cs[j].1 >= 1);
        } else if j > k + 1 {
            assert(cs[j - 1].1 >= 1);
        }
    }
    assert forall|j: int, l: int| 0 <= j < l < ncs.len() implies ncs[j].0 + ncs[j].1
        <= #[trigger] ncs[l].0 && #[trigger] ncs[j].0 < ncs[l].0 by {
        let oj = if j <= k {
            j
        } else {
            j - 1
        };
        let ol = if l <= k {
            l
        } else {
            l - 1
        };
        if oj < ol {
            assert(cs[oj].0 + cs[oj].1 <= cs[ol].0 && cs[oj].0 < cs[ol].0);
        }
        if l > k + 1 && j <= k + 1 {
            assert(cs[k].0 + cs[k].1 <= cs[l - 1].0);
        }
    }
    assert forall|j: int| 0 <= j < ncs.len() implies w1[#[trigger] ncs[j].0] as int == tag(
        ncs[j].1 * 8,
        ncs[j].2,
    ) by {
        if j < k {
            assert(cs[j].0 + cs[j].1 <= cs[k].0 && cs[j].0 < cs[k].0);
            assert(w0[cs[j].0] as int == tag(cs[j].1 * 8, cs[j].2));
        } else if j > k + 1 {
            assert(cs[k].0 + cs[k].1 <= cs[j - 1].0 && cs[k].0 < cs[j - 1].0);
            assert(w0[cs[j - 1].0] as int == tag(cs[j - 1].1 * 8, cs[j - 1].2));
        }
    }
    assert(ncs.last() == ncs[ncs.len() - 1]);
    if k + 1 < cs.len() {
        assert(ncs[ncs.len() - 1] == cs[cs.len() - 1]);
    }
}

/// Setting the state of one chunk keeps the chunks well formed.
proof fn lemma_state_wf(cs: Seq<Chunk>, w0: Seq<u64>, w1: Seq<u64>, k: int, taken: bool)
    requires
        chunks_wf(cs, w0),
        0 <= k < cs.len(),
        w0.len() * 8 < CHUNK_TAKEN,
        w1 == w0.update(cs[k].0, tag(cs[k].1 * 8, taken) as u64),
    ensures
        chunks_wf(cs.update(k, (cs[k].0, cs[k].1, taken)), w1),
{
    let ncs = cs.update(k, (cs[k].0, cs[k].1, taken));
    lemma_chunk_in_range(cs, w0, k);
    assert forall|j: int| 0 <= j < ncs.len() implies w1[#[trigger] ncs[j].0] as int == tag(
        ncs[j].1 * 8,
        ncs[j].2,
    ) by {
        if j < k {
            assert(cs[j].0 < cs[k].0);
        } else if j > k {
            assert(cs[k].0 < cs[j].0);
        }
    }
    assert forall|j: int, l: int| 0 <= j < l < ncs.len() implies ncs[j].0 + ncs[j].1
        <= #[trigger] ncs[l].0 && #[trigger] ncs[j].0 < ncs[l].0 by {
        assert(cs[j].0 + cs[j].1 <= cs[l].0 && cs[j].0 < cs[l].0);
    }
    assert forall|j: int| 0 <= j < ncs.len() - 1 implies #[trigger] ncs[j + 1].0 == ncs[j].0
        + ncs[j].1 by {
        assert(cs[j + 1].0 == cs[j].0 + cs[j].1);
    }
    assert forall|j: int| 0 <= j < ncs.len() implies #[trigger] ncs[j].1 >= 1 by {
        assert(cs[j].1 >= 1);
    }
}

/// Merging a chunk with the free chunk after it keeps the chunks well formed.
proof fn lemma_merge_wf(cs: Seq<Chunk>, w0: Seq<u64>, w1: Seq<u64>, k: int)
    requires
        chunks_wf(cs, w0),
        0 <= k < cs.len() - 1,
        w0.len() * 8 < CHUNK_TAKEN,
        w1 == w0.update(cs[k].0, ((cs[k].1 + cs[k + 1].1) * 8) as u64),
    ensures
        chunks_wf(
            cs.take(k) + seq![(cs[k].0, cs[k].1 + cs[k + 1].1, false)] + cs.skip(k + 2),
            w1,
        ),
{
    let c = cs[k];
    let ncs = cs.take(k) + seq![(c.0, c.1 + cs[k + 1].1, false)] + cs.skip(k + 2);
    lemma_chunk_in_range(cs, w0, k + 1);
    assert(cs[k + 1].0 == cs[k].0 + cs[k].1);
    assert(ncs.len() == cs.len() - 1);
    assert forall|j: int| 0 <= j < ncs.len() implies ncs[j] == if j < k {
        cs[j]
    } else if j == k {
        (c.0, c.1 + cs[k + 1].1, false)
    } else {
        cs[j + 1]
    } by {}
    assert forall|j: int| 0 <= j < ncs.len() - 1 implies #[trigger] ncs[j + 1].0 == ncs[j].0
        + ncs[j].1 by {
        if j < k {
            assert(cs[j + 1].0 == cs[j].0 + cs[j].1);
        } else if j == k {
            let p = k + 1;
            assert(cs[p + 1].0 == cs[p].0 + cs[p].1);
        } else {
            let p = j + 1;
            assert(cs[p + 1].0 == cs[p].0 + cs[p].1);
        }
    }
    assert forall|j: int| 0 <= j < ncs.len() implies #[trigger] ncs[j].1 >= 1 by {
        if j < k {
            assert(cs[j].1 >= 1);
        } else if j > k {
            assert(cs[j + 1].1 >= 1);
        } else {
            assert(cs[k].1 >= 1);
        }
    }
    assert forall|j: int, l: int| 0 <= j < l < ncs.len() implies ncs[j].0 + ncs[j].1
        <= #[trigger] ncs[l].0 && #[trigger] ncs[j].0 < ncs[l].0 by {
        let oj = if j <= k {
            j
        } else {
            j + 1
        };
        let ol = if l <= k {
            l
        } else {
            l + 1
        };
        assert(cs[oj].0 + cs[oj].1 <= cs[ol].0 && cs[oj].0 < cs[ol].0);
        if j == k {
            assert(cs[k + 1].0 + cs[k + 1].1 <= cs[ol].0);
        }
    }
    assert forall|j: int| 0 <= j < ncs.len() implies w1[#[trigger] ncs[j].0] as int == tag(
        ncs[j].1 * 8,
        ncs[j].2,
    ) by {
        if j < k {
            assert(cs[j].0 < cs[k].0);
            assert(w0[cs[j].0] as int == tag(cs[j].1 * 8, cs[j].2));
        } else if j > k {
            assert(cs[k].0 < cs[j + 1].0);
            assert(w0[cs[j + 1].0] as int == tag(cs[j + 1].1 * 8, cs[j + 1].2));
        }
    }
    assert(ncs.last() == ncs[ncs.len() - 1]);
    if k + 2 < cs.len() {
        assert(ncs[ncs.len() - 1] == cs[cs.len() - 1]);
    }
}

/// After a request of `rw` words took chunk `k` and that chunk is freed
/// again, chunk `k` is free and at least `rw` words long, so the same
/// request is served again.
pub proof fn lemma_free_then_fits(cs: Seq<Chunk>, k: int, rw: int)
    requires
        0 <= k < cs.len(),
        fits(cs[k], rw),
        rw >= 1,
        forall|j: int| 0 <= j < cs.len() ==> #[trigger] cs[j].1 >= 1,
    ensures
        take_chunk(cs, k, rw)[k].2,
        k < free_chunk(take_chunk(cs, k, rw), k).len(),
        fits(free_chunk(take_chunk(cs, k, rw), k)[k], rw),
{
    let t = take_chunk(cs, k, rw);
    if cs[k].1 != rw {
        assert(t[k] == (cs[k].0, rw, true));
        assert(t[k + 1] == (cs[k].0 + rw, cs[k].1 - rw, false));
    } else if k + 1 < cs.len() {
        assert(t[k + 1] == cs[k + 1]);
        assert(cs[k + 1].1 >= 1);
    }
}

/// The kernel heap: a run of frames whose words the heap owns, laid out as
/// chunks found one after another by their sizes.
pub struct KernelHeap {
    pub base: u64,
    pub words: Vec<u64>,
    pub chunks: Ghost<Seq<Chunk>>,
}

impl KernelHeap {
    pub open spec fn wf(&self) -> bool {
        &&& self.base > 0
        &&& self.base % 8 == 0
        &&& self.words@.len() >= 1
        &&& self.words@.len() * 8 < CHUNK_TAKEN
        &&& self.words@.len() * 8 <= usize::MAX
        &&& self.base + self.words@.len() * 8 <= u64::MAX
        &&& chunks_wf(self.chunks@, self.words@)
    }

    /// Address of the bytes that chunk `k` hands out, just past its header.
    pub open spec fn user_addr(&self, k: int) -> int {
        self.base + (self.chunks@[k].0 + 1) * 8
    }

    /// Take `pages` frames, first fit, and lay them out as one free chunk;
    /// `None` when no run of `pages` frames is free.
    pub fn init(m: &mut PhysMem, pages: usize) -> (r: Option<KernelHeap>)
        requires
            old(m).wf(),
            pages > 0,
        ensures
            final(m).wf(),
            final(m).words@ == old(m).words@,
            final(m).heap_start == old(m).heap_start,
            final(m).heap_size == old(m).heap_size,
            final(m).head == old(m).head,
            r is None <==> forall|k: int| !crate::page::is_free_run(old(m).descs@, k, pages as int),
            r is None ==> final(m).descs@ == old(m).descs@,
            r matches Some(h) ==> {
                &&& h.wf()
                &&& h.size() == pages * 4096
                &&& h.chunks@ == seq![(0int, pages * 512, false)]
                &&& exists|i: int|
                    crate::page::is_first_fit(old(m).descs@, i, pages as int) && h.base
                        == frame_addr(old(m).head as int, i) && final(m).descs@ == mark_run(
                        old(m).descs@,
                        i,
                        pages as int,
                    )
            },
    {
        let a = m.alloc_pages(pages);
        if a == 0 {
            return None;
        }
        let ghost i = choose|i: int|
            crate::page::is_first_fit(old(m).descs@, i, pages as int) && a == frame_addr(
                old(m).head as int,
                i,
            ) && m.descs@ == mark_run(old(m).descs@, i, pages as int);
        proof {
            assert(pages * 4096 <= m.heap_size) by (nonlinear_arith)
                requires
                    i + pages <= m.num_frames(),
                    m.num_frames() <= m.heap_size / 4096,
                    i >= 0,
            {}
            assert(a + pages * 4096 <= m.end()) by (nonlinear_arith)
                requires
                    a == m.head + i * 4096,
                    i + pages <= m.num_frames(),
                    m.end() == m.head + m.num_frames() * 4096,
            {}
            assert(a % 8 == 0) by (nonlinear_arith)
                requires
                    a == m.head + i * 4096,
                    m.head == m.heap_start + crate::page::reserved_frames(
                        (m.heap_size / 4096) as nat,
                    ) * 4096,
                    m.heap_start % 4096 == 0,
            {}
        }
        let nw = pages * 512;
        let mut words: Vec<u64> = Vec::new();
        words.push((pages as u64) * 4096);
        let mut j: usize = 1;
        while j < nw
            invariant
                1 <= j <= nw,
                words@.len() == j,
                words@[0] == pages * 4096,
            decreases nw - j,
        {
            words.push(0);
            j = j + 1;
        }
        let ghost cs0 = seq![(0int, nw as int, false)];
        let h = KernelHeap { base: a, words, chunks: Ghost(cs0) };
        assert(h.chunks@.last() == (0int, nw as int, false));
        Some(h)
    }

    /// Serve `n` bytes from the first free chunk that fits; returns the address
    /// past its header, or 0 when none fits.
    pub fn kmalloc(&mut self, n: usize) -> (r: u64)
        requires
            old(self).wf(),
        ensures
            final(self).wf(),
            final(self).base == old(self).base,
            final(self).words@.len() == old(self).words@.len(),
            (r == 0) <==> forall|k: int|
                0 <= k < old(self).chunks@.len() ==> !fits(
                    old(self).chunks@[k],
                    request_words(n as int),
                ),
            r == 0 ==> final(self).chunks@ == old(self).chunks@,
            r != 0 ==> exists|k: int|
                is_first_chunk_fit(old(self).chunks@, k, request_words(n as int)) && r
                    == old(self).user_addr(k) && final(self).chunks@ == take_chunk(
                    old(self).chunks@,
                    k,
                    request_words(n as int),
                ),
    {
        let ghost cs = self.chunks@;
        let len = self.words.len();
        if n / 8 >= len {
            assert forall|k: int| 0 <= k < cs.len() implies !fits(cs[k], request_words(n as int)) by {
                lemma_chunk_in_range(cs, self.words@, k);
            }
            return 0;
        }
        let rw = if n % 8 == 0 {
            n / 8 + 1
        } else {
            n / 8 + 2
        };
        let mut i: usize = 0;
        let ghost mut k: int = 0;
        while i < len
            invariant
                self.wf(),
                self.chunks@ == cs,
                cs == old(self).chunks@,
                self.base == old(self).base,
                self.words@ == old(self).words@,
                len == self.words@.len(),
                rw == request_words(n as int),
                0 <= k <= cs.len(),
                k < cs.len() ==> i == cs[k].0,
                k == cs.len() ==> i == len,
                forall|j: int| 0 <= j < k ==> !fits(cs[j], rw as int),
            decreases len - i,
        {
            proof {
                if k == cs.len() {
                    assert(false);
                }
                lemma_chunk_in_range(cs, self.words@, k);
            }
            let h = self.words[i];
            let taken = h >= CHUNK_TAKEN;
            let bytes = if taken {
                h - CHUNK_TAKEN
            } else {
                h
            };
            let sw = (bytes / 8) as usize;
            assert(sw == cs[k].1 && taken == cs[k].2);
            if !taken && sw >= rw {
                let ghost c = cs[k];
                assert(sw * 8 <= len * 8 && i + sw <= len);
                if sw == rw {
                    self.words.set(i, bytes + CHUNK_TAKEN);
                    let ghost ncs0 = cs.update(k, (c.0, c.1, true));
                    self.chunks = Ghost(ncs0);
                    proof {
                        let ncs = self.chunks@;
                        assert forall|j: int| 0 <= j < ncs.len() implies self.words@[#[trigger] ncs[j].0]
                            as int == tag(ncs[j].1 * 8, ncs[j].2) by {
                            if j != k {
                                assert(cs[j].0 != cs[k].0);
                            }
                        }
                        assert forall|j: int, l: int| 0 <= j < l < ncs.len() implies ncs[j].0
                            + ncs[j].1 <= #[trigger] ncs[l].0 && #[trigger] ncs[j].0 < ncs[l].0 by {
                            assert(cs[j].0 + cs[j].1 <= cs[l].0 && cs[j].0 < cs[l].0);
                        }
                        assert forall|j: int| 0 <= j < ncs.len() - 1 implies #[trigger] ncs[j + 1].0
                            == ncs[j].0 + ncs[j].1 by {
                            assert(cs[j + 1].0 == cs[j].0 + cs[j].1);
                        }
                    }
                } else {
                    let ghost w0 = self.words@;
                    self.words.set(i, ((rw * 8) as u64) + CHUNK_TAKEN);
                    self.words.set(i + rw, ((sw - rw) * 8) as u64);
                    let ghost ncs0 = cs.take(k) + seq![(c.0, rw as int, true), (c.0 + rw, c.1 - rw, false)]
                        + cs.skip(k + 1);
                    self.chunks = Ghost(ncs0);
                    proof {
                        lemma_split_wf(cs, w0, self.words@, k, rw as int);
                    }
                }
                assert(self.base + (i + 1) * 8 <= self.base + len * 8) by (nonlinear_arith)
                    requires
                        i + 1 <= len,
                {}
                let r = self.base + ((i + 1) as u64) * 8;
                assert(is_first_chunk_fit(cs, k, rw as int));
                assert(self.chunks@ == take_chunk(cs, k, rw as int));
                assert(r != 0);
                assert(cs == old(self).chunks@);
                assert(rw == request_words(n as int));
                assert(r == old(self).user_addr(k));
                return r;
            }
            i = i + sw;
            proof {
                k = k + 1;
            }
        }
        0
    }

    /// Return the chunk whose bytes start at `p`, merging it with the next
    /// chunk when that one is free; a null `p` is ignored. `p` must be an
    /// address that `kmalloc` returned and that was not freed since.
    pub fn kfree(&mut self, p: u64)
        requires
            old(self).wf(),
            p == 0 || exists|k: int|
                0 <= k < old(self).chunks@.len() && old(self).chunks@[k].2 && p == old(
                    self,
                ).user_addr(k),
        ensures
            final(self).wf(),
            final(self).base == old(self).base,
            final(self).words@.len() == old(self).words@.len(),
            p == 0 ==> final(self).chunks@ == old(self).chunks@,
            forall|k: int|
                0 <= k < old(self).chunks@.len() && old(self).chunks@[k].2 && p == old(
                    self,
                ).user_addr(k) ==> final(self).chunks@ == free_chunk(old(self).chunks@, k),
    {
        if p == 0 {
            return;
        }
        let ghost cs = self.chunks@;
        let ghost w0 = self.words@;
        let ghost k = choose|k: int| 0 <= k < cs.len() && cs[k].2 && p == self.user_addr(k);
        proof {
            lemma_chunk_in_range(cs, w0, k);
        }
        let len = self.words.len();
        let i = ((p - self.base) / 8 - 1) as usize;
        assert(i == cs[k].0) by (nonlinear_arith)
            requires
                p == self.base + (cs[k].0 + 1) * 8,
                i == (p - self.base) / 8 - 1,
        {}
        let h = self.words[i];
        let bytes = h - CHUNK_TAKEN;
        let next = i + (bytes / 8) as usize;
        assert(next == cs[k].0 + cs[k].1);
        proof {
            if k + 1 < cs.len() {
                lemma_chunk_in_range(cs, w0, k + 1);
                assert(cs[k + 1].0 == cs[k].0 + cs[k].1);
            } else {
                assert(next == len);
            }
        }
        if next < len && self.words[next] < CHUNK_TAKEN {
            let merged = bytes + self.words[next];
            self.words.set(i, merged);
            proof {
                lemma_merge_wf(cs, w0, self.words@, k);
            }
            let ghost ncs = cs.take(k) + seq![(cs[k].0, cs[k].1 + cs[k + 1].1, false)] + cs.skip(k + 2);
            self.chunks = Ghost(ncs);
        } else {
            self.words.set(i, bytes);
            proof {
                lemma_state_wf(cs, w0, self.words@, k, false);
            }
            let ghost ncs = cs.update(k, (cs[k].0, cs[k].1, false));
            self.chunks = Ghost(ncs);
        }
        assert forall|k2: int|
            0 <= k2 < cs.len() && cs[k2].2 && p == old(self).user_addr(k2) implies self.chunks@
            == free_chunk(cs, k2) by {
            if k2 < k {
                assert(cs[k2].0 < cs[k].0);
            } else if k2 > k {
                assert(cs[k].0 < cs[k2].0);
            }
        }
    }

    /// Each chunk in address order: its header's address, its length in bytes
    /// with the header, and whether it is taken.
    pub fn chunk_table(&self) -> (r: Vec<(u64, u64, bool)>)
        requires
            self.wf(),
        ensures
            r@.len() == self.chunks@.len(),
            forall|k: int|
                0 <= k < r@.len() ==> r@[k] == (
                    (self.base + self.chunks@[k].0 * 8) as u64,
                    (self.chunks@[k].1 * 8) as u64,
                    self.chunks@[k].2,
                ),
    {
        let ghost cs = self.chunks@;
        let len = self.words.len();
        let mut r: Vec<(u64, u64, bool)> = Vec::new();
        let mut i: usize = 0;
        while i < len
            invariant
                self.wf(),
                cs == self.chunks@,
                len == self.words@.len(),
                r@.len() <= cs.len(),
                r@.len() < cs.len() ==> i == cs[r@.len() as int].0,
                r@.len() == cs.len() ==> i == len,
                forall|k: int|
                    0 <= k < r@.len() ==> r@[k] == (
                        (self.base + cs[k].0 * 8) as u64,
                        (cs[k].1 * 8) as u64,
                        cs[k].2,
                    ),
            decreases len - i,
        {
            let ghost k = r@.len() as int;
            proof {
                if k == cs.len() {
                    assert(false);
                }
                lemma_chunk_in_range(cs, self.words@, k);
                if k + 1 < cs.len() {
                    assert(cs[k + 1].0 == cs[k].0 + cs[k].1);
                }
            }
            let h = self.words[i];
            let taken = h >= CHUNK_TAKEN;
            let bytes = if taken {
                h - CHUNK_TAKEN
            } else {
                h
            };
            assert(self.base + i * 8 <= self.base + len * 8) by (nonlinear_arith)
                requires
                    i <= len,
            {}
            r.push((self.base + (i as u64) * 8, bytes, taken));
            i = i + (bytes / 8) as usize;
        }
        r
    }

    /// Total bytes of the heap.
    pub open spec fn size(&self) -> int {
        (self.words@.len() * 8) as int
    }
}

} // verus!
