//! Physical memory: frames of bytes, the frame allocator, and the record of
//! which frames hold page tables.
use vstd::prelude::*;
use crate::mm::pte::{has_flag, ppn_of, PTEFlags};

verus! {

/// The most frames a physical page number can name.
pub const MAX_FRAMES: usize = 0x1000_0000;

/// Number of bytes in a frame.
pub const FRAME_BYTES: usize = 4096;

/// The little-endian word made of bytes `8 * i .. 8 * i + 8` of a frame.
pub open spec fn word_at(frame: Seq<u8>, i: int) -> u64 {
    (frame[8 * i] as u64) | ((frame[8 * i + 1] as u64) << 8u64) | ((frame[8 * i + 2] as u64)
        << 16u64) | ((frame[8 * i + 3] as u64) << 24u64) | ((frame[8 * i + 4] as u64) << 32u64)
        | ((frame[8 * i + 5] as u64) << 40u64) | ((frame[8 * i + 6] as u64) << 48u64) | ((frame[8
        * i + 7] as u64) << 56u64)
}

/// Byte `k` of the little-endian encoding of `w`.
pub open spec fn byte_of(w: u64, k: u64) -> u8 {
    ((w >> (8 * k)) & 0xffu64) as u8
}

/// The frame with word `i` replaced by `w`.
pub open spec fn with_word(frame: Seq<u8>, i: int, w: u64) -> Seq<u8> {
    Seq::new(
        frame.len(),
        |j: int|
            if 8 * i <= j < 8 * i + 8 {
                byte_of(w, (j - 8 * i) as u64)
            } else {
                frame[j]
            },
    )
}

/// The page table entry in slot `i` of frame `f`.
pub open spec fn pte_at(mem: Seq<Seq<u8>>, f: int, i: int) -> u64 {
    word_at(mem[f], i)
}

/// Where a page-table frame hangs in its tree: its level (0 for a root) and
/// the slot of its parent that points to it.
pub struct TableInfo {
    pub level: u8,
    pub parent: u64,
    pub index: u64,
}

/// The structure of all page tables in memory: levels are at most 2, a
/// frame below the root has a parent one level up, and every valid entry of
/// a root or middle table points to a table one level down whose parent slot
/// is that entry.
pub open spec fn tables_wf(mem: Seq<Seq<u8>>, tables: Map<int, TableInfo>) -> bool {
    &&& forall|p: int|
        #![trigger tables[p]]
        tables.contains_key(p) ==> {
            &&& 0 <= p < mem.len()
            &&& tables[p].level <= 2
            &&& tables[p].index < 512
            &&& tables[p].level > 0 ==> tables.contains_key(tables[p].parent as int)
                && tables[tables[p].parent as int].level == tables[p].level - 1
        }
    &&& forall|p: int, i: int|
        #![trigger tables[p], pte_at(mem, p, i)]
        tables.contains_key(p) && tables[p].level < 2 && 0 <= i < 512 && has_flag(
            pte_at(mem, p, i),
            PTEFlags::V,
        ) ==> {
            let c = ppn_of(pte_at(mem, p, i)) as int;
            &&& tables.contains_key(c)
            &&& tables[c].level == tables[p].level + 1
            &&& tables[c].parent == p
            &&& tables[c].index == i
        }
}

/// Writing `w` into a word gives back `w`, and leaves the other words.
pub proof fn lemma_with_word(frame: Seq<u8>, i: int, w: u64)
    requires
        frame.len() == FRAME_BYTES,
        0 <= i < 512,
    ensures
        word_at(with_word(frame, i, w), i) == w,
        forall|j: int| 0 <= j < 512 && j != i ==> word_at(with_word(frame, i, w), j) == word_at(frame, j),
        with_word(frame, i, w).len() == FRAME_BYTES,
{
    let f = with_word(frame, i, w);
    assert(f[8 * i] == byte_of(w, 0));
    assert(f[8 * i + 1] == byte_of(w, 1));
    assert(f[8 * i + 2] == byte_of(w, 2));
    assert(f[8 * i + 3] == byte_of(w, 3));
    assert(f[8 * i + 4] == byte_of(w, 4));
    assert(f[8 * i + 5] == byte_of(w, 5));
    assert(f[8 * i + 6] == byte_of(w, 6));
    assert(f[8 * i + 7] == byte_of(w, 7));
    assert(((((w >> 0u64) & 0xffu64) as u8) as u64) | (((((w >> 8u64) & 0xffu64) as u8) as u64)
        << 8u64) | (((((w >> 16u64) & 0xffu64) as u8) as u64) << 16u64) | (((((w >> 24u64)
        & 0xffu64) as u8) as u64) << 24u64) | (((((w >> 32u64) & 0xffu64) as u8) as u64) << 32u64)
        | (((((w >> 40u64) & 0xffu64) as u8) as u64) << 40u64) | (((((w >> 48u64) & 0xffu64)
        as u8) as u64) << 48u64) | (((((w >> 56u64) & 0xffu64) as u8) as u64) << 56u64) == w)
        by (bit_vector);
    assert forall|j: int| 0 <= j < 512 && j != i implies word_at(f, j) == word_at(frame, j) by {
        assert(f[8 * j] == frame[8 * j]);
        assert(f[8 * j + 1] == frame[8 * j + 1]);
        assert(f[8 * j + 2] == frame[8 * j + 2]);
        assert(f[8 * j + 3] == frame[8 * j + 3]);
        assert(f[8 * j + 4] == frame[8 * j + 4]);
        assert(f[8 * j + 5] == frame[8 * j + 5]);
        assert(f[8 * j + 6] == frame[8 * j + 6]);
        assert(f[8 * j + 7] == frame[8 * j + 7]);
    }
}

/// Every word of a zeroed frame is zero.
pub proof fn lemma_zero_frame(frame: Seq<u8>)
    requires
        frame.len() == FRAME_BYTES,
        forall|j: int| 0 <= j < frame.len() ==> frame[j] == 0,
    ensures
        forall|i: int| 0 <= i < 512 ==> #[trigger] word_at(frame, i) == 0,
{
    assert forall|i: int| 0 <= i < 512 implies #[trigger] word_at(frame, i) == 0 by {
        assert(frame[8 * i] == 0);
        assert(frame[8 * i + 1] == 0);
        assert(frame[8 * i + 2] == 0);
        assert(frame[8 * i + 3] == 0);
        assert(frame[8 * i + 4] == 0);
        assert(frame[8 * i + 5] == 0);
        assert(frame[8 * i + 6] == 0);
        assert(frame[8 * i + 7] == 0);
        assert((0u8 as u64) | ((0u8 as u64) << 8u64) | ((0u8 as u64) << 16u64) | ((0u8 as u64)
            << 24u64) | ((0u8 as u64) << 32u64) | ((0u8 as u64) << 40u64) | ((0u8 as u64) << 48u64)
            | ((0u8 as u64) << 56u64) == 0u64) by (bit_vector);
    }
}

/// Whether writing `w` into slot `i` of frame `f` keeps the table structure:
/// a valid entry written into a root or middle table must point to a table
/// one level down whose parent slot is this one.
pub open spec fn entry_fits(tables: Map<int, TableInfo>, f: int, i: int, w: u64) -> bool {
    tables.contains_key(f) && tables[f].level < 2 && has_flag(w, PTEFlags::V) ==> {
        let c = ppn_of(w) as int;
        &&& tables.contains_key(c)
        &&& tables[c].level == tables[f].level + 1
        &&& tables[c].parent == f
        &&& tables[c].index == i
    }
}

/// The table structure only reads the frames that hold tables.
pub proof fn lemma_tables_wf_frames(m1: Seq<Seq<u8>>, m2: Seq<Seq<u8>>, tables: Map<int, TableInfo>)
    requires
        tables_wf(m1, tables),
        m1.len() == m2.len(),
        forall|p: int| #[trigger] tables.contains_key(p) && 0 <= p < m1.len() ==> m1[p] == m2[p],
    ensures
        tables_wf(m2, tables),
{
    assert forall|p: int| #[trigger] tables.contains_key(p) implies {
        &&& 0 <= p < m2.len()
        &&& tables[p].level <= 2
        &&& tables[p].index < 512
        &&& tables[p].level > 0 ==> tables.contains_key(tables[p].parent as int)
            && tables[tables[p].parent as int].level == tables[p].level - 1
    } by {
        let t = tables[p];
        assert(0 <= p < m2.len());
        assert(t.level <= 2);
    }
    assert forall|p: int, i: int|
        #![trigger tables[p], pte_at(m2, p, i)]
        tables.contains_key(p) && tables[p].level < 2 && 0 <= i < 512 && has_flag(
            pte_at(m2, p, i),
            PTEFlags::V,
        ) implies {
            let c = ppn_of(pte_at(m2, p, i)) as int;
            &&& tables.contains_key(c)
            &&& tables[c].level == tables[p].level + 1
            &&& tables[c].parent == p
            &&& tables[c].index == i
        } by {
        assert(pte_at(m2, p, i) == pte_at(m1, p, i));
    }
}

/// Writing an entry that fits keeps the table structure.
pub proof fn lemma_write_keeps_tables_wf(
    mem: Seq<Seq<u8>>,
    tables: Map<int, TableInfo>,
    f: int,
    i: int,
    w: u64,
)
    requires
        tables_wf(mem, tables),
        0 <= f < mem.len(),
        mem[f].len() == FRAME_BYTES,
        0 <= i < 512,
        entry_fits(tables, f, i, w),
    ensures
        tables_wf(mem.update(f, with_word(mem[f], i, w)), tables),
{
    let m2 = mem.update(f, with_word(mem[f], i, w));
    lemma_with_word(mem[f], i, w);
    assert forall|p: int| #[trigger] tables.contains_key(p) implies {
        &&& 0 <= p < m2.len()
        &&& tables[p].level <= 2
        &&& tables[p].index < 512
        &&& tables[p].level > 0 ==> tables.contains_key(tables[p].parent as int)
            && tables[tables[p].parent as int].level == tables[p].level - 1
    } by {
        let t = tables[p];
        assert(0 <= p < m2.len());
        assert(t.level <= 2);
    }
    assert forall|p: int, j: int|
        #![trigger tables[p], pte_at(m2, p, j)]
        tables.contains_key(p) && tables[p].level < 2 && 0 <= j < 512 && has_flag(
            pte_at(m2, p, j),
            PTEFlags::V,
        ) implies {
            let c = ppn_of(pte_at(m2, p, j)) as int;
            &&& tables.contains_key(c)
            &&& tables[c].level == tables[p].level + 1
            &&& tables[c].parent == p
            &&& tables[c].index == j
        } by {
        if p == f && j == i {
        } else {
            assert(pte_at(m2, p, j) == pte_at(mem, p, j));
        }
    }
}

/// Physical memory: a run of frames numbered from 0, a stack allocator over
/// them, and the record of the frames that hold page tables.
pub struct PhysMem {
    frames: Vec<Vec<u8>>,
    is_table: Vec<bool>,
    current: usize,
    recycled: Vec<usize>,
    tables: Ghost<Map<int, TableInfo>>,
}

impl PhysMem {
    /// The bytes of every frame.
    pub closed spec fn view(&self) -> Seq<Seq<u8>> {
        self.frames@.map_values(|f: Vec<u8>| f@)
    }

    /// The page-table frames and where they hang.
    pub closed spec fn tables(&self) -> Map<int, TableInfo> {
        self.tables@
    }

    /// Whether frame `p` has been handed out and not given back.
    pub closed spec fn allocated(&self, p: int) -> bool {
        0 <= p < self.current && !self.recycled@.contains(p as usize)
    }

    /// The frame that the allocator hands out next, when one is free: the
    /// last one given back, or else the lowest one never handed out.
    pub closed spec fn next_free(&self) -> int {
        if self.recycled@.len() > 0 {
            self.recycled@.last() as int
        } else {
            self.current as int
        }
    }

    /// The number of frames that can still be handed out.
    pub closed spec fn free_count(&self) -> nat {
        ((self.frames@.len() - self.current) + self.recycled@.len()) as nat
    }

    /// The invariant of physical memory.
    pub closed spec fn wf(&self) -> bool {
        &&& self.frames@.len() == self.is_table@.len()
        &&& self.frames@.len() <= MAX_FRAMES
        &&& forall|p: int| 0 <= p < self.frames@.len() ==> #[trigger] self.frames@[p]@.len() == FRAME_BYTES
        &&& self.current <= self.frames@.len()
        &&& forall|k: int| 0 <= k < self.recycled@.len() ==> #[trigger] self.recycled@[k] < self.current
        &&& self.recycled@.no_duplicates()
        &&& forall|p: int|
            #![trigger self.tables@.contains_key(p)]
            #![trigger self.is_table@[p]]
            0 <= p < self.frames@.len() ==> (self.tables@.contains_key(p) <==> self.is_table@[p])
        &&& forall|p: int| #[trigger] self.tables@.contains_key(p) ==> self.allocated(p)
        &&& tables_wf(self.view(), self.tables@)
    }

    /// What the invariant gives to users of memory.
    pub proof fn lemma_wf(&self)
        requires
            self.wf(),
        ensures
            tables_wf(self@, self.tables()),
            self@.len() <= MAX_FRAMES,
            forall|p: int| 0 <= p < self@.len() ==> #[trigger] self@[p].len() == FRAME_BYTES,
            forall|p: int| #[trigger] self.tables().contains_key(p) ==> self.allocated(p) && 0 <= p < self@.len(),
    {
        assert forall|p: int| 0 <= p < self@.len() implies #[trigger] self@[p].len() == FRAME_BYTES by {
            assert(self@[p] == self.frames@[p]@);
        }
        assert forall|p: int| #[trigger] self.tables().contains_key(p) implies self.allocated(p) && 0 <= p < self@.len() by {
            let x = self.tables@[p];
        }
    }

    /// Memory of `n` zeroed frames, none of them handed out.
    pub fn new(n: usize) -> (r: PhysMem)
        requires
            n <= MAX_FRAMES,
        ensures
            r.wf(),
            r@.len() == n,
            r.free_count() == n,
            r.tables() == Map::<int, TableInfo>::empty(),
            forall|p: int| !#[trigger] r.allocated(p),
            forall|p: int, j: int| 0 <= p < n && 0 <= j < FRAME_BYTES ==> #[trigger] r@[p][j] == 0,
    {
        let mut frames: Vec<Vec<u8>> = Vec::new();
        let mut is_table: Vec<bool> = Vec::new();
        let mut k: usize = 0;
        while k < n
            invariant
                k <= n,
                frames@.len() == k,
                is_table@.len() == k,
                forall|p: int| 0 <= p < k ==> #[trigger] frames@[p]@.len() == FRAME_BYTES,
                forall|p: int, j: int| 0 <= p < k && 0 <= j < FRAME_BYTES ==> #[trigger] frames@[p]@[j] == 0,
                forall|p: int| 0 <= p < k ==> !#[trigger] is_table@[p],
            decreases n - k,
        {
            let frame = Self::zeroed_frame();
            frames.push(frame);
            is_table.push(false);
            k = k + 1;
        }
        let r = PhysMem { frames, is_table, current: 0, recycled: Vec::new(), tables: Ghost(Map::empty()) };
        assert forall|p: int, j: int| 0 <= p < n && 0 <= j < FRAME_BYTES implies #[trigger] r@[p][j] == 0 by {
            assert(r@[p] == frames@[p]@);
        }
        assert forall|p: int| 0 <= p < r.frames@.len() implies #[trigger] r.frames@[p]@.len() == FRAME_BYTES by {}
        assert(tables_wf(r@, r.tables@));
        r
    }

    fn zeroed_frame() -> (r: Vec<u8>)
        ensures
            r@.len() == FRAME_BYTES,
            forall|j: int| 0 <= j < FRAME_BYTES ==> #[trigger] r@[j] == 0,
    {
        let mut v: Vec<u8> = Vec::new();
        let mut j: usize = 0;
        while j < FRAME_BYTES
            invariant
                j <= FRAME_BYTES,
                v@.len() == j,
                forall|k: int| 0 <= k < j ==> #[trigger] v@[k] == 0,
            decreases FRAME_BYTES - j,
        {
            v.push(0u8);
            j = j + 1;
        }
        v
    }

    /// The number of frames.
    pub fn len(&self) -> (r: usize)
        ensures
            r == self@.len(),
    {
        self.frames.len()
    }

    /// The number of frames that can still be handed out.
    pub fn free_frames(&self) -> (r: u128)
        requires
            self.wf(),
        ensures
            r == self.free_count(),
    {
        (self.frames.len() - self.current) as u128 + self.recycled.len() as u128
    }

    /// Hands out a free frame, zeroed, or `None` when every frame is in use.
    /// Frames given back are handed out again first, the last one first.
    pub fn frame_alloc(&mut self) -> (r: Option<u64>)
        requires
            old(self).wf(),
        ensures
            final(self).wf(),
            final(self).tables() == old(self).tables(),
            final(self)@.len() == old(self)@.len(),
            match r {
                Some(p) => {
                    &&& p == old(self).next_free()
                    &&& 0 <= p < old(self)@.len()
                    &&& !old(self).allocated(p as int)
                    &&& final(self).allocated(p as int)
                    &&& forall|q: int| q != p ==> final(self).allocated(q) == old(self).allocated(q)
                    &&& final(self)@ == old(self)@.update(p as int, Seq::new(FRAME_BYTES as nat, |j: int| 0u8))
                    &&& final(self).free_count() + 1 == old(self).free_count()
                },
                None => {
                    &&& old(self).free_count() == 0
                    &&& *final(self) == *old(self)
                },
            },
    {
        let p: usize;
        if self.recycled.len() > 0 {
            let ghost old_rec = self.recycled@;
            p = self.recycled.pop().unwrap();
            proof {
                assert(old_rec == self.recycled@.push(p));
                assert forall|q: int| q != p implies self.allocated(q) == old(self).allocated(q) by {
                    if 0 <= q < self.current {
                        if old_rec.contains(q as usize) {
                            let k = choose|k: int| 0 <= k < old_rec.len() && old_rec[k] == q as usize;
                            assert(k != old_rec.len() - 1);
                            assert(self.recycled@[k] == q as usize);
                        }
                    }
                }
                assert(!self.recycled@.contains(p)) by {
                    if self.recycled@.contains(p) {
                        let k = choose|k: int| 0 <= k < self.recycled@.len() && self.recycled@[k] == p;
                        assert(old_rec[k] == old_rec[old_rec.len() - 1]);
                    }
                }
                assert(old_rec.contains(p)) by { assert(old_rec[old_rec.len() - 1] == p); }
            }
        } else if self.current < self.frames.len() {
            p = self.current;
            self.current = self.current + 1;
            proof {
                assert(!self.recycled@.contains(p)) by {
                    if self.recycled@.contains(p) {
                        let k = choose|k: int| 0 <= k < self.recycled@.len() && self.recycled@[k] == p;
                    }
                }
            }
        } else {
            return None;
        }
        let ghost before = self@;
        let z = Self::zeroed_frame();
        assert(z@ =~= Seq::new(FRAME_BYTES as nat, |j: int| 0u8));
        self.frames.set(p, z);
        proof {
            assert(self@ =~= before.update(p as int, Seq::new(FRAME_BYTES as nat, |j: int| 0u8)));
            assert(!old(self).tables@.contains_key(p as int));
            lemma_tables_wf_frames(before, self@, self.tables@);
            assert forall|q: int| 0 <= q < self.frames@.len() implies #[trigger] self.frames@[q]@.len() == FRAME_BYTES by {
                if q != p { assert(self.frames@[q] == old(self).frames@[q]); }
            }
            assert(self.recycled@.no_duplicates());
        }
        Some(p as u64)
    }

    /// Gives back frame `p`, which must be handed out and must not hold a
    /// page table.
    pub fn frame_dealloc(&mut self, p: u64)
        requires
            old(self).wf(),
            old(self).allocated(p as int),
            !old(self).tables().contains_key(p as int),
        ensures
            final(self).wf(),
            final(self).tables() == old(self).tables(),
            final(self)@ == old(self)@,
            !final(self).allocated(p as int),
            forall|q: int| q != p ==> final(self).allocated(q) == old(self).allocated(q),
            final(self).free_count() == old(self).free_count() + 1,
            final(self).next_free() == p,
    {
        let ghost old_rec = self.recycled@;
        self.recycled.push(p as usize);
        proof {
            assert(self.recycled@.no_duplicates()) by {
                assert forall|a: int, b: int| 0 <= a < b < self.recycled@.len() implies self.recycled@[a] != self.recycled@[b] by {
                    if b == old_rec.len() {
                        assert(old_rec.contains(old_rec[a]));
                    }
                }
            }
            assert forall|q: int| q != p implies self.allocated(q) == old(self).allocated(q) by {
                if 0 <= q < self.current {
                    if self.recycled@.contains(q as usize) {
                        let k = choose|k: int| 0 <= k < self.recycled@.len() && self.recycled@[k] == q as usize;
                        assert(k < old_rec.len());
                        assert(old_rec[k] == q as usize);
                    }
                    if old_rec.contains(q as usize) {
                        let k = choose|k: int| 0 <= k < old_rec.len() && old_rec[k] == q as usize;
                        assert(self.recycled@[k] == q as usize);
                    }
                }
            }
            assert(self.recycled@[old_rec.len() as int] == p as usize);
            assert forall|q: int| #[trigger] self.tables@.contains_key(q) implies self.allocated(q) by {
                assert(old(self).allocated(q));
            }
        }
    }

    /// Whether frame `p` has been handed out and not given back.
    pub fn is_allocated(&self, p: u64) -> (r: bool)
        requires
            self.wf(),
        ensures
            r == self.allocated(p as int),
    {
        if p >= self.current as u64 {
            return false;
        }
        let mut k: usize = 0;
        while k < self.recycled.len()
            invariant
                k <= self.recycled@.len(),
                forall|j: int| 0 <= j < k ==> self.recycled@[j] != p as usize,
                p < self.current,
            decreases self.recycled@.len() - k,
        {
            if self.recycled[k] as u64 == p {
                return false;
            }
            k = k + 1;
        }
        true
    }

    /// Whether frame `p` holds a page table.
    pub fn is_table_frame(&self, p: u64) -> (r: bool)
        requires
            self.wf(),
        ensures
            r == self.tables().contains_key(p as int),
    {
        if p < self.is_table.len() as u64 {
            self.is_table[p as usize]
        } else {
            proof {
                if self.tables@.contains_key(p as int) {
                    assert(self.allocated(p as int));
                }
            }
            false
        }
    }

    /// Records that the zeroed frame `p` now holds a page table hanging at `info`.
    pub(crate) fn mark_table(&mut self, p: u64, Ghost(info): Ghost<TableInfo>)
        requires
            old(self).wf(),
            old(self).allocated(p as int),
            !old(self).tables().contains_key(p as int),
            forall|j: int| 0 <= j < FRAME_BYTES ==> #[trigger] old(self)@[p as int][j] == 0,
            info.level <= 2,
            info.index < 512,
            info.level > 0 ==> old(self).tables().contains_key(info.parent as int)
                && old(self).tables()[info.parent as int].level == info.level - 1,
        ensures
            final(self).wf(),
            final(self).tables() == old(self).tables().insert(p as int, info),
            final(self)@ == old(self)@,
            forall|q: int| final(self).allocated(q) == old(self).allocated(q),
            final(self).free_count() == old(self).free_count(),
    {
        self.is_table.set(p as usize, true);
        proof {
            let m = self@;
            let t = self.tables@.insert(p as int, info);
            lemma_zero_frame(m[p as int]);
            assert forall|q: int| #[trigger] t.contains_key(q) implies {
                &&& 0 <= q < m.len()
                &&& t[q].level <= 2
                &&& t[q].index < 512
                &&& t[q].level > 0 ==> t.contains_key(t[q].parent as int)
                    && t[t[q].parent as int].level == t[q].level - 1
            } by {
                if q != p {
                    let x = self.tables@[q];
                }
            }
            assert forall|q: int, i: int|
                #![trigger t[q], pte_at(m, q, i)]
                t.contains_key(q) && t[q].level < 2 && 0 <= i < 512 && has_flag(
                    pte_at(m, q, i),
                    PTEFlags::V,
                ) implies {
                    let c = ppn_of(pte_at(m, q, i)) as int;
                    &&& t.contains_key(c)
                    &&& t[c].level == t[q].level + 1
                    &&& t[c].parent == q
                    &&& t[c].index == i
                } by {
                if q == p {
                    assert(pte_at(m, q, i) == 0);
                    crate::mm::pte::lemma_empty_entry();
                } else {
                    let x = self.tables@[q];
                    let c = ppn_of(pte_at(m, q, i)) as int;
                    assert(self.tables@.contains_key(c));
                    assert(c != p);
                }
            }
            self.tables@ = t;
        }
    }

    /// The page table entry in slot `i` of frame `f`.
    pub fn read_word(&self, f: u64, i: u64) -> (r: u64)
        requires
            self.wf(),
            f < self@.len(),
            i < 512,
        ensures
            r == pte_at(self@, f as int, i as int),
    {
        let n = self.frames.len();
        assert(self@.len() == n);
        let fr = &self.frames[f as usize];
        assert(fr@ == self@[f as int]);
        let b = (8 * i) as usize;
        (fr[b] as u64) | ((fr[b + 1] as u64) << 8u64) | ((fr[b + 2] as u64) << 16u64) | ((fr[b
            + 3] as u64) << 24u64) | ((fr[b + 4] as u64) << 32u64) | ((fr[b + 5] as u64) << 40u64)
            | ((fr[b + 6] as u64) << 48u64) | ((fr[b + 7] as u64) << 56u64)
    }

    /// Writes `w` into slot `i` of frame `f`, keeping the table structure.
    pub fn write_word(&mut self, f: u64, i: u64, w: u64)
        requires
            old(self).wf(),
            f < old(self)@.len(),
            i < 512,
            entry_fits(old(self).tables(), f as int, i as int, w),
        ensures
            final(self).wf(),
            final(self)@ == old(self)@.update(f as int, with_word(old(self)@[f as int], i as int, w)),
            final(self).tables() == old(self).tables(),
            forall|q: int| final(self).allocated(q) == old(self).allocated(q),
            final(self).free_count() == old(self).free_count(),
    {
        let n = self.frames.len();
        assert(self@.len() == n);
        let b = (8 * i) as usize;
        let fu = f as usize;
        let ghost target = with_word(self@[f as int], i as int, w);
        let mut k: usize = 0;
        while k < 8
            invariant
                0 <= k <= 8,
                b == 8 * i,
                fu == f,
                i < 512,
                f < old(self)@.len(),
                self.frames@.len() == old(self).frames@.len(),
                self.frames@[fu as int]@.len() == FRAME_BYTES,
                forall|q: int| 0 <= q < self.frames@.len() && q != fu ==> self.frames@[q] == old(self).frames@[q],
                forall|j: int| 0 <= j < FRAME_BYTES && !(b <= j < b + k) ==> self.frames@[fu as int]@[j] == old(self).frames@[fu as int]@[j],
                forall|j: int| b <= j < b + k ==> self.frames@[fu as int]@[j] == byte_of(w, (j - b) as u64),
                self.is_table == old(self).is_table,
                self.current == old(self).current,
                self.recycled == old(self).recycled,
                self.tables == old(self).tables,
                target == with_word(old(self)@[f as int], i as int, w),
                old(self)@[f as int] == old(self).frames@[fu as int]@,
            decreases 8 - k,
        {
            let byte = #[verifier::truncate] (((w >> (8 * k as u64)) & 0xffu64) as u8);
            self.frames[fu][b + k] = byte;
            k = k + 1;
        }
        proof {
            assert(self.frames@[fu as int]@ =~= target);
            assert(self@ =~= old(self)@.update(f as int, target));
            lemma_write_keeps_tables_wf(old(self)@, self.tables@, f as int, i as int, w);
            assert forall|q: int| 0 <= q < self.frames@.len() implies #[trigger] self.frames@[q]@.len() == FRAME_BYTES by {
                if q != fu { assert(self.frames@[q] == old(self).frames@[q]); }
            }
        }
    }

    /// Byte `off` of frame `p`.
    pub fn read_byte(&self, p: u64, off: usize) -> (r: u8)
        requires
            self.wf(),
            p < self@.len(),
            off < FRAME_BYTES,
        ensures
            r == self@[p as int][off as int],
    {
        let n = self.frames.len();
        assert(self@.len() == n);
        assert(self@[p as int] == self.frames@[p as int]@);
        self.frames[p as usize][off]
    }

    /// Writes byte `off` of frame `p`, which must not hold a page table.
    pub fn write_byte(&mut self, p: u64, off: usize, v: u8)
        requires
            old(self).wf(),
            p < old(self)@.len(),
            off < FRAME_BYTES,
            !old(self).tables().contains_key(p as int),
        ensures
            final(self).wf(),
            final(self)@ == old(self)@.update(p as int, old(self)@[p as int].update(off as int, v)),
            final(self).tables() == old(self).tables(),
            forall|q: int| final(self).allocated(q) == old(self).allocated(q),
            final(self).free_count() == old(self).free_count(),
    {
        let n = self.frames.len();
        assert(self@.len() == n);
        self.frames[p as usize][off] = v;
        proof {
            assert(self@ =~= old(self)@.update(p as int, old(self)@[p as int].update(off as int, v)));
            lemma_tables_wf_frames(old(self)@, self@, self.tables@);
            assert forall|q: int| 0 <= q < self.frames@.len() implies #[trigger] self.frames@[q]@.len() == FRAME_BYTES by {
                if q != p { assert(self.frames@[q] == old(self).frames@[q]); }
            }
        }
    }
}

/// A frame given back is the one handed out next: giving back a frame and
/// then asking for one hands out that frame again, zeroed.
pub proof fn lemma_dealloc_then_alloc(m1: &PhysMem, m2: &PhysMem, p: u64, r: Option<u64>)
    requires
        m1.wf(),
        m1.next_free() == p,
        p < m1@.len(),
        m1.free_count() > 0,
        match r {
            Some(q) => {
                &&& q == m1.next_free()
                &&& m2@ == m1@.update(q as int, Seq::new(FRAME_BYTES as nat, |j: int| 0u8))
            },
            None => m1.free_count() == 0,
        },
    ensures
        r == Some(p),
        m2@[p as int] == Seq::new(FRAME_BYTES as nat, |j: int| 0u8),
{
}

} // verus!
