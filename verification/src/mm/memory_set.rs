//! Ranges of pages of an address space mapped to fresh frames, and unmapped.
use vstd::prelude::*;
use crate::mm::address::{PhysPageNum, VirtPageNum};
use crate::mm::frame::{PhysMem, FRAME_BYTES};
use crate::mm::page_table::{
    is_root, lemma_indexes, lemma_walk_kept_missing, lemma_walk_kept_other_frames, lemma_walk_kept_trans, mapping,
    mapped_entry, missing_tables, slot_of, translate_spec, walk_kept, PageTable, VPN_MASK,
};
use crate::mm::address::vpn_index;
use crate::mm::pte::{entry_bits, has_flag, ppn_of, PTEFlags, PageTableEntry};

verus! {

/// Whether `p` is a frame handed out by the mapping of `[lo, hi)` after
/// memory `m0`: it was free, it is zeroed, and it holds no page table.
pub open spec fn fresh_frame(m0: &PhysMem, m1: &PhysMem, p: int) -> bool {
    &&& !m0.allocated(p)
    &&& m1.allocated(p)
    &&& 0 <= p < m1@.len()
    &&& !m1.tables().contains_key(p)
    &&& m1@[p] == Seq::new(FRAME_BYTES as nat, |j: int| 0u8)
}

/// The mapping after every page of `[lo, hi)` was mapped with `flags` to its
/// own fresh zeroed frame.
pub open spec fn mapped_fresh(
    m0: &PhysMem,
    m1: &PhysMem,
    root: int,
    lo: u64,
    hi: u64,
    flags: u8,
) -> bool {
    &&& forall|v: u64| #![trigger mapping(m1@, root).contains_key(v)]
        !(lo <= v < hi) ==> mapping(m1@, root).contains_key(v) == mapping(m0@, root).contains_key(v)
            && (mapping(m0@, root).contains_key(v) ==> mapping(m1@, root)[v] == mapping(m0@, root)[v])
    &&& forall|v: u64| #![trigger mapping(m1@, root)[v]]
        lo <= v < hi ==> {
            &&& mapping(m1@, root).contains_key(v)
            &&& mapping(m1@, root)[v] == entry_bits(ppn_of(mapping(m1@, root)[v]), flags | PTEFlags::V)
            &&& fresh_frame(m0, m1, ppn_of(mapping(m1@, root)[v]) as int)
        }
    &&& forall|v: u64, w: u64|
        #![trigger mapping(m1@, root)[v], mapping(m1@, root)[w]]
        lo <= v < hi && lo <= w < hi && v != w ==> ppn_of(mapping(m1@, root)[v]) != ppn_of(mapping(m1@, root)[w])
}

/// What mapping fresh frames for the address space with root table `root`
/// does to memory besides that mapping: every other address space keeps its
/// mapping, no root table appears, the tables stay and new ones come from
/// frames that were free, no frame in use is given back, and every frame
/// that holds no table keeps its bytes unless it was free and is now in use.
pub open spec fn map_side(m0: &PhysMem, m1: &PhysMem, root: int) -> bool {
    &&& m1@.len() == m0@.len()
    &&& forall|r: int| is_root(m0, r) && r != root ==> mapping(m1@, r) == mapping(m0@, r)
    &&& forall|r: int| is_root(m1, r) ==> is_root(m0, r)
    &&& forall|p: int| #[trigger] m0.tables().contains_key(p) ==> m1.tables().contains_key(p) && m1.tables()[p] == m0.tables()[p]
    &&& forall|p: int| #[trigger] m1.tables().contains_key(p) ==> m0.tables().contains_key(p) || !m0.allocated(p)
    &&& forall|q: int| m0.allocated(q) ==> m1.allocated(q)
    &&& forall|q: int| 0 <= q < m0@.len() && !m0.tables().contains_key(q) && (m0.allocated(q) || !m1.allocated(q))
        ==> m1@[q] == m0@[q]
}

/// What unmapping the pages `[lo, hi)` of the address space with root table
/// `root` does to memory besides that mapping: every other address space
/// keeps its mapping, the tables stay, the only frames given back are those
/// the unmapped pages used, and the frames that hold no table keep their
/// bytes.
pub open spec fn unmap_side(m0: &PhysMem, m1: &PhysMem, root: int, lo: u64, hi: u64) -> bool {
    &&& m1@.len() == m0@.len()
    &&& forall|r: int| is_root(m0, r) && r != root ==> mapping(m1@, r) == mapping(m0@, r)
    &&& m1.tables() == m0.tables()
    &&& forall|q: int| m1.allocated(q) ==> m0.allocated(q)
    &&& forall|q: int| m0.allocated(q) && !m1.allocated(q) ==> exists|w: u64|
        lo <= w < hi && mapping(m0@, root).contains_key(w) && q == ppn_of(#[trigger] mapping(m0@, root)[w])
    &&& forall|q: int| 0 <= q < m0@.len() && !m0.tables().contains_key(q) ==> m1@[q] == m0@[q]
}

/// The tables that mapping page `v` adds when the pages of `[lo, v)` were
/// mapped just before it, in order, from memory `mem`: none when page
/// `v - 1` shares its leaf table, at most the leaf table when it shares the
/// middle table, and otherwise what the walk for `v` lacks in `mem`.
pub open spec fn new_tables(mem: Seq<Seq<u8>>, root: int, lo: int, v: int) -> int {
    if lo < v && (v - 1) / 512 == v / 512 {
        0
    } else if lo < v && (v - 1) / 262144 == v / 262144 {
        if missing_tables(mem, root, v as u64) == 0 { 0 } else { 1 }
    } else {
        missing_tables(mem, root, v as u64) as int
    }
}

/// The frames that mapping the pages `[v, hi)` of `[lo, hi)` one after
/// another to fresh frames takes from memory `mem`: a frame for each page
/// and the tables it adds.
pub open spec fn frames_needed(mem: Seq<Seq<u8>>, root: int, lo: int, v: int, hi: int) -> int
    decreases hi - v,
{
    if v >= hi || v < lo {
        0
    } else {
        1 + new_tables(mem, root, lo, v) + frames_needed(mem, root, lo, v + 1, hi)
    }
}

/// Page numbers with the same quotient by 512 share their root and middle
/// indexes; with the same quotient by 512 * 512, their root index.
proof fn lemma_same_group(v: u64, w: u64)
    requires
        v <= VPN_MASK,
        w <= VPN_MASK,
    ensures
        v / 512 == w / 512 ==> vpn_index(v, 0) == vpn_index(w, 0) && vpn_index(v, 1) == vpn_index(w, 1),
        v / 262144 == w / 262144 ==> vpn_index(v, 0) == vpn_index(w, 0),
{
    assert(v / 512 == w / 512 ==> (v >> 18u64) & 511u64 == (w >> 18u64) & 511u64 && (v >> 9u64) & 511u64 == (w
        >> 9u64) & 511u64) by (bit_vector);
    assert(v / 262144 == w / 262144 ==> (v >> 18u64) & 511u64 == (w >> 18u64) & 511u64) by (bit_vector);
}

/// Each page takes at most three frames.
proof fn lemma_frames_needed_bound(mem: Seq<Seq<u8>>, root: int, lo: int, v: int, hi: int)
    requires
        lo <= v <= hi,
    ensures
        0 <= frames_needed(mem, root, lo, v, hi) <= 3 * (hi - v),
    decreases hi - v,
{
    if v < hi {
        lemma_frames_needed_bound(mem, root, lo, v + 1, hi);
    }
}

/// The frames that mapping `[lo, hi)` to fresh frames takes.
fn count_frames_needed(pt: &PageTable, mem: &PhysMem, lo: u64, hi: u64) -> (r: u64)
    requires
        pt.wf(mem),
        lo <= hi <= VPN_MASK + 1,
    ensures
        r == frames_needed(mem@, pt.root(), lo as int, lo as int, hi as int),
{
    let ghost root = pt.root();
    let mut acc: u64 = 0;
    let mut v = lo;
    while v < hi
        invariant
            lo <= v <= hi <= VPN_MASK + 1,
            pt.wf(mem),
            root == pt.root(),
            acc <= 3 * (v - lo),
            acc + frames_needed(mem@, root, lo as int, v as int, hi as int) == frames_needed(mem@, root, lo as int, lo as int, hi as int),
        decreases hi - v,
    {
        let m = pt.missing_tables_for(mem, VirtPageNum(v));
        let t: u64 = if lo < v && (v - 1) / 512 == v / 512 {
            0
        } else if lo < v && (v - 1) / 262144 == v / 262144 {
            if m == 0 { 0 } else { 1 }
        } else {
            m
        };
        proof {
            assert(t == new_tables(mem@, root, lo as int, v as int));
            assert(m <= 2);
        }
        acc = acc + 1 + t;
        v = v + 1;
    }
    acc
}

/// Before page `v` is mapped, after the frame for it was handed out: the
/// walk for `v` lacks no more tables than the page adds, and the valid
/// table entries of `m0` stay.
proof fn lemma_map_step_tables(m0: &PhysMem, m1: &PhysMem, m2: &PhysMem, root: int, lo: u64, v: u64, flags: u8)
    requires
        m0.wf(),
        m1.wf(),
        is_root(m0, root),
        lo <= v <= VPN_MASK,
        walk_kept(m0@, m1@, m0.tables()),
        mapped_fresh(m0, m1, root, lo, v, flags),
        forall|p: int| #[trigger] m0.tables().contains_key(p) ==> m1.tables().contains_key(p)
            && m1.tables()[p] == m0.tables()[p],
        m2.tables() == m1.tables(),
        forall|p: int| #[trigger] m1.tables().contains_key(p) ==> m2@[p] == m1@[p],
        m2@.len() == m1@.len(),
    ensures
        walk_kept(m0@, m2@, m0.tables()),
        missing_tables(m2@, root, v) <= new_tables(m0@, root, lo as int, v as int),
{
    m0.lemma_wf();
    m1.lemma_wf();
    lemma_walk_kept_other_frames(m1@, m2@, m1.tables());
    lemma_walk_kept_trans(m0@, m1@, m2@, m0.tables(), m1.tables());
    lemma_walk_kept_missing(m0@, m2@, m0.tables(), root, v);
    if lo < v {
        let u = (v - 1) as u64;
        let x = mapping(m1@, root)[u];
        assert(mapping(m1@, root).contains_key(u));
        assert(mapped_entry(m1@, root, u) is Some);
        assert(slot_of(m1@, root, u) is Some);
        assert(missing_tables(m1@, root, u) == 0);
        assert(is_root(m1, root));
        lemma_walk_kept_missing(m1@, m2@, m1.tables(), root, u);
        lemma_same_group(u, v);
    }
}

/// Maps each page of `[lo, hi)` to a fresh zeroed frame with `flags`.
/// Does nothing and fails when a page is mapped already or when fewer frames
/// are free than the pages and the tables they add take.
#[verifier::spinoff_prover]
pub fn map_fresh(pt: &mut PageTable, mem: &mut PhysMem, lo: u64, hi: u64, flags: PTEFlags) -> (r: bool)
    requires
        pt.wf(old(mem)),
        lo <= hi <= VPN_MASK + 1,
    ensures
        final(pt).root() == old(pt).root(),
        final(pt).wf(final(mem)),
        r == ((forall|v: u64| lo <= v < hi ==> !#[trigger] old(pt).view_in(old(mem)).contains_key(v))
            && old(mem).free_count() >= frames_needed(old(mem)@, old(pt).root(), lo as int, lo as int, hi as int)),
        !r ==> *final(mem) == *old(mem),
        r ==> mapped_fresh(old(mem), final(mem), old(pt).root(), lo, hi, flags.bits),
        forall|root: int| is_root(old(mem), root) && root != old(pt).root() ==> mapping(final(mem)@, root) == mapping(old(mem)@, root),
        forall|p: int| #[trigger] old(mem).tables().contains_key(p) ==> final(mem).tables().contains_key(p)
            && final(mem).tables()[p] == old(mem).tables()[p],
        forall|q: int| old(mem).allocated(q) ==> final(mem).allocated(q),
        map_side(old(mem), final(mem), old(pt).root()),
{
    let mut v = lo;
    while v < hi
        invariant
            lo <= v <= hi <= VPN_MASK + 1,
            pt.wf(mem),
            forall|w: u64| lo <= w < v ==> !#[trigger] pt.view_in(mem).contains_key(w),
        decreases hi - v,
    {
        let pte = pt.translate(mem, VirtPageNum(v));
        proof { lemma_indexes(v, v); }
        match pte {
            Some(e) => {
                if e.is_valid() {
                    proof { assert(pt.view_in(mem).contains_key(v)); }
                    return false;
                }
            },
            None => {},
        }
        v = v + 1;
    }
    let needed = count_frames_needed(pt, mem, lo, hi);
    if mem.free_frames() < needed as u128 {
        return false;
    }
    let ghost m0 = *mem;
    let ghost root = pt.root();
    proof {
        assert forall|w: u64| lo <= w < hi implies !#[trigger] mapping(mem@, root).contains_key(w) by {
            assert(!pt.view_in(mem).contains_key(w));
        }
        assert(mapped_fresh(&m0, mem, root, lo, lo, flags.bits));
    }
    let mut v = lo;
    while v < hi
        invariant
            lo <= v <= hi <= VPN_MASK + 1,
            pt.wf(mem),
            pt.root() == root,
            root == old(pt).root(),
            m0 == *old(mem),
            mem@.len() == m0@.len(),
            mem.free_count() >= frames_needed(m0@, root, lo as int, v as int, hi as int),
            walk_kept(m0@, mem@, m0.tables()),
            is_root(&m0, root),
            m0.wf(),
            forall|r: int| is_root(mem, r) ==> is_root(&m0, r),
            forall|p: int| #[trigger] mem.tables().contains_key(p) ==> m0.tables().contains_key(p) || !m0.allocated(p),
            forall|q: int| 0 <= q < m0@.len() && !m0.tables().contains_key(q) && (m0.allocated(q) || !mem.allocated(q))
                ==> mem@[q] == m0@[q],
            forall|w: u64| v <= w < hi ==> !#[trigger] mapping(mem@, root).contains_key(w),
            mapped_fresh(&m0, mem, root, lo, v, flags.bits),
            forall|q: int| is_root(&m0, q) && q != root ==> mapping(mem@, q) == mapping(m0@, q),
            forall|p: int| #[trigger] m0.tables().contains_key(p) ==> mem.tables().contains_key(p)
                && mem.tables()[p] == m0.tables()[p],
            forall|q: int| m0.allocated(q) ==> mem.allocated(q),
        decreases hi - v,
    {
        let ghost m1 = *mem;
        proof {
            m1.lemma_wf();
            lemma_frames_needed_bound(m0@, root, lo as int, v + 1, hi as int);
            assert(frames_needed(m0@, root, lo as int, v as int, hi as int) == 1 + new_tables(m0@, root, lo as int, v as int)
                + frames_needed(m0@, root, lo as int, v + 1, hi as int));
        }
        let p = mem.frame_alloc().unwrap();
        let ghost m2 = *mem;
        proof {
            lemma_indexes(v, v);
            assert(v & VPN_MASK == v);
            assert(is_root(&m2, root));
            assert(mapping(m2@, root) == mapping(m1@, root)) by {
                crate::mm::page_table::lemma_translate_frames(m1@, m2@, m1.tables(), root);
            }
            assert(missing_tables(m2@, root, v) <= 2);
            assert forall|q: int| #[trigger] m1.tables().contains_key(q) implies m2@[q] == m1@[q] by {
                assert(m1.allocated(q));
            }
            lemma_map_step_tables(&m0, &m1, &m2, root, lo, v, flags.bits);
        }
        pt.map(mem, VirtPageNum(v), PhysPageNum(p), flags);
        proof {
            let m3 = *mem;
            lemma_walk_kept_trans(m0@, m2@, m3@, m0.tables(), m2.tables());
            assert(!m3.tables().contains_key(p as int));
            m3.lemma_wf();
            assert forall|q: int| 0 <= q < m0@.len() && !m0.tables().contains_key(q) && (m0.allocated(q) || !m3.allocated(q))
                implies m3@[q] == m0@[q] by {
                if m3.tables().contains_key(q) {
                    assert(m2.allocated(q));
                    assert(m2.tables().contains_key(q));
                    assert(m1.tables().contains_key(q));
                }
                assert(m3@[q] == m2@[q]);
                if q != p {
                    assert(m2@[q] == m1@[q]);
                }
            }
            assert forall|q: int| is_root(&m0, q) && q != root implies mapping(mem@, q) == mapping(m0@, q) by {
                assert(is_root(&m1, q));
                assert(is_root(&m2, q));
                crate::mm::page_table::lemma_translate_frames(m1@, m2@, m1.tables(), q);
            }
            assert(mapping(mem@, root) == mapping(m1@, root).insert(v, entry_bits(p, flags.bits | PTEFlags::V)));
            assert(mapped_fresh(&m0, mem, root, lo, (v + 1) as u64, flags.bits)) by {
                assert forall|w: u64| !(lo <= w < v + 1) implies
                    #[trigger] mapping(mem@, root).contains_key(w) == mapping(m0@, root).contains_key(w)
                    && (mapping(m0@, root).contains_key(w) ==> mapping(mem@, root)[w] == mapping(m0@, root)[w]) by {
                    assert(mapping(m1@, root).contains_key(w) == mapping(m0@, root).contains_key(w));
                }
                assert forall|w1: u64, w2: u64|
                    #![trigger mapping(mem@, root)[w1], mapping(mem@, root)[w2]]
                    lo <= w1 < v + 1 && lo <= w2 < v + 1 && w1 != w2 implies
                    ppn_of(mapping(mem@, root)[w1]) != ppn_of(mapping(mem@, root)[w2]) by {
                    lemma_ppn_field(p);
                    if w1 < v && w2 < v {
                        assert(ppn_of(mapping(m1@, root)[w1]) != ppn_of(mapping(m1@, root)[w2]));
                    } else if w1 < v {
                        let x = mapping(m1@, root)[w1];
                        assert(fresh_frame(&m0, &m1, ppn_of(x) as int));
                    } else {
                        let x = mapping(m1@, root)[w2];
                        assert(fresh_frame(&m0, &m1, ppn_of(x) as int));
                    }
                }
                assert forall|w: u64| lo <= w < v + 1 implies {
                    &&& #[trigger] mapping(mem@, root).contains_key(w)
                    &&& mapping(mem@, root)[w] == entry_bits(ppn_of(mapping(mem@, root)[w]), flags.bits | PTEFlags::V)
                    &&& fresh_frame(&m0, mem, ppn_of(mapping(mem@, root)[w]) as int)
                } by {
                    if w < v {
                        let x = mapping(m1@, root)[w];
                        assert(fresh_frame(&m0, &m1, ppn_of(x) as int));
                        assert(ppn_of(x) != p);
                    } else {
                        lemma_ppn_field(p);
                    }
                }
            }
        }
        v = v + 1;
    }
    true
}

/// The mapping after the pages of `[lo, hi)` were unmapped.
pub open spec fn unmapped_range(m0: Map<u64, u64>, m1: Map<u64, u64>, lo: u64, hi: u64) -> bool {
    forall|v: u64| #![trigger m1.contains_key(v)]
        m1.contains_key(v) == (m0.contains_key(v) && !(lo <= v < hi)) && (m1.contains_key(v) ==> m1[v] == m0[v])
}

/// Unmaps each page of `[lo, hi)` and gives back each frame they used that
/// is handed out and holds no page table. Does nothing and fails when a page
/// is not mapped.
#[verifier::rlimit(40)]
pub fn unmap_range(pt: &mut PageTable, mem: &mut PhysMem, lo: u64, hi: u64) -> (r: bool)
    requires
        pt.wf(old(mem)),
        lo <= hi <= VPN_MASK + 1,
    ensures
        final(pt).root() == old(pt).root(),
        final(pt).wf(final(mem)),
        r == (forall|v: u64| lo <= v < hi ==> #[trigger] old(pt).view_in(old(mem)).contains_key(v)),
        !r ==> *final(mem) == *old(mem),
        r ==> unmapped_range(old(pt).view_in(old(mem)), final(pt).view_in(final(mem)), lo, hi),
        r ==> forall|v: u64| lo <= v < hi ==> {
            let p = ppn_of(#[trigger] old(pt).view_in(old(mem))[v]) as int;
            old(mem).tables().contains_key(p) || !final(mem).allocated(p)
        },
        forall|root: int| is_root(old(mem), root) && root != old(pt).root() ==> mapping(final(mem)@, root) == mapping(old(mem)@, root),
        final(mem).tables() == old(mem).tables(),
        forall|q: int| final(mem).allocated(q) ==> old(mem).allocated(q),
        r ==> unmap_side(old(mem), final(mem), old(pt).root(), lo, hi),
{
    let mut v = lo;
    while v < hi
        invariant
            lo <= v <= hi <= VPN_MASK + 1,
            pt.wf(mem),
            forall|w: u64| lo <= w < v ==> #[trigger] pt.view_in(mem).contains_key(w),
        decreases hi - v,
    {
        let pte = pt.translate(mem, VirtPageNum(v));
        proof { lemma_indexes(v, v); }
        match pte {
            Some(e) => {
                if !e.is_valid() {
                    proof { assert(!pt.view_in(mem).contains_key(v)); }
                    return false;
                }
            },
            None => {
                proof { assert(!pt.view_in(mem).contains_key(v)); }
                return false;
            },
        }
        v = v + 1;
    }
    let ghost m0 = *mem;
    let ghost root = pt.root();
    let ghost view0 = pt.view_in(mem);
    let mut v = lo;
    while v < hi
        invariant
            lo <= v <= hi <= VPN_MASK + 1,
            pt.wf(mem),
            pt.root() == root,
            root == old(pt).root(),
            m0 == *old(mem),
            view0 == mapping(m0@, root),
            forall|w: u64| lo <= w < hi ==> #[trigger] view0.contains_key(w),
            unmapped_range(view0, mapping(mem@, root), lo, v),
            forall|w: u64| lo <= w < v ==> {
                let p = ppn_of(#[trigger] view0[w]) as int;
                m0.tables().contains_key(p) || !mem.allocated(p)
            },
            forall|q: int| is_root(&m0, q) && q != root ==> mapping(mem@, q) == mapping(m0@, q),
            mem.tables() == m0.tables(),
            forall|q: int| mem.allocated(q) ==> m0.allocated(q),
            mem@.len() == m0@.len(),
            forall|q: int| m0.allocated(q) && !mem.allocated(q) ==> exists|w: u64|
                lo <= w < v && view0.contains_key(w) && q == ppn_of(#[trigger] view0[w]),
            forall|q: int| 0 <= q < m0@.len() && !m0.tables().contains_key(q) ==> mem@[q] == m0@[q],
        decreases hi - v,
    {
        proof {
            lemma_indexes(v, v);
            assert(mapping(mem@, root).contains_key(v));
        }
        let e = pt.translate(mem, VirtPageNum(v)).unwrap();
        let ppn = e.ppn();
        let ghost m1 = *mem;
        proof {
            assert(e.bits == view0[v]);
        }
        pt.unmap(mem, VirtPageNum(v));
        let ghost m2 = *mem;
        if mem.is_allocated(ppn.0) && !mem.is_table_frame(ppn.0) {
            mem.frame_dealloc(ppn.0);
        }
        proof {
            assert forall|q: int| m0.allocated(q) && !mem.allocated(q) implies exists|w: u64|
                lo <= w < v + 1 && view0.contains_key(w) && q == ppn_of(#[trigger] view0[w]) by {
                if m1.allocated(q) {
                    assert(q == ppn.0);
                    assert(view0.contains_key(v) && q == ppn_of(view0[v]));
                } else {
                    let w = choose|w: u64| lo <= w < v && view0.contains_key(w) && q == ppn_of(#[trigger] view0[w]);
                    assert(lo <= w < v + 1 && view0.contains_key(w) && q == ppn_of(view0[w]));
                }
            }
        }
        proof {
            m2.lemma_wf();
            crate::mm::page_table::lemma_translate_frames(m2@, mem@, m2.tables(), root);
            assert forall|q: int| is_root(&m0, q) && q != root implies mapping(mem@, q) == mapping(m0@, q) by {
                assert(is_root(&m1, q));
                assert(is_root(&m2, q));
                crate::mm::page_table::lemma_translate_frames(m2@, mem@, m2.tables(), q);
            }
        }
        proof {
            assert(unmapped_range(view0, mapping(mem@, root), lo, (v + 1) as u64)) by {
                assert forall|w: u64| #![trigger mapping(mem@, root).contains_key(w)]
                    mapping(mem@, root).contains_key(w) == (view0.contains_key(w) && !(lo <= w < v + 1))
                    && (mapping(mem@, root).contains_key(w) ==> mapping(mem@, root)[w] == view0[w]) by {
                    assert(mapping(m1@, root).contains_key(w) == (view0.contains_key(w) && !(lo <= w < v)));
                }
            }
        }
        v = v + 1;
    }
    proof {
        assert forall|w: u64| lo <= w < hi implies #[trigger] old(pt).view_in(old(mem)).contains_key(w) by {
            assert(view0.contains_key(w));
        }
    }
    true
}

/// The page number field gives back a frame number.
proof fn lemma_ppn_field(p: u64)
    requires
        p < 0x1000_0000,
    ensures
        forall|f: u8| ppn_of(#[trigger] entry_bits(p, f)) == p,
{
    assert forall|f: u8| ppn_of(#[trigger] entry_bits(p, f)) == p by {
        crate::mm::pte::lemma_entry_fields(p, f);
    }
}

/// Unmapping a range that was just mapped to fresh frames gives back the
/// mapping there was, when none of its pages was mapped before.
pub proof fn lemma_unmap_undoes_map_fresh(
    m0: &PhysMem,
    m1: &PhysMem,
    m2: &PhysMem,
    root: int,
    lo: u64,
    hi: u64,
    flags: u8,
)
    requires
        forall|v: u64| lo <= v < hi ==> !#[trigger] mapping(m0@, root).contains_key(v),
        mapped_fresh(m0, m1, root, lo, hi, flags),
        unmapped_range(mapping(m1@, root), mapping(m2@, root), lo, hi),
    ensures
        mapping(m2@, root) == mapping(m0@, root),
{
    let a = mapping(m0@, root);
    let b = mapping(m1@, root);
    let c = mapping(m2@, root);
    assert forall|v: u64| #[trigger] c.contains_key(v) == a.contains_key(v) && (c.contains_key(v) ==> c[v] == a[v]) by {
        assert(c.contains_key(v) == (b.contains_key(v) && !(lo <= v < hi)));
        if !(lo <= v < hi) {
            assert(b.contains_key(v) == a.contains_key(v));
        }
    }
    assert(c =~= a);
}

/// The frame that the valid leaf for page `w` of the address space with
/// root table `root` names.
pub open spec fn leaf_frame(mem: Seq<Seq<u8>>, root: int, w: u64) -> int {
    ppn_of(mapping(mem, root)[w]) as int
}

/// Every valid leaf of the address space with root table `root` names a
/// frame of memory that holds no table.
pub open spec fn leaves_in_data(mem: &PhysMem, root: int) -> bool {
    forall|w: u64| #[trigger] mapping(mem@, root).contains_key(w) ==> {
        &&& 0 <= leaf_frame(mem@, root, w) < mem@.len()
        &&& !mem.tables().contains_key(leaf_frame(mem@, root, w))
    }
}

/// Every valid leaf of every address space names a frame of its own: in
/// memory, handed out, holding no table, and named by no other leaf.
pub open spec fn frames_owned(mem: &PhysMem) -> bool {
    &&& forall|r: int, w: u64| is_root(mem, r) && #[trigger] mapping(mem@, r).contains_key(w) ==> {
        &&& 0 <= leaf_frame(mem@, r, w) < mem@.len()
        &&& mem.allocated(leaf_frame(mem@, r, w))
        &&& !mem.tables().contains_key(leaf_frame(mem@, r, w))
    }
    &&& forall|r1: int, w1: u64, r2: int, w2: u64|
        is_root(mem, r1) && is_root(mem, r2) && #[trigger] mapping(mem@, r1).contains_key(w1)
            && #[trigger] mapping(mem@, r2).contains_key(w2) && (r1 != r2 || w1 != w2)
            ==> leaf_frame(mem@, r1, w1) != leaf_frame(mem@, r2, w2)
}

/// Memory without a root table owns its frames.
pub proof fn lemma_frames_owned_no_roots(mem: &PhysMem)
    requires
        mem.tables() == Map::<int, crate::mm::frame::TableInfo>::empty(),
    ensures
        frames_owned(mem),
{
}

/// The leaves of an address space of memory that owns its frames name
/// frames that hold no table.
pub proof fn lemma_frames_owned_leaves(mem: &PhysMem, root: int)
    requires
        frames_owned(mem),
        is_root(mem, root),
    ensures
        leaves_in_data(mem, root),
{
}

/// Writing bytes of frames that hold no table keeps memory owning its
/// frames.
pub proof fn lemma_frames_owned_data_write(m0: &PhysMem, m1: &PhysMem)
    requires
        frames_owned(m0),
        m0.wf(),
        m1.tables() == m0.tables(),
        forall|q: int| m1.allocated(q) == m0.allocated(q),
        m1@.len() == m0@.len(),
        forall|p: int| #[trigger] m0.tables().contains_key(p) ==> m1@[p] == m0@[p],
    ensures
        frames_owned(m1),
{
    m0.lemma_wf();
    assert forall|r: int| is_root(m1, r) implies mapping(m1@, r) == mapping(m0@, r) by {
        crate::mm::page_table::lemma_translate_frames(m0@, m1@, m0.tables(), r);
    }
}

/// Mapping fresh frames keeps memory owning its frames.
pub proof fn lemma_frames_owned_map(m0: &PhysMem, m1: &PhysMem, root: int, lo: u64, hi: u64, flags: u8)
    requires
        frames_owned(m0),
        is_root(m0, root),
        forall|v: u64| lo <= v < hi ==> !#[trigger] mapping(m0@, root).contains_key(v),
        mapped_fresh(m0, m1, root, lo, hi, flags),
        map_side(m0, m1, root),
    ensures
        frames_owned(m1),
{
    assert forall|r: int, w: u64| is_root(m1, r) && #[trigger] mapping(m1@, r).contains_key(w) implies {
        &&& 0 <= leaf_frame(m1@, r, w) < m1@.len()
        &&& m1.allocated(leaf_frame(m1@, r, w))
        &&& !m1.tables().contains_key(leaf_frame(m1@, r, w))
    } by {
        assert(is_root(m0, r));
        if r == root && lo <= w < hi {
            let x = mapping(m1@, root)[w];
        } else {
            assert(mapping(m0@, r).contains_key(w));
            assert(leaf_frame(m1@, r, w) == leaf_frame(m0@, r, w));
        }
    }
    assert forall|r1: int, w1: u64, r2: int, w2: u64|
        is_root(m1, r1) && is_root(m1, r2) && #[trigger] mapping(m1@, r1).contains_key(w1)
            && #[trigger] mapping(m1@, r2).contains_key(w2) && (r1 != r2 || w1 != w2)
            implies leaf_frame(m1@, r1, w1) != leaf_frame(m1@, r2, w2) by {
        assert(is_root(m0, r1) && is_root(m0, r2));
        let new1 = r1 == root && lo <= w1 < hi;
        let new2 = r2 == root && lo <= w2 < hi;
        if new1 {
            let x = mapping(m1@, root)[w1];
        } else {
            assert(mapping(m0@, r1).contains_key(w1));
            assert(leaf_frame(m1@, r1, w1) == leaf_frame(m0@, r1, w1));
        }
        if new2 {
            let y = mapping(m1@, root)[w2];
        } else {
            assert(mapping(m0@, r2).contains_key(w2));
            assert(leaf_frame(m1@, r2, w2) == leaf_frame(m0@, r2, w2));
        }
        if new1 && new2 {
            let x = mapping(m1@, root)[w1];
            let y = mapping(m1@, root)[w2];
        }
    }
}

/// Unmapping pages keeps memory owning its frames.
pub proof fn lemma_frames_owned_unmap(m0: &PhysMem, m1: &PhysMem, root: int, lo: u64, hi: u64)
    requires
        frames_owned(m0),
        is_root(m0, root),
        unmapped_range(mapping(m0@, root), mapping(m1@, root), lo, hi),
        unmap_side(m0, m1, root, lo, hi),
    ensures
        frames_owned(m1),
{
    assert forall|r: int, w: u64| is_root(m1, r) && #[trigger] mapping(m1@, r).contains_key(w) implies {
        &&& 0 <= leaf_frame(m1@, r, w) < m1@.len()
        &&& m1.allocated(leaf_frame(m1@, r, w))
        &&& !m1.tables().contains_key(leaf_frame(m1@, r, w))
    } by {
        assert(is_root(m0, r));
        assert(mapping(m0@, r).contains_key(w));
        assert(leaf_frame(m1@, r, w) == leaf_frame(m0@, r, w));
        let q = leaf_frame(m0@, r, w);
        if !m1.allocated(q) {
            let v = choose|v: u64| lo <= v < hi && mapping(m0@, root).contains_key(v) && q == ppn_of(#[trigger] mapping(m0@, root)[v]);
            assert(leaf_frame(m0@, root, v) == q);
            assert(mapping(m0@, root).contains_key(v));
            if r == root {
                assert(!mapping(m1@, root).contains_key(v));
            }
        }
    }
    assert forall|r1: int, w1: u64, r2: int, w2: u64|
        is_root(m1, r1) && is_root(m1, r2) && #[trigger] mapping(m1@, r1).contains_key(w1)
            && #[trigger] mapping(m1@, r2).contains_key(w2) && (r1 != r2 || w1 != w2)
            implies leaf_frame(m1@, r1, w1) != leaf_frame(m1@, r2, w2) by {
        assert(is_root(m0, r1) && is_root(m0, r2));
        assert(mapping(m0@, r1).contains_key(w1));
        assert(mapping(m0@, r2).contains_key(w2));
        assert(leaf_frame(m1@, r1, w1) == leaf_frame(m0@, r1, w1));
        assert(leaf_frame(m1@, r2, w2) == leaf_frame(m0@, r2, w2));
    }
}

/// Adding a new, empty address space keeps memory owning its frames.
pub proof fn lemma_frames_owned_new_root(m0: &PhysMem, m1: &PhysMem, root: int)
    requires
        frames_owned(m0),
        m1.tables() == m0.tables().insert(root, crate::mm::frame::TableInfo { level: 0, parent: 0, index: 0 }),
        !m0.allocated(root),
        mapping(m1@, root) == Map::<u64, u64>::empty(),
        forall|r: int| is_root(m0, r) ==> mapping(m1@, r) == mapping(m0@, r),
        forall|q: int| m0.allocated(q) ==> m1.allocated(q),
        m1@.len() == m0@.len(),
    ensures
        frames_owned(m1),
{
    assert forall|r: int, w: u64| is_root(m1, r) && #[trigger] mapping(m1@, r).contains_key(w) implies {
        &&& 0 <= leaf_frame(m1@, r, w) < m1@.len()
        &&& m1.allocated(leaf_frame(m1@, r, w))
        &&& !m1.tables().contains_key(leaf_frame(m1@, r, w))
    } by {
        assert(r != root);
        assert(is_root(m0, r));
        assert(mapping(m0@, r).contains_key(w));
    }
    assert forall|r1: int, w1: u64, r2: int, w2: u64|
        is_root(m1, r1) && is_root(m1, r2) && #[trigger] mapping(m1@, r1).contains_key(w1)
            && #[trigger] mapping(m1@, r2).contains_key(w2) && (r1 != r2 || w1 != w2)
            implies leaf_frame(m1@, r1, w1) != leaf_frame(m1@, r2, w2) by {
        assert(r1 != root && r2 != root);
        assert(is_root(m0, r1) && is_root(m0, r2));
        assert(mapping(m0@, r1).contains_key(w1));
        assert(mapping(m0@, r2).contains_key(w2));
    }
}

} // verus!
