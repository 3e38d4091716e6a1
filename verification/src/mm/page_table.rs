//! Implementation of [`PageTable`]: three-level Sv39 page tables kept in
//! physical memory.
use vstd::prelude::*;
use crate::mm::address::{vpn_index, PhysPageNum, VirtPageNum, PPN_MASK};
use crate::mm::frame::{
    entry_fits, lemma_with_word, pte_at, tables_wf, with_word, PhysMem, TableInfo, FRAME_BYTES,
};
use crate::mm::pte::{entry_bits, has_flag, lemma_empty_entry, lemma_entry_fields, lemma_entry_flags, ppn_of, PTEFlags, PageTableEntry};

verus! {

/// Mask of the 27 bits of a virtual page number that Sv39 translates.
pub const VPN_MASK: u64 = 0x7ff_ffff;

/// The leaf slot (frame and index) that the hardware walk from `root` reaches
/// for `vpn`, when the root and middle entries on the way are valid.
pub open spec fn slot_of(mem: Seq<Seq<u8>>, root: int, vpn: u64) -> Option<(int, int)> {
    if !(0 <= root < mem.len()) {
        None
    } else {
        let e0 = pte_at(mem, root, vpn_index(vpn, 0) as int);
        if !has_flag(e0, PTEFlags::V) {
            None
        } else {
            let f1 = ppn_of(e0) as int;
            if !(f1 < mem.len()) {
                None
            } else {
                let e1 = pte_at(mem, f1, vpn_index(vpn, 1) as int);
                if !has_flag(e1, PTEFlags::V) {
                    None
                } else {
                    let f2 = ppn_of(e1) as int;
                    if !(f2 < mem.len()) {
                        None
                    } else {
                        Some((f2, vpn_index(vpn, 2) as int))
                    }
                }
            }
        }
    }
}

/// The leaf entry that the walk from `root` reaches for `vpn`.
pub open spec fn translate_spec(mem: Seq<Seq<u8>>, root: int, vpn: u64) -> Option<u64> {
    match slot_of(mem, root, vpn) {
        Some((f, i)) => Some(pte_at(mem, f, i)),
        None => None,
    }
}

/// The valid leaf entry for `vpn`, if there is one.
pub open spec fn mapped_entry(mem: Seq<Seq<u8>>, root: int, vpn: u64) -> Option<u64> {
    match translate_spec(mem, root, vpn) {
        Some(e) => if has_flag(e, PTEFlags::V) { Some(e) } else { None },
        None => None,
    }
}

/// The mapping that a page table defines: each translated virtual page
/// number with a valid leaf entry, and that entry.
pub open spec fn mapping(mem: Seq<Seq<u8>>, root: int) -> Map<u64, u64> {
    Map::new(
        |w: u64| w <= VPN_MASK && mapped_entry(mem, root, w) is Some,
        |w: u64| mapped_entry(mem, root, w)->0,
    )
}

/// How many page-table frames a walk for `vpn` still lacks.
pub open spec fn missing_tables(mem: Seq<Seq<u8>>, root: int, vpn: u64) -> nat {
    if !has_flag(pte_at(mem, root, vpn_index(vpn, 0) as int), PTEFlags::V) {
        2
    } else if !has_flag(
        pte_at(mem, ppn_of(pte_at(mem, root, vpn_index(vpn, 0) as int)) as int, vpn_index(vpn, 1) as int),
        PTEFlags::V,
    ) {
        1
    } else {
        0
    }
}

/// Every valid entry of a root or middle table of `tables` in `m0` is the
/// same in `m1`.
pub open spec fn walk_kept(m0: Seq<Seq<u8>>, m1: Seq<Seq<u8>>, tables: Map<int, TableInfo>) -> bool {
    forall|p: int, j: int|
        #![trigger tables[p], pte_at(m0, p, j)]
        tables.contains_key(p) && tables[p].level < 2 && 0 <= j < 512 && has_flag(pte_at(m0, p, j), PTEFlags::V)
            ==> pte_at(m1, p, j) == pte_at(m0, p, j)
}

/// A walk is never missing more tables than it was, while the valid root
/// and middle entries stay.
pub proof fn lemma_walk_kept_missing(m0: Seq<Seq<u8>>, m1: Seq<Seq<u8>>, tables: Map<int, TableInfo>, root: int, w: u64)
    requires
        tables_wf(m0, tables),
        tables.contains_key(root),
        tables[root].level == 0,
        walk_kept(m0, m1, tables),
    ensures
        missing_tables(m1, root, w) <= missing_tables(m0, root, w),
{
    lemma_indexes(w, w);
    let i0 = vpn_index(w, 0) as int;
    let i1 = vpn_index(w, 1) as int;
    let e0 = pte_at(m0, root, i0);
    if has_flag(e0, PTEFlags::V) {
        let t = tables[root];
        assert(pte_at(m1, root, i0) == e0);
        let f1 = ppn_of(e0) as int;
        assert(tables.contains_key(f1) && tables[f1].level == 1);
        let e1 = pte_at(m0, f1, i1);
        if has_flag(e1, PTEFlags::V) {
            let t1 = tables[f1];
            assert(pte_at(m1, f1, i1) == e1);
        }
    }
}

/// Keeping the valid root and middle entries is transitive.
pub proof fn lemma_walk_kept_trans(
    m0: Seq<Seq<u8>>,
    m1: Seq<Seq<u8>>,
    m2: Seq<Seq<u8>>,
    t0: Map<int, TableInfo>,
    t1: Map<int, TableInfo>,
)
    requires
        walk_kept(m0, m1, t0),
        walk_kept(m1, m2, t1),
        forall|p: int| #[trigger] t0.contains_key(p) ==> t1.contains_key(p) && t1[p] == t0[p],
    ensures
        walk_kept(m0, m2, t0),
{
    assert forall|p: int, j: int|
        #![trigger t0[p], pte_at(m0, p, j)]
        t0.contains_key(p) && t0[p].level < 2 && 0 <= j < 512 && has_flag(pte_at(m0, p, j), PTEFlags::V)
            implies pte_at(m2, p, j) == pte_at(m0, p, j) by {
        assert(pte_at(m1, p, j) == pte_at(m0, p, j));
        let t = t1[p];
    }
}

/// A change of frames that hold no table of `tables` keeps every entry of
/// the tables.
pub proof fn lemma_walk_kept_other_frames(m0: Seq<Seq<u8>>, m1: Seq<Seq<u8>>, tables: Map<int, TableInfo>)
    requires
        forall|p: int| #[trigger] tables.contains_key(p) ==> m1[p] == m0[p],
    ensures
        walk_kept(m0, m1, tables),
{
    assert forall|p: int, j: int|
        #![trigger tables[p], pte_at(m0, p, j)]
        tables.contains_key(p) && tables[p].level < 2 && 0 <= j < 512 && has_flag(pte_at(m0, p, j), PTEFlags::V)
            implies pte_at(m1, p, j) == pte_at(m0, p, j) by {
        assert(m1[p] == m0[p]);
    }
}

/// The root table that a token names.
pub open spec fn token_root(token: u64) -> int {
    (token & PPN_MASK) as int
}

/// Whether `root` is a root table in memory.
pub open spec fn is_root(mem: &PhysMem, root: int) -> bool {
    mem.tables().contains_key(root) && mem.tables()[root].level == 0
}

/// The three indexes of a page number are its low 27 bits.
pub proof fn lemma_indexes(w: u64, v: u64)
    ensures
        (vpn_index(w, 0) == vpn_index(v, 0) && vpn_index(w, 1) == vpn_index(v, 1) && vpn_index(w, 2)
            == vpn_index(v, 2)) <==> (w & VPN_MASK == v & VPN_MASK),
        vpn_index(w, 0) < 512 && vpn_index(w, 1) < 512 && vpn_index(w, 2) < 512,
        w & VPN_MASK <= VPN_MASK,
        w <= VPN_MASK ==> w & VPN_MASK == w,
{
    assert(((((w >> 18u64) & 511u64) == ((v >> 18u64) & 511u64)) && (((w >> 9u64) & 511u64) == ((v
        >> 9u64) & 511u64)) && ((w & 511u64) == (v & 511u64))) <==> ((w & 0x7ff_ffffu64) == (v
        & 0x7ff_ffffu64))) by (bit_vector);
    assert((w >> 18u64) & 511u64 < 512 && (w >> 9u64) & 511u64 < 512 && w & 511u64 < 512) by (bit_vector);
    assert(w & 0x7ff_ffffu64 <= 0x7ff_ffffu64) by (bit_vector);
    assert(w <= 0x7ff_ffffu64 ==> w & 0x7ff_ffffu64 == w) by (bit_vector);
}

/// A leaf slot reached from a root hangs two levels below it, at the
/// indexes of the page number.
pub proof fn lemma_slot_info(mem: Seq<Seq<u8>>, tables: Map<int, TableInfo>, root: int, w: u64)
    requires
        tables_wf(mem, tables),
        tables.contains_key(root),
        tables[root].level == 0,
    ensures
        match slot_of(mem, root, w) {
            Some((f, i)) => {
                &&& tables.contains_key(f)
                &&& tables[f].level == 2
                &&& i == vpn_index(w, 2)
                &&& tables[f].index == vpn_index(w, 1)
                &&& tables.contains_key(tables[f].parent as int)
                &&& tables[tables[f].parent as int].level == 1
                &&& tables[tables[f].parent as int].index == vpn_index(w, 0)
                &&& tables[tables[f].parent as int].parent == root
            },
            None => true,
        },
{
    lemma_indexes(w, w);
    let t0 = tables[root];
    let e0 = pte_at(mem, root, vpn_index(w, 0) as int);
    if has_flag(e0, PTEFlags::V) {
        let f1 = ppn_of(e0) as int;
        let t1 = tables[f1];
        let e1 = pte_at(mem, f1, vpn_index(w, 1) as int);
        if has_flag(e1, PTEFlags::V) {
            let f2 = ppn_of(e1) as int;
            let t2 = tables[f2];
        }
    }
}

/// Two page numbers that reach the same leaf slot have the same low 27 bits.
pub proof fn lemma_slot_unique(mem: Seq<Seq<u8>>, tables: Map<int, TableInfo>, root: int, w: u64, v: u64)
    requires
        tables_wf(mem, tables),
        tables.contains_key(root),
        tables[root].level == 0,
        slot_of(mem, root, w) is Some,
        slot_of(mem, root, w) == slot_of(mem, root, v),
    ensures
        w & VPN_MASK == v & VPN_MASK,
{
    lemma_slot_info(mem, tables, root, w);
    lemma_slot_info(mem, tables, root, v);
    lemma_indexes(w, v);
}

/// The walk only depends on the low 27 bits of the page number.
pub proof fn lemma_slot_low_bits(mem: Seq<Seq<u8>>, root: int, w: u64, v: u64)
    requires
        w & VPN_MASK == v & VPN_MASK,
    ensures
        slot_of(mem, root, w) == slot_of(mem, root, v),
        translate_spec(mem, root, w) == translate_spec(mem, root, v),
        mapped_entry(mem, root, w) == mapped_entry(mem, root, v),
        missing_tables(mem, root, w) == missing_tables(mem, root, v),
{
    lemma_indexes(w, v);
}

/// Walks read only root and middle tables: memory that keeps those keeps
/// every walk.
pub proof fn lemma_slot_frames(m1: Seq<Seq<u8>>, m2: Seq<Seq<u8>>, tables: Map<int, TableInfo>, root: int, w: u64)
    requires
        tables_wf(m1, tables),
        tables.contains_key(root),
        tables[root].level == 0,
        m1.len() == m2.len(),
        forall|p: int| #[trigger] tables.contains_key(p) && tables[p].level < 2 ==> m1[p] == m2[p],
    ensures
        slot_of(m2, root, w) == slot_of(m1, root, w),
{
    let t0 = tables[root];
    let e0 = pte_at(m1, root, vpn_index(w, 0) as int);
    lemma_indexes(w, w);
    if has_flag(e0, PTEFlags::V) {
        let f1 = ppn_of(e0) as int;
        let t1 = tables[f1];
        assert(m1[f1] == m2[f1]);
    }
}

/// Memory that keeps every page-table frame keeps every translation.
pub proof fn lemma_translate_frames(m1: Seq<Seq<u8>>, m2: Seq<Seq<u8>>, tables: Map<int, TableInfo>, root: int)
    requires
        tables_wf(m1, tables),
        tables.contains_key(root),
        tables[root].level == 0,
        m1.len() == m2.len(),
        forall|p: int| #[trigger] tables.contains_key(p) ==> m1[p] == m2[p],
    ensures
        forall|w: u64| #[trigger] translate_spec(m2, root, w) == translate_spec(m1, root, w),
        mapping(m2, root) == mapping(m1, root),
{
    assert forall|w: u64| #[trigger] translate_spec(m2, root, w) == translate_spec(m1, root, w) by {
        lemma_slot_frames(m1, m2, tables, root, w);
        lemma_slot_info(m1, tables, root, w);
    }
    assert(mapping(m2, root) =~= mapping(m1, root));
}

/// Writing a leaf slot changes only the translation of the page numbers that
/// reach it.
pub proof fn lemma_leaf_write(
    mem: Seq<Seq<u8>>,
    tables: Map<int, TableInfo>,
    root: int,
    f: int,
    i: int,
    e: u64,
)
    requires
        tables_wf(mem, tables),
        tables.contains_key(root),
        tables[root].level == 0,
        tables.contains_key(f),
        tables[f].level == 2,
        0 <= i < 512,
        mem[f].len() == FRAME_BYTES,
    ensures
        forall|w: u64| #[trigger] translate_spec(mem.update(f, with_word(mem[f], i, e)), root, w) ==
            if slot_of(mem, root, w) == Some((f, i)) { Some(e) } else { translate_spec(mem, root, w) },
        forall|w: u64| #[trigger] slot_of(mem.update(f, with_word(mem[f], i, e)), root, w) == slot_of(mem, root, w),
{
    let m2 = mem.update(f, with_word(mem[f], i, e));
    lemma_with_word(mem[f], i, e);
    assert forall|w: u64| #[trigger] slot_of(m2, root, w) == slot_of(mem, root, w) by {
        assert forall|p: int| #[trigger] tables.contains_key(p) && tables[p].level < 2 implies mem[p] == m2[p] by {
            assert(p != f);
        }
        lemma_slot_frames(mem, m2, tables, root, w);
    }
    assert forall|w: u64| #[trigger] translate_spec(m2, root, w) ==
        if slot_of(mem, root, w) == Some((f, i)) { Some(e) } else { translate_spec(mem, root, w) } by {
        assert(slot_of(m2, root, w) == slot_of(mem, root, w));
        lemma_slot_info(mem, tables, root, w);
        lemma_indexes(w, w);
        match slot_of(mem, root, w) {
            Some((g, j)) => {
                if g == f && j != i {
                    assert(pte_at(m2, g, j) == pte_at(mem, g, j));
                }
            },
            None => {},
        }
    }
}

/// Hanging a fresh zeroed table below an invalid slot of a root or middle
/// table adds no mapping: walks through the new table find only invalid
/// entries.
pub proof fn lemma_new_child(
    m0: Seq<Seq<u8>>,
    t0: Map<int, TableInfo>,
    f: int,
    i: int,
    c: int,
    e: u64,
    root: int,
)
    requires
        tables_wf(m0, t0),
        t0.contains_key(root),
        t0[root].level == 0,
        t0.contains_key(f),
        t0[f].level < 2,
        0 <= i < 512,
        0 <= c < m0.len(),
        !t0.contains_key(c),
        forall|p: int| 0 <= p < m0.len() ==> #[trigger] m0[p].len() == FRAME_BYTES,
        !has_flag(pte_at(m0, f, i), PTEFlags::V),
        has_flag(e, PTEFlags::V),
        ppn_of(e) == c,
    ensures
        ({
            let z = Seq::new(FRAME_BYTES as nat, |j: int| 0u8);
            let m1 = m0.update(c, z);
            let m2 = m1.update(f, with_word(m1[f], i, e));
            mapping(m2, root) == mapping(m0, root)
        }),
{
    let z = Seq::new(FRAME_BYTES as nat, |j: int| 0u8);
    let m1 = m0.update(c, z);
    let m2 = m1.update(f, with_word(m1[f], i, e));
    crate::mm::frame::lemma_zero_frame(z);
    lemma_empty_entry();
    assert(m1[f] == m0[f]);
    lemma_with_word(m1[f], i, e);
    assert forall|w: u64| #[trigger] mapped_entry(m2, root, w) == mapped_entry(m0, root, w) by {
        lemma_indexes(w, w);
        lemma_slot_info(m0, t0, root, w);
        let i0 = vpn_index(w, 0) as int;
        let i1 = vpn_index(w, 1) as int;
        let i2 = vpn_index(w, 2) as int;
        let x = t0[root];
        assert(root != c);
        if root == f && i0 == i {
            assert(pte_at(m2, root, i0) == e);
            assert(pte_at(m2, c, i1) == 0);
        } else {
            assert(pte_at(m2, root, i0) == pte_at(m0, root, i0));
            let e0 = pte_at(m0, root, i0);
            if has_flag(e0, PTEFlags::V) {
                let f1 = ppn_of(e0) as int;
                let y = t0[f1];
                assert(f1 != c);
                if f1 == f && i1 == i {
                    assert(pte_at(m2, f1, i1) == e);
                    assert(pte_at(m2, c, i2) == 0);
                } else {
                    assert(pte_at(m2, f1, i1) == pte_at(m0, f1, i1));
                    let e1 = pte_at(m0, f1, i1);
                    if has_flag(e1, PTEFlags::V) {
                        let f2 = ppn_of(e1) as int;
                        let zz = t0[f2];
                        assert(f2 != c);
                        assert(f2 != f);
                        assert(pte_at(m2, f2, i2) == pte_at(m0, f2, i2));
                    }
                }
            }
        }
    }
    assert(mapping(m2, root) =~= mapping(m0, root));
}

/// page table structure
pub struct PageTable {
    root_ppn: PhysPageNum,
    frames: Vec<PhysPageNum>,
}

impl PageTable {
    /// The frame of the root table.
    pub closed spec fn root(&self) -> int {
        self.root_ppn.0 as int
    }

    /// The page table is a root table of well-formed memory.
    pub open spec fn wf(&self, mem: &PhysMem) -> bool {
        mem.wf() && is_root(mem, self.root())
    }

    /// The mapping of the page table in `mem`.
    pub open spec fn view_in(&self, mem: &PhysMem) -> Map<u64, u64> {
        mapping(mem@, self.root())
    }

    /// The frame of the root table.
    pub fn root_ppn(&self) -> (r: PhysPageNum)
        ensures
            r.0 == self.root(),
    {
        self.root_ppn
    }

    /// Create a new page table
    pub fn new(mem: &mut PhysMem) -> (r: PageTable)
        requires
            old(mem).wf(),
            old(mem).free_count() > 0,
        ensures
            r.wf(final(mem)),
            r.view_in(final(mem)) == Map::<u64, u64>::empty(),
            !old(mem).allocated(r.root()),
            final(mem).tables() == old(mem).tables().insert(r.root(), TableInfo { level: 0, parent: 0, index: 0 }),
            final(mem).free_count() + 1 == old(mem).free_count(),
            forall|root: int| is_root(old(mem), root) ==> mapping(final(mem)@, root) == mapping(old(mem)@, root),
            forall|q: int| old(mem).allocated(q) ==> final(mem).allocated(q),
            final(mem)@.len() == old(mem)@.len(),
            forall|q: int| 0 <= q < old(mem)@.len() && q != r.root() ==> final(mem)@[q] == old(mem)@[q],
    {
        proof { old(mem).lemma_wf(); }
        let root = mem.frame_alloc().unwrap();
        mem.mark_table(root, Ghost(TableInfo { level: 0, parent: 0, index: 0 }));
        let mut frames: Vec<PhysPageNum> = Vec::new();
        frames.push(PhysPageNum(root));
        let r = PageTable { root_ppn: PhysPageNum(root), frames };
        proof {
            let z = Seq::new(FRAME_BYTES as nat, |j: int| 0u8);
            crate::mm::frame::lemma_zero_frame(z);
            lemma_empty_entry();
            assert(mapping(mem@, root as int) =~= Map::<u64, u64>::empty()) by {
                assert forall|w: u64| !(#[trigger] mapped_entry(mem@, root as int, w) is Some) by {
                    lemma_indexes(w, w);
                    assert(pte_at(mem@, root as int, vpn_index(w, 0) as int) == 0);
                }
            }
            assert forall|q: int| is_root(old(mem), q) implies mapping(mem@, q) == mapping(old(mem)@, q) by {
                assert(q != root);
                lemma_translate_frames(old(mem)@, mem@, old(mem).tables(), q);
            }
        }
        r
    }

    /// Temporarily used to get arguments from user space.
    pub fn from_token(satp: u64) -> (r: PageTable)
        ensures
            r.root() == token_root(satp),
    {
        let v = satp & PPN_MASK;
        assert(v & 0xfff_ffff_ffffu64 == v) by (bit_vector)
            requires
                v == satp & 0xfff_ffff_ffffu64,
        ;
        PageTable { root_ppn: PhysPageNum::from_u64(v), frames: Vec::new() }
    }

    /// The child table below slot `i` of table `f`, made (zeroed) when the
    /// slot is not valid.
    fn ensure_child(&mut self, mem: &mut PhysMem, f: u64, i: u64) -> (r: Option<u64>)
        requires
            old(mem).wf(),
            old(mem).tables().contains_key(f as int),
            old(mem).tables()[f as int].level < 2,
            i < 512,
        ensures
            final(mem).wf(),
            final(mem)@.len() == old(mem)@.len(),
            final(self).root_ppn == old(self).root_ppn,
            walk_kept(old(mem)@, final(mem)@, old(mem).tables()),
            forall|p: int| #[trigger] old(mem).tables().contains_key(p) ==> final(mem).tables().contains_key(p)
                && final(mem).tables()[p] == old(mem).tables()[p],
            forall|root: int| is_root(old(mem), root) ==> mapping(final(mem)@, root) == mapping(old(mem)@, root),
            forall|q: int| old(mem).allocated(q) ==> final(mem).allocated(q),
            forall|q: int| 0 <= q < old(mem)@.len() && !final(mem).tables().contains_key(q) ==> final(mem)@[q] == old(mem)@[q],
            forall|q: int| #[trigger] final(mem).tables().contains_key(q) ==> old(mem).tables().contains_key(q) || !old(mem).allocated(q),
            forall|q: int| #[trigger] final(mem).tables().contains_key(q) && !old(mem).tables().contains_key(q) ==> final(mem).tables()[q].level > 0,
            final(mem)@.len() == old(mem)@.len(),
            match r {
                Some(c) => {
                    &&& final(mem).tables().contains_key(c as int)
                    &&& final(mem).tables()[c as int].level == old(mem).tables()[f as int].level + 1
                    &&& has_flag(pte_at(final(mem)@, f as int, i as int), PTEFlags::V)
                    &&& ppn_of(pte_at(final(mem)@, f as int, i as int)) == c
                    &&& has_flag(pte_at(old(mem)@, f as int, i as int), PTEFlags::V) ==> final(mem)@ == old(mem)@
                        && final(mem).free_count() == old(mem).free_count()
                        && final(mem).tables() == old(mem).tables()
                    &&& !has_flag(pte_at(old(mem)@, f as int, i as int), PTEFlags::V) ==> {
                        &&& !old(mem).tables().contains_key(c as int)
                        &&& final(mem).free_count() + 1 == old(mem).free_count()
                        &&& forall|p: int| 0 <= p < old(mem)@.len() && p != f && p != c ==> final(mem)@[p] == old(mem)@[p]
                        &&& forall|j: int| 0 <= j < 512 ==> pte_at(final(mem)@, c as int, j) == 0
                    }
                },
                None => {
                    &&& !has_flag(pte_at(old(mem)@, f as int, i as int), PTEFlags::V)
                    &&& old(mem).free_count() == 0
                    &&& *final(mem) == *old(mem)
                },
            },
    {
        proof { old(mem).lemma_wf(); }
        let e = mem.read_word(f, i);
        let pte = PageTableEntry { bits: e };
        if pte.is_valid() {
            let c = pte.ppn().0;
            proof {
                let t = mem.tables()[f as int];
            }
            return Some(c);
        }
        match mem.frame_alloc() {
            None => None,
            Some(c) => {
                let ghost m0 = old(mem)@;
                let ghost t0 = old(mem).tables();
                let ghost level = t0[f as int].level;
                proof {
                    mem.lemma_wf();
                    assert(!t0.contains_key(c as int));
                    assert forall|j: int| 0 <= j < FRAME_BYTES implies #[trigger] mem@[c as int][j] == 0 by {}
                }
                mem.mark_table(c, Ghost(TableInfo { level: (level + 1) as u8, parent: f, index: i }));
                let ne = PageTableEntry::new(PhysPageNum(c), PTEFlags { bits: PTEFlags::V });
                proof {
                    lemma_entry_fields(c, PTEFlags::V);
                    assert(PTEFlags::V & PTEFlags::V != 0) by (bit_vector);
                    assert(c != f);
                }
                let ghost m1 = mem@;
                proof { mem.lemma_wf(); }
                mem.write_word(f, i, ne.bits);
                self.frames.push(PhysPageNum(c));
                proof {
                    lemma_with_word(m1[f as int], i as int, ne.bits);
                    crate::mm::frame::lemma_zero_frame(m1[c as int]);
                    assert(m1 == m0.update(c as int, Seq::new(FRAME_BYTES as nat, |j: int| 0u8)));
                    assert forall|root: int| is_root(old(mem), root) implies mapping(mem@, root) == mapping(old(mem)@, root) by {
                        lemma_new_child(m0, t0, f as int, i as int, c as int, ne.bits, root);
                    }
                    assert forall|j: int| 0 <= j < 512 implies pte_at(mem@, c as int, j) == 0 by {
                        assert(mem@[c as int] == m1[c as int]);
                    }
                    let m2 = mem@;
                    assert forall|p: int, j: int|
                        #![trigger t0[p], pte_at(m0, p, j)]
                        t0.contains_key(p) && t0[p].level < 2 && 0 <= j < 512 && has_flag(pte_at(m0, p, j), PTEFlags::V)
                            implies pte_at(m2, p, j) == pte_at(m0, p, j) by {
                        assert(p != c);
                        if p == f as int {
                            assert(j != i);
                            assert(m1[p] == m0[p]);
                        } else {
                            assert(m2[p] == m0[p]);
                        }
                    }
                }
                Some(c)
            },
        }
    }
    /// Find the leaf slot for `vpn`, making the missing root and middle
    /// entries point to fresh zeroed tables; `None` when memory runs out.
    fn find_pte_create(&mut self, mem: &mut PhysMem, vpn: VirtPageNum) -> (r: Option<(u64, u64)>)
        requires
            old(self).wf(old(mem)),
        ensures
            final(self).wf(final(mem)),
            final(self).root() == old(self).root(),
            final(mem)@.len() == old(mem)@.len(),
            walk_kept(old(mem)@, final(mem)@, old(mem).tables()),
            forall|p: int| #[trigger] old(mem).tables().contains_key(p) ==> final(mem).tables().contains_key(p)
                && final(mem).tables()[p] == old(mem).tables()[p],
            forall|root: int| is_root(old(mem), root) ==> mapping(final(mem)@, root) == mapping(old(mem)@, root),
            final(mem).free_count() + missing_tables(old(mem)@, old(self).root(), vpn.0) >= old(mem).free_count(),
            forall|q: int| old(mem).allocated(q) ==> final(mem).allocated(q),
            forall|q: int| 0 <= q < old(mem)@.len() && !final(mem).tables().contains_key(q) ==> final(mem)@[q] == old(mem)@[q],
            forall|q: int| #[trigger] final(mem).tables().contains_key(q) ==> old(mem).tables().contains_key(q) || !old(mem).allocated(q),
            forall|q: int| #[trigger] final(mem).tables().contains_key(q) && !old(mem).tables().contains_key(q) ==> final(mem).tables()[q].level > 0,
            final(mem)@.len() == old(mem)@.len(),
            match r {
                Some((f, i)) => {
                    &&& slot_of(final(mem)@, final(self).root(), vpn.0) == Some((f as int, i as int))
                    &&& final(mem).tables().contains_key(f as int)
                    &&& final(mem).tables()[f as int].level == 2
                },
                None => old(mem).free_count() < missing_tables(old(mem)@, old(self).root(), vpn.0),
            },
    {
        let idxs = vpn.indexes();
        let root = self.root_ppn.0;
        proof {
            old(mem).lemma_wf();
            lemma_indexes(vpn.0, vpn.0);
        }
        let ghost m0 = mem@;
        let ghost t0 = mem.tables();
        let c1 = match self.ensure_child(mem, root, idxs[0]) {
            Some(c) => c,
            None => return None,
        };
        let ghost m1 = mem@;
        let ghost mem1 = *mem;
        proof { mem.lemma_wf(); }
        let c2 = match self.ensure_child(mem, c1, idxs[1]) {
            Some(c) => c,
            None => {
                proof {
                    if has_flag(pte_at(m0, root as int, vpn_index(vpn.0, 0) as int), PTEFlags::V) {
                        assert(m1 == m0);
                    }
                }
                return None;
            },
        };
        proof {
            mem.lemma_wf();
            let t = t0[root as int];
            assert(mem.tables().contains_key(root as int));
            assert(c1 != root);
            assert(root != c2);
            assert(mem@[root as int] == m1[root as int]);
            if has_flag(pte_at(m0, root as int, vpn_index(vpn.0, 0) as int), PTEFlags::V) {
                assert(m1 == m0);
            } else {
                lemma_empty_entry();
                assert(pte_at(m1, c1 as int, vpn_index(vpn.0, 1) as int) == 0);
                assert(!has_flag(pte_at(m1, c1 as int, vpn_index(vpn.0, 1) as int), PTEFlags::V));
            }
            assert forall|r: int| is_root(old(mem), r) implies mapping(mem@, r) == mapping(old(mem)@, r) by {
                assert(t0.contains_key(r));
                assert(is_root(&mem1, r));
            }
            lemma_walk_kept_trans(m0, m1, mem@, t0, mem1.tables());
        }
        Some((c2, idxs[2]))
    }

    /// Find the leaf slot for `vpn` without changing anything.
    fn find_pte(&self, mem: &PhysMem, vpn: VirtPageNum) -> (r: Option<(u64, u64)>)
        requires
            mem.wf(),
        ensures
            match r {
                Some((f, i)) => slot_of(mem@, self.root(), vpn.0) == Some((f as int, i as int)),
                None => slot_of(mem@, self.root(), vpn.0) is None,
            },
    {
        proof {
            mem.lemma_wf();
            lemma_indexes(vpn.0, vpn.0);
        }
        let idxs = vpn.indexes();
        let n = mem.len() as u64;
        let root = self.root_ppn.0;
        if root >= n {
            return None;
        }
        let e0 = PageTableEntry { bits: mem.read_word(root, idxs[0]) };
        if !e0.is_valid() {
            return None;
        }
        let f1 = e0.ppn().0;
        if f1 >= n {
            return None;
        }
        let e1 = PageTableEntry { bits: mem.read_word(f1, idxs[1]) };
        if !e1.is_valid() {
            return None;
        }
        let f2 = e1.ppn().0;
        if f2 >= n {
            return None;
        }
        Some((f2, idxs[2]))
    }

    /// How many tables a walk for `vpn` still lacks: 2 when the root entry
    /// is not valid, 1 when the middle entry is not, 0 otherwise.
    pub fn missing_tables_for(&self, mem: &PhysMem, vpn: VirtPageNum) -> (r: u64)
        requires
            self.wf(mem),
        ensures
            r == missing_tables(mem@, self.root(), vpn.0),
    {
        proof {
            mem.lemma_wf();
            lemma_indexes(vpn.0, vpn.0);
        }
        let idxs = vpn.indexes();
        let root = self.root_ppn.0;
        let e0 = PageTableEntry { bits: mem.read_word(root, idxs[0]) };
        if !e0.is_valid() {
            return 2;
        }
        let f1 = e0.ppn().0;
        proof {
            let t = mem.tables()[root as int];
            let c = mem.tables()[f1 as int];
        }
        let e1 = PageTableEntry { bits: mem.read_word(f1, idxs[1]) };
        if !e1.is_valid() {
            1
        } else {
            0
        }
    }

    /// set the map between virtual page number and physical page number
    pub fn map(&mut self, mem: &mut PhysMem, vpn: VirtPageNum, ppn: PhysPageNum, flags: PTEFlags)
        requires
            old(self).wf(old(mem)),
            !old(self).view_in(old(mem)).contains_key(vpn.0 & VPN_MASK),
            old(mem).free_count() >= missing_tables(old(mem)@, old(self).root(), vpn.0),
        ensures
            final(self).wf(final(mem)),
            final(self).root() == old(self).root(),
            final(self).view_in(final(mem)) == old(self).view_in(old(mem)).insert(
                vpn.0 & VPN_MASK,
                entry_bits(ppn.0, flags.bits | PTEFlags::V),
            ),
            forall|root: int| is_root(old(mem), root) && root != old(self).root() ==> mapping(final(mem)@, root)
                == mapping(old(mem)@, root),
            forall|p: int| #[trigger] old(mem).tables().contains_key(p) ==> final(mem).tables().contains_key(p)
                && final(mem).tables()[p] == old(mem).tables()[p],
            final(mem).free_count() + missing_tables(old(mem)@, old(self).root(), vpn.0) >= old(mem).free_count(),
            forall|q: int| old(mem).allocated(q) ==> final(mem).allocated(q),
            forall|q: int| 0 <= q < old(mem)@.len() && !final(mem).tables().contains_key(q) ==> final(mem)@[q] == old(mem)@[q],
            forall|q: int| #[trigger] final(mem).tables().contains_key(q) ==> old(mem).tables().contains_key(q) || !old(mem).allocated(q),
            forall|q: int| #[trigger] final(mem).tables().contains_key(q) && !old(mem).tables().contains_key(q) ==> final(mem).tables()[q].level > 0,
            final(mem)@.len() == old(mem)@.len(),
            walk_kept(old(mem)@, final(mem)@, old(mem).tables()),
    {
        let ghost m_old = mem@;
        let ghost t_old = mem.tables();
        let slot = self.find_pte_create(mem, vpn);
        let (f, i) = slot.unwrap();
        let e = PageTableEntry::new(ppn, flags.union(PTEFlags { bits: PTEFlags::V }));
        let ghost m1 = mem@;
        let ghost root = self.root();
        proof {
            mem.lemma_wf();
            lemma_indexes(vpn.0, vpn.0);
            lemma_entry_flags(ppn.0, flags.bits | PTEFlags::V);
            let fb = flags.bits;
            assert((fb | 1u8) & 1u8 != 0) by (bit_vector);
            lemma_leaf_write(m1, mem.tables(), root, f as int, i as int, e.bits);
            assert forall|q: int| #![trigger is_root(old(mem), q)] is_root(old(mem), q) && q != root implies
                mapping(m1.update(f as int, with_word(m1[f as int], i as int, e.bits)), q) == mapping(m1, q) by {
                lemma_leaf_write(m1, mem.tables(), q, f as int, i as int, e.bits);
                assert forall|w: u64| #[trigger] slot_of(m1, q, w) != Some((f as int, i as int)) by {
                    lemma_slot_info(m1, mem.tables(), q, w);
                    lemma_slot_info(m1, mem.tables(), root, vpn.0);
                }
                assert(mapping(m1.update(f as int, with_word(m1[f as int], i as int, e.bits)), q) =~= mapping(m1, q));
            }
        }
        mem.write_word(f, i, e.bits);
        proof {
            let key = vpn.0 & VPN_MASK;
            lemma_indexes(vpn.0, vpn.0);
            let m2 = mem@;
            assert forall|w: u64| w <= VPN_MASK implies #[trigger] mapped_entry(m2, root, w) == if w == key { Some(e.bits) } else { mapped_entry(m1, root, w) } by {
                lemma_indexes(w, vpn.0);
                if w == key {
                    lemma_slot_low_bits(m1, root, w, vpn.0);
                } else if slot_of(m1, root, w) == Some((f as int, i as int)) {
                    lemma_slot_unique(m1, mem.tables(), root, w, vpn.0);
                }
            }
            assert(mapping(m2, root) =~= mapping(m1, root).insert(key, e.bits));
            let t1 = mem.tables();
            assert forall|p: int, j: int|
                #![trigger t1[p], pte_at(m1, p, j)]
                t1.contains_key(p) && t1[p].level < 2 && 0 <= j < 512 && has_flag(pte_at(m1, p, j), PTEFlags::V)
                    implies pte_at(m2, p, j) == pte_at(m1, p, j) by {
                assert(p != f);
            }
            lemma_walk_kept_trans(m_old, m1, m2, t_old, t1);
        }
    }

    /// remove the map between virtual page number and physical page number
    pub fn unmap(&mut self, mem: &mut PhysMem, vpn: VirtPageNum)
        requires
            old(self).wf(old(mem)),
            old(self).view_in(old(mem)).contains_key(vpn.0 & VPN_MASK),
        ensures
            final(self).wf(final(mem)),
            final(self).root() == old(self).root(),
            final(self).view_in(final(mem)) == old(self).view_in(old(mem)).remove(vpn.0 & VPN_MASK),
            translate_spec(final(mem)@, final(self).root(), vpn.0) == Some(0u64),
            forall|root: int| is_root(old(mem), root) && root != old(self).root() ==> mapping(final(mem)@, root)
                == mapping(old(mem)@, root),
            final(mem).tables() == old(mem).tables(),
            final(mem).free_count() == old(mem).free_count(),
            forall|q: int| final(mem).allocated(q) == old(mem).allocated(q),
            final(mem)@.len() == old(mem)@.len(),
            forall|q: int| 0 <= q < old(mem)@.len() && !old(mem).tables().contains_key(q) ==> final(mem)@[q] == old(mem)@[q],
    {
        let ghost root = self.root();
        let ghost m1 = mem@;
        proof {
            mem.lemma_wf();
            lemma_indexes(vpn.0, vpn.0);
            lemma_indexes(vpn.0 & VPN_MASK, vpn.0);
            lemma_slot_low_bits(m1, root, vpn.0, vpn.0 & VPN_MASK);
            lemma_slot_info(m1, mem.tables(), root, vpn.0);
        }
        let (f, i) = self.find_pte(mem, vpn).unwrap();
        let e = PageTableEntry::empty();
        proof {
            lemma_empty_entry();
            lemma_leaf_write(m1, mem.tables(), root, f as int, i as int, e.bits);
            assert forall|q: int| #![trigger is_root(old(mem), q)] is_root(old(mem), q) && q != root implies
                mapping(m1.update(f as int, with_word(m1[f as int], i as int, e.bits)), q) == mapping(m1, q) by {
                lemma_leaf_write(m1, mem.tables(), q, f as int, i as int, e.bits);
                assert forall|w: u64| #[trigger] slot_of(m1, q, w) != Some((f as int, i as int)) by {
                    lemma_slot_info(m1, mem.tables(), q, w);
                }
                assert(mapping(m1.update(f as int, with_word(m1[f as int], i as int, e.bits)), q) =~= mapping(m1, q));
            }
        }
        mem.write_word(f, i, e.bits);
        proof {
            let key = vpn.0 & VPN_MASK;
            let m2 = mem@;
            assert(translate_spec(m2, root, vpn.0) == Some(e.bits));
            assert forall|w: u64| w <= VPN_MASK implies #[trigger] mapped_entry(m2, root, w) == if w == key { None } else { mapped_entry(m1, root, w) } by {
                lemma_indexes(w, vpn.0);
                if w == key {
                    lemma_slot_low_bits(m1, root, w, vpn.0);
                } else if slot_of(m1, root, w) == Some((f as int, i as int)) {
                    lemma_slot_unique(m1, mem.tables(), root, w, vpn.0);
                }
            }
            assert(mapping(m2, root) =~= mapping(m1, root).remove(key));
        }
    }

    /// get the page table entry from the virtual page number
    pub fn translate(&self, mem: &PhysMem, vpn: VirtPageNum) -> (r: Option<PageTableEntry>)
        requires
            mem.wf(),
        ensures
            match r {
                Some(e) => translate_spec(mem@, self.root(), vpn.0) == Some(e.bits),
                None => translate_spec(mem@, self.root(), vpn.0) is None,
            },
    {
        proof { mem.lemma_wf(); lemma_indexes(vpn.0, vpn.0); }
        match self.find_pte(mem, vpn) {
            Some((f, i)) => Some(PageTableEntry { bits: mem.read_word(f, i) }),
            None => None,
        }
    }

    /// get the token from the page table
    pub fn token(&self) -> (r: u64)
        ensures
            r == (8u64 << 60u64) | (self.root() as u64),
    {
        8u64 << 60u64 | self.root_ppn.0
    }

}

/// Once `vpn` is mapped to `ppn` with `flags`, translating `vpn` gives a
/// valid entry with that frame and those flags; once it is unmapped again,
/// it has no valid entry and the mapping is the one there was before.
pub proof fn lemma_map_translate_unmap(
    pt: PageTable,
    m0: PhysMem,
    m1: PhysMem,
    m2: PhysMem,
    vpn: VirtPageNum,
    ppn: PhysPageNum,
    flags: PTEFlags,
)
    requires
        ppn.0 <= PPN_MASK,
        !pt.view_in(&m0).contains_key(vpn.0 & VPN_MASK),
        pt.view_in(&m1) == pt.view_in(&m0).insert(vpn.0 & VPN_MASK, entry_bits(ppn.0, flags.bits | PTEFlags::V)),
        pt.view_in(&m2) == pt.view_in(&m1).remove(vpn.0 & VPN_MASK),
    ensures
        translate_spec(m1@, pt.root(), vpn.0) == Some(entry_bits(ppn.0, flags.bits | PTEFlags::V)),
        ppn_of(entry_bits(ppn.0, flags.bits | PTEFlags::V)) == ppn.0,
        entry_bits(ppn.0, flags.bits | PTEFlags::V) as u8 == flags.bits | PTEFlags::V,
        mapped_entry(m2@, pt.root(), vpn.0) is None,
        pt.view_in(&m2) == pt.view_in(&m0),
{
    let key = vpn.0 & VPN_MASK;
    lemma_indexes(vpn.0, key);
    lemma_indexes(key, vpn.0);
    lemma_indexes(key, key);
    lemma_entry_fields(ppn.0, flags.bits | PTEFlags::V);
    assert(pt.view_in(&m1).contains_key(key));
    assert(mapped_entry(m1@, pt.root(), key) is Some);
    assert(pt.view_in(&m1)[key] == entry_bits(ppn.0, flags.bits | PTEFlags::V));
    assert(mapping(m1@, pt.root())[key] == mapped_entry(m1@, pt.root(), key)->0);
    assert(mapped_entry(m1@, pt.root(), key) == Some(entry_bits(ppn.0, flags.bits | PTEFlags::V)));
    assert(translate_spec(m1@, pt.root(), key) == Some(entry_bits(ppn.0, flags.bits | PTEFlags::V)));
    assert(translate_spec(m1@, pt.root(), vpn.0) == translate_spec(m1@, pt.root(), key));
    assert(translate_spec(m2@, pt.root(), vpn.0) == translate_spec(m2@, pt.root(), key));
    assert(!pt.view_in(&m2).contains_key(key));
    assert(pt.view_in(&m2) =~= pt.view_in(&m0));
}

} // verus!
