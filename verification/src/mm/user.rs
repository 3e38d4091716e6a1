//! Access to the memory of a user address space through its page table.
use vstd::prelude::*;
use crate::config::USER_SPACE_END;
use crate::mm::address::{VirtAddr, VirtPageNum};
use crate::mm::frame::{PhysMem, FRAME_BYTES};
use crate::mm::page_table::{is_root, lemma_indexes, mapped_entry, mapping, token_root, translate_spec, PageTable, VPN_MASK};
use crate::mm::memory_set::{leaf_frame, leaves_in_data};
use crate::mm::pte::{has_flag, ppn_of, PTEFlags, PageTableEntry};
use crate::fs::vfs::string_push;

verus! {

/// A run of bytes `start .. end` inside physical frame `ppn`.
#[derive(Clone, Copy, PartialEq, Eq, Structural, Debug)]
pub struct PhysRange {
    pub ppn: u64,
    pub start: usize,
    pub end: usize,
}

/// The end of the piece of `[cur, end)` that lies in the page of `cur`.
pub open spec fn piece_end(cur: int, end: int) -> int {
    if (cur / 4096 + 1) * 4096 < end {
        (cur / 4096 + 1) * 4096
    } else {
        end
    }
}

/// The physical runs that the virtual range `[cur, end)` of the address
/// space with root table `root` occupies, one per page, in order.
pub open spec fn user_ranges(mem: Seq<Seq<u8>>, root: int, cur: int, end: int) -> Seq<PhysRange>
    decreases end - cur,
{
    if cur >= end || cur < 0 {
        Seq::empty()
    } else {
        let vpn = cur / 4096;
        let next = piece_end(cur, end);
        let e = translate_spec(mem, root, vpn as u64)->0;
        seq![PhysRange { ppn: ppn_of(e), start: (cur - vpn * 4096) as usize, end: (next - vpn * 4096) as usize }]
            + user_ranges(mem, root, next, end)
    }
}

/// Every page of `[cur, end)` has a leaf entry.
pub open spec fn pages_translate(mem: Seq<Seq<u8>>, root: int, cur: int, end: int) -> bool
    decreases end - cur,
{
    if cur >= end || cur < 0 {
        true
    } else {
        translate_spec(mem, root, (cur / 4096) as u64) is Some && pages_translate(
            mem,
            root,
            piece_end(cur, end),
            end,
        )
    }
}

/// Every page of `[cur, end)` has a valid leaf entry.
pub open spec fn pages_mapped(mem: Seq<Seq<u8>>, root: int, cur: int, end: int) -> bool
    decreases end - cur,
{
    if cur >= end || cur < 0 {
        true
    } else {
        mapped_entry(mem, root, (cur / 4096) as u64) is Some && pages_mapped(
            mem,
            root,
            piece_end(cur, end),
            end,
        )
    }
}

/// The bytes that a list of physical runs holds, in order.
pub open spec fn read_ranges(mem: Seq<Seq<u8>>, rs: Seq<PhysRange>) -> Seq<u8>
    decreases rs.len(),
{
    if rs.len() == 0 {
        Seq::empty()
    } else {
        let r = rs[0];
        mem[r.ppn as int].subrange(r.start as int, r.end as int) + read_ranges(mem, rs.drop_first())
    }
}

/// A frame with `bytes` written from offset `start` on.
pub open spec fn splice(frame: Seq<u8>, start: int, bytes: Seq<u8>) -> Seq<u8> {
    Seq::new(frame.len(), |j: int| if start <= j < start + bytes.len() { bytes[j - start] } else { frame[j] })
}

/// Memory after `data` is written through the runs, in order, until either
/// runs out.
pub open spec fn write_ranges(mem: Seq<Seq<u8>>, rs: Seq<PhysRange>, data: Seq<u8>) -> Seq<Seq<u8>>
    decreases rs.len(),
{
    if rs.len() == 0 || data.len() == 0 {
        mem
    } else {
        let r = rs[0];
        let room = r.end - r.start;
        let n = if room < data.len() { room } else { data.len() as int };
        write_ranges(
            mem.update(r.ppn as int, splice(mem[r.ppn as int], r.start as int, data.take(n))),
            rs.drop_first(),
            data.skip(n),
        )
    }
}

/// What writing `data` to the user range `[cur, end)` does: page by page, a
/// page with a valid, writable leaf entry gets its bytes in the frame the
/// entry names; the first page without one stops the write and fails it.
pub open spec fn write_user(mem: Seq<Seq<u8>>, root: int, cur: int, end: int, data: Seq<u8>) -> (bool, Seq<Seq<u8>>)
    decreases end - cur,
{
    if cur >= end || cur < 0 {
        (true, mem)
    } else {
        let vpn = cur / 4096;
        match translate_spec(mem, root, vpn as u64) {
            None => (false, mem),
            Some(e) => {
                let p = ppn_of(e) as int;
                if !has_flag(e, PTEFlags::V) || !has_flag(e, PTEFlags::W) {
                    (false, mem)
                } else {
                    let next = piece_end(cur, end);
                    let n = next - cur;
                    write_user(mem.update(p, splice(mem[p], cur - vpn * 4096, data.take(n))), root, next, end, data.skip(n))
                }
            },
        }
    }
}

/// Whether every run lies in a frame of memory that holds no page table.
pub open spec fn ranges_ok(mem: &PhysMem, rs: Seq<PhysRange>) -> bool {
    forall|k: int|
        0 <= k < rs.len() ==> {
            &&& #[trigger] rs[k].ppn < mem@.len()
            &&& !mem.tables().contains_key(rs[k].ppn as int)
            &&& rs[k].start <= rs[k].end <= FRAME_BYTES
        }
}

/// The number of bytes in a list of runs.
pub open spec fn ranges_len(rs: Seq<PhysRange>) -> nat
    decreases rs.len(),
{
    if rs.len() == 0 {
        0
    } else {
        (rs[0].end - rs[0].start) as nat + ranges_len(rs.drop_first())
    }
}

proof fn lemma_piece(cur: int, end: int)
    requires
        0 <= cur < end,
    ensures
        cur < piece_end(cur, end) <= end,
        (cur / 4096) * 4096 <= cur,
        piece_end(cur, end) - (cur / 4096) * 4096 <= 4096,
        cur - (cur / 4096) * 4096 < 4096,
{
}

/// The runs of `[cur, end)` hold `end - cur` bytes.
pub proof fn lemma_user_ranges_len(mem: Seq<Seq<u8>>, root: int, cur: int, end: int)
    requires
        0 <= cur <= end,
    ensures
        ranges_len(user_ranges(mem, root, cur, end)) == end - cur,
    decreases end - cur,
{
    if cur < end {
        lemma_piece(cur, end);
        let next = piece_end(cur, end);
        lemma_user_ranges_len(mem, root, next, end);
        assert(user_ranges(mem, root, cur, end).drop_first() =~= user_ranges(mem, root, next, end));
    }
}

/// Runs of memory hold as many bytes as they span.
pub proof fn lemma_read_ranges_len(mem: &PhysMem, rs: Seq<PhysRange>)
    requires
        mem.wf(),
        ranges_ok(mem, rs),
    ensures
        read_ranges(mem@, rs).len() == ranges_len(rs),
    decreases rs.len(),
{
    if rs.len() > 0 {
        mem.lemma_wf();
        let rest = rs.drop_first();
        assert forall|k: int| 0 <= k < rest.len() implies {
            &&& #[trigger] rest[k].ppn < mem@.len()
            &&& !mem.tables().contains_key(rest[k].ppn as int)
            &&& rest[k].start <= rest[k].end <= FRAME_BYTES
        } by {
            assert(rest[k] == rs[k + 1]);
        }
        lemma_read_ranges_len(mem, rest);
        assert(rs[0].ppn < mem@.len());
    }
}

/// When every page of a user range has a valid leaf and every leaf names
/// a frame of memory that holds no table, each page has a leaf entry and
/// the runs of the range lie in such frames.
pub proof fn lemma_mapped_ranges_ok(mem: &PhysMem, root: int, cur: int, end: int)
    requires
        mem.wf(),
        leaves_in_data(mem, root),
        0 <= cur,
        end <= USER_SPACE_END,
        pages_mapped(mem@, root, cur, end),
    ensures
        pages_translate(mem@, root, cur, end),
        ranges_ok(mem, user_ranges(mem@, root, cur, end)),
    decreases end - cur,
{
    if cur < end {
        lemma_piece(cur, end);
        let next = piece_end(cur, end);
        lemma_mapped_ranges_ok(mem, root, next, end);
        let vpn = (cur / 4096) as u64;
        assert(vpn <= VPN_MASK);
        assert(mapping(mem@, root).contains_key(vpn));
        assert(leaf_frame(mem@, root, vpn) == ppn_of(translate_spec(mem@, root, vpn)->0));
        let rs = user_ranges(mem@, root, cur, end);
        let rest = user_ranges(mem@, root, next, end);
        let r0 = PhysRange {
            ppn: ppn_of(translate_spec(mem@, root, vpn)->0),
            start: (cur - vpn * 4096) as usize,
            end: (next - vpn * 4096) as usize,
        };
        assert(rs == seq![r0] + rest);
        assert(r0.ppn < mem@.len() && !mem.tables().contains_key(r0.ppn as int));
        assert(r0.start <= r0.end <= FRAME_BYTES);
        assert forall|k: int| 0 <= k < rs.len() implies {
            &&& #[trigger] rs[k].ppn < mem@.len()
            &&& !mem.tables().contains_key(rs[k].ppn as int)
            &&& rs[k].start <= rs[k].end <= FRAME_BYTES
        } by {
            if k == 0 {
                assert(rs[k] == r0);
            } else {
                assert(rs[k] == rest[k - 1]);
            }
        }
    }
}

/// Translate&Copy a ptr[u8] array with LENGTH len to a list of physical runs
/// through page table
pub fn translated_byte_buffer(mem: &PhysMem, token: u64, ptr: u64, len: u64) -> (r: Vec<PhysRange>)
    requires
        mem.wf(),
        ptr + len <= USER_SPACE_END,
        pages_translate(mem@, token_root(token), ptr as int, ptr + len),
    ensures
        r@ == user_ranges(mem@, token_root(token), ptr as int, ptr + len),
{
    let page_table = PageTable::from_token(token);
    let ghost root = page_table.root();
    let mut start = ptr;
    let end = start + len;
    let mut v: Vec<PhysRange> = Vec::new();
    while start < end
        invariant
            ptr <= start,
            end == ptr + len,
            end <= USER_SPACE_END,
            mem.wf(),
            root == page_table.root(),
            pages_translate(mem@, root, start as int, end as int),
            v@ + user_ranges(mem@, root, start as int, end as int) == user_ranges(mem@, root, ptr as int, end as int),
        decreases if start < end { end - start } else { 0 },
    {
        proof { lemma_piece(start as int, end as int); }
        let start_va = VirtAddr::from_u64(start);
        proof {
            assert(start < 0x80_0000_0000u64 ==> start & 0x7f_ffff_ffffu64 == start) by (bit_vector);
        }
        let mut vpn = start_va.floor();
        let ppn = page_table.translate(mem, vpn).unwrap().ppn();
        vpn.step();
        let mut end_va = VirtAddr::from_vpn(vpn);
        let end_lim = VirtAddr::from_u64(end);
        proof {
            assert(end < 0x80_0000_0000u64 ==> end & 0x7f_ffff_ffffu64 == end) by (bit_vector);
        }
        if end_lim.0 < end_va.0 {
            end_va = end_lim;
        }
        let off = start_va.page_offset();
        let stop = if end_va.page_offset() == 0 { 4096 } else { end_va.page_offset() };
        let range = PhysRange { ppn: ppn.0, start: off as usize, end: stop as usize };
        proof {
            let next = piece_end(start as int, end as int);
            assert(end_va.0 == next);
            assert(range == PhysRange { ppn: ppn_of(translate_spec(mem@, root, (start / 4096) as u64)->0),
                start: (start - (start / 4096) * 4096) as usize, end: (next - (start / 4096) * 4096) as usize });
            assert(user_ranges(mem@, root, start as int, end as int) == seq![range] + user_ranges(mem@, root, next, end as int));
            assert(v@.push(range) + user_ranges(mem@, root, next, end as int) =~= v@ + (seq![range] + user_ranges(mem@, root, next, end as int)));
        }
        v.push(range);
        let ghost next = end_va.0;
        start = end_va.to_u64();
        proof {
            assert(next | !0x7f_ffff_ffffu64 >= next) by (bit_vector);
            if next >= 0x40_0000_0000u64 {
                assert(next == end);
            }
        }
    }
    proof {
        assert(v@ + user_ranges(mem@, root, start as int, end as int) =~= v@);
    }
    v
}

/// Writes `data[from .. from + n]` into frame `p` from offset `start` on.
pub fn write_bytes(mem: &mut PhysMem, p: u64, start: usize, data: &[u8], from: usize, n: usize)
    requires
        old(mem).wf(),
        p < old(mem)@.len(),
        start + n <= FRAME_BYTES,
        from + n <= data@.len(),
        !old(mem).tables().contains_key(p as int),
    ensures
        final(mem).wf(),
        final(mem)@ == old(mem)@.update(p as int, splice(old(mem)@[p as int], start as int, data@.subrange(from as int, from + n))),
        final(mem).tables() == old(mem).tables(),
        forall|q: int| final(mem).allocated(q) == old(mem).allocated(q),
        final(mem).free_count() == old(mem).free_count(),
        final(mem)@.len() == old(mem)@.len(),
        forall|q: int| #[trigger] old(mem).tables().contains_key(q) ==> final(mem)@[q] == old(mem)@[q],
{
    proof { old(mem).lemma_wf(); }
    let ghost bytes = data@.subrange(from as int, from + n);
    let dl = data.len();
    proof {
        assert(splice(old(mem)@[p as int], start as int, bytes.take(0)) =~= old(mem)@[p as int]);
        assert(old(mem)@.update(p as int, splice(old(mem)@[p as int], start as int, bytes.take(0))) =~= old(mem)@);
    }
    let mut k: usize = 0;
    while k < n
        invariant
            k <= n,
            dl == data@.len(),
            !old(mem).tables().contains_key(p as int),
            old(mem)@[p as int].len() == FRAME_BYTES,
            start + n <= FRAME_BYTES,
            from + n <= data@.len(),
            p < old(mem)@.len(),
            bytes == data@.subrange(from as int, from + n),
            mem.wf(),
            mem@.len() == old(mem)@.len(),
            mem.tables() == old(mem).tables(),
            forall|q: int| mem.allocated(q) == old(mem).allocated(q),
            mem.free_count() == old(mem).free_count(),
            mem@ == old(mem)@.update(p as int, splice(old(mem)@[p as int], start as int, bytes.take(k as int))),
        decreases n - k,
    {
        mem.write_byte(p, start + k, data[from + k]);
        proof {
            assert(splice(old(mem)@[p as int], start as int, bytes.take(k as int)).update((start + k) as int, data@[from + k])
                =~= splice(old(mem)@[p as int], start as int, bytes.take(k + 1)));
        }
        k = k + 1;
    }
    proof { assert(bytes.take(n as int) =~= bytes); }
}

/// The bytes that a list of physical runs holds, in order.
pub fn read_user_ranges(mem: &PhysMem, rs: &Vec<PhysRange>) -> (r: Vec<u8>)
    requires
        mem.wf(),
        ranges_ok(mem, rs@),
    ensures
        r@ == read_ranges(mem@, rs@),
{
    proof { mem.lemma_wf(); }
    let mut out: Vec<u8> = Vec::new();
    let mut k: usize = 0;
    proof { assert(rs@.skip(0) =~= rs@); assert(out@ + read_ranges(mem@, rs@) =~= read_ranges(mem@, rs@)); }
    while k < rs.len()
        invariant
            k <= rs@.len(),
            mem.wf(),
            ranges_ok(mem, rs@),
            forall|p: int| 0 <= p < mem@.len() ==> #[trigger] mem@[p].len() == FRAME_BYTES,
            out@ + read_ranges(mem@, rs@.skip(k as int)) == read_ranges(mem@, rs@),
        decreases rs@.len() - k,
    {
        let r = rs[k];
        assert(rs@[k as int] == r);
        let ghost before = out@;
        let mut j = r.start;
        while j < r.end
            invariant
                r.start <= j <= r.end <= FRAME_BYTES,
                r.ppn < mem@.len(),
                mem.wf(),
                mem@[r.ppn as int].len() == FRAME_BYTES,
                out@ == before + mem@[r.ppn as int].subrange(r.start as int, j as int),
            decreases r.end - j,
        {
            out.push(mem.read_byte(r.ppn, j));
            proof {
                assert(mem@[r.ppn as int].subrange(r.start as int, j + 1) =~= mem@[r.ppn as int].subrange(r.start as int, j as int).push(mem@[r.ppn as int][j as int]));
            }
            j = j + 1;
        }
        proof {
            let rest = rs@.skip(k as int);
            assert(rest[0] == r);
            assert(rest.drop_first() =~= rs@.skip(k + 1));
            assert(before + read_ranges(mem@, rest) =~= out@ + read_ranges(mem@, rs@.skip(k + 1)));
        }
        k = k + 1;
    }
    proof { assert(out@ + read_ranges(mem@, rs@.skip(k as int)) =~= out@); }
    out
}

/// Writes `data` through the runs, in order, until either runs out; returns
/// how many bytes were written.
pub fn write_user_ranges(mem: &mut PhysMem, rs: &Vec<PhysRange>, data: &[u8]) -> (r: usize)
    requires
        old(mem).wf(),
        ranges_ok(old(mem), rs@),
    ensures
        final(mem).wf(),
        final(mem)@ == write_ranges(old(mem)@, rs@, data@),
        final(mem).tables() == old(mem).tables(),
        forall|q: int| final(mem).allocated(q) == old(mem).allocated(q),
        final(mem).free_count() == old(mem).free_count(),
        final(mem)@.len() == old(mem)@.len(),
        forall|q: int| #[trigger] old(mem).tables().contains_key(q) ==> final(mem)@[q] == old(mem)@[q],
        r == if data@.len() < ranges_len(rs@) { data@.len() } else { ranges_len(rs@) },
{
    let mut k: usize = 0;
    let mut pos: usize = 0;
    proof { assert(rs@.skip(0) =~= rs@); assert(data@.skip(0) =~= data@); }
    while k < rs.len() && pos < data.len()
        invariant
            k <= rs@.len(),
            pos <= data@.len(),
            mem.wf(),
            mem.tables() == old(mem).tables(),
            ranges_ok(old(mem), rs@),
            mem@.len() == old(mem)@.len(),
            forall|q: int| mem.allocated(q) == old(mem).allocated(q),
            mem.free_count() == old(mem).free_count(),
            forall|q: int| #[trigger] old(mem).tables().contains_key(q) ==> mem@[q] == old(mem)@[q],
            write_ranges(mem@, rs@.skip(k as int), data@.skip(pos as int)) == write_ranges(old(mem)@, rs@, data@),
            pos + (if (data@.len() - pos) < ranges_len(rs@.skip(k as int)) { data@.len() - pos } else { ranges_len(rs@.skip(k as int)) as int })
                == if data@.len() < ranges_len(rs@) { data@.len() as int } else { ranges_len(rs@) as int },
        decreases rs@.len() - k,
    {
        let r = rs[k];
        proof { assert(rs@[k as int] == r); }
        let room = r.end - r.start;
        let left = data.len() - pos;
        let n = if room < left { room } else { left };
        proof {
            let rest = rs@.skip(k as int);
            assert(rest[0] == r);
            assert(rest.drop_first() =~= rs@.skip(k + 1));
            assert(data@.skip(pos as int).take(n as int) =~= data@.subrange(pos as int, pos + n));
            assert(data@.skip(pos as int).skip(n as int) =~= data@.skip(pos + n));
        }
        write_bytes(mem, r.ppn, r.start, data, pos, n);
        pos = pos + n;
        k = k + 1;
    }
    proof {
        if k >= rs@.len() {
            assert(rs@.skip(k as int).len() == 0);
        }
    }
    pos
}

/// 功能：从起始虚拟地址 `current` 到结束虚拟地址 `ts_va_end`（左闭右开），
/// 借助传入的页表 `page_table` 完成虚拟地址到物理地址的翻译，
/// 并将 `time_val_bytes` 中的数据写入对应物理内存；
/// 自动处理跨页写入场景，拆分数据到对应物理页。
///
/// Returns `0` when every byte was written, `-1` when the range is empty or
/// a page has no valid, writable leaf entry; the pages before that one are
/// written.
pub fn translated_and_write(mem: &mut PhysMem, current: u64, ts_va_end: u64, page_table: &PageTable, time_val_bytes: &[u8]) -> (r: i64)
    requires
        page_table.wf(old(mem)),
        leaves_in_data(old(mem), page_table.root()),
        ts_va_end <= USER_SPACE_END,
        current < ts_va_end ==> time_val_bytes@.len() >= ts_va_end - current,
    ensures
        final(mem).wf(),
        final(mem).tables() == old(mem).tables(),
        forall|q: int| final(mem).allocated(q) == old(mem).allocated(q),
        final(mem).free_count() == old(mem).free_count(),
        final(mem)@.len() == old(mem)@.len(),
        forall|q: int| #[trigger] old(mem).tables().contains_key(q) ==> final(mem)@[q] == old(mem)@[q],
        current >= ts_va_end ==> r == -1 && final(mem)@ == old(mem)@,
        current < ts_va_end ==> {
            let res = write_user(old(mem)@, page_table.root(), current as int, ts_va_end as int, time_val_bytes@);
            &&& r == (if res.0 { 0i64 } else { -1i64 })
            &&& final(mem)@ == res.1
        },
{
    let mut data_offset: usize = 0;
    let mut current_va = current;
    if current_va >= ts_va_end {
        return -1;
    }
    let ghost root = page_table.root();
    let dl = time_val_bytes.len();
    proof { assert(time_val_bytes@.skip(0) =~= time_val_bytes@); }
    while current_va < ts_va_end
        invariant
            current <= current_va,
            dl == time_val_bytes@.len(),
            data_offset == current_va - current,
            ts_va_end <= USER_SPACE_END,
            time_val_bytes@.len() >= ts_va_end - current,
            mem.wf(),
            mem.tables() == old(mem).tables(),
            root == page_table.root(),
            is_root(mem, root),
            leaves_in_data(mem, root),
            forall|q: int| mem.allocated(q) == old(mem).allocated(q),
            mem.free_count() == old(mem).free_count(),
            mem@.len() == old(mem)@.len(),
            forall|q: int| #[trigger] old(mem).tables().contains_key(q) ==> mem@[q] == old(mem)@[q],
            write_user(mem@, root, current_va as int, ts_va_end as int, time_val_bytes@.skip(data_offset as int))
                == write_user(old(mem)@, root, current as int, ts_va_end as int, time_val_bytes@),
        decreases ts_va_end - current_va,
    {
        proof { lemma_piece(current_va as int, ts_va_end as int); }
        let va = VirtAddr::from_u64(current_va);
        proof {
            assert(current_va < 0x80_0000_0000u64 ==> current_va & 0x7f_ffff_ffffu64 == current_va) by (bit_vector);
        }
        let mut vpn = va.floor();
        let page_offset = va.page_offset();
        let pte = match page_table.translate(mem, vpn) {
            Some(pte) => pte,
            None => return -1,
        };
        if !pte.is_valid() || !pte.writable() {
            return -1;
        }
        let ppn = pte.ppn();
        proof {
            let w = vpn.0;
            lemma_indexes(w, w);
            assert(w <= VPN_MASK);
            assert(mapped_entry(mem@, root, w) == Some(pte.bits));
            assert(mapping(mem@, root).contains_key(w));
            assert(leaf_frame(mem@, root, w) == ppn.0);
        }
        let ghost mb = *mem;
        vpn.step();
        let page_end = VirtAddr::from_vpn(vpn);
        let page_end_va: u64 = page_end.to_u64();
        proof {
            let x = page_end.0;
            assert(x | !0x7f_ffff_ffffu64 >= x) by (bit_vector);
        }
        let write_end_va = if page_end_va < ts_va_end { page_end_va } else { ts_va_end };
        let write_len = (write_end_va - current_va) as usize;
        proof {
            assert(write_end_va == piece_end(current_va as int, ts_va_end as int));
            assert(time_val_bytes@.skip(data_offset as int).take(write_len as int) =~= time_val_bytes@.subrange(data_offset as int, data_offset + write_len));
            assert(time_val_bytes@.skip(data_offset as int).skip(write_len as int) =~= time_val_bytes@.skip(data_offset + write_len));
        }
        write_bytes(mem, ppn.0, page_offset as usize, time_val_bytes, data_offset, write_len);
        proof {
            mb.lemma_wf();
            crate::mm::page_table::lemma_translate_frames(mb@, mem@, mb.tables(), root);
        }
        data_offset += write_len;
        current_va = write_end_va;
    }
    0
}

/// The byte at user address `va` of the address space with root table
/// `root`, when its page has a leaf entry in a frame of memory.
pub open spec fn user_byte(mem: Seq<Seq<u8>>, root: int, va: int) -> Option<u8> {
    match translate_spec(mem, root, (va / 4096) as u64) {
        Some(e) => if (ppn_of(e) as int) < mem.len() {
            Some(mem[ppn_of(e) as int][va % 4096])
        } else {
            None
        },
        None => None,
    }
}

/// The byte `i` places after `ptr`, when it can be read and is not zero.
pub open spec fn nonzero_at(mem: Seq<Seq<u8>>, root: int, ptr: int, i: int) -> bool {
    match user_byte(mem, root, ptr + i) {
        Some(b) => b != 0,
        None => false,
    }
}

/// The string at `ptr` ends `n` bytes on: the bytes before can be read and
/// are not zero, and the byte there is zero.
pub open spec fn cstr_ends(mem: Seq<Seq<u8>>, root: int, ptr: int, n: int) -> bool {
    &&& 0 <= n
    &&& 0 <= ptr
    &&& ptr + n < USER_SPACE_END
    &&& forall|i: int| 0 <= i < n ==> #[trigger] nonzero_at(mem, root, ptr, i)
    &&& user_byte(mem, root, ptr + n) == Some(0u8)
}

/// The characters of the zero-terminated string at `ptr`, one per byte.
pub open spec fn user_cstr(mem: Seq<Seq<u8>>, root: int, ptr: int) -> Seq<char> {
    let n = choose|n: int| cstr_ends(mem, root, ptr, n);
    Seq::new(n as nat, |i: int| (user_byte(mem, root, ptr + i)->0) as char)
}

/// Translate a zero-terminated string of the address space of `token` into
/// a `String`, one character per byte.
pub fn translated_str(mem: &PhysMem, token: u64, ptr: u64) -> (r: String)
    requires
        mem.wf(),
        exists|n: int| cstr_ends(mem@, token_root(token), ptr as int, n),
    ensures
        r@ == user_cstr(mem@, token_root(token), ptr as int),
{
    let page_table = PageTable::from_token(token);
    let ghost root = token_root(token);
    let ghost n = choose|n: int| cstr_ends(mem@, root, ptr as int, n);
    let mut string = String::new();
    let mut va = ptr;
    loop
        invariant
            mem.wf(),
            root == page_table.root(),
            cstr_ends(mem@, root, ptr as int, n),
            ptr <= va <= ptr + n,
            string@ == Seq::new((va - ptr) as nat, |i: int| (user_byte(mem@, root, ptr + i)->0) as char),
        ensures
            va == ptr + n,
            string@ == Seq::new((va - ptr) as nat, |i: int| (user_byte(mem@, root, ptr + i)->0) as char),
        decreases ptr + n - va,
    {
        let v = VirtAddr::from_u64(va);
        proof {
            assert(va < 0x80_0000_0000u64 ==> va & 0x7f_ffff_ffffu64 == va) by (bit_vector);
            if va < ptr + n {
                assert(nonzero_at(mem@, root, ptr as int, va - ptr));
            }
        }
        let vpn = v.floor();
        let off = v.page_offset();
        let pte = page_table.translate(mem, vpn).unwrap();
        let ch = mem.read_byte(pte.ppn().0, off as usize);
        if ch == 0 {
            proof {
                assert(user_byte(mem@, root, va as int) == Some(ch));
                if va < ptr + n {
                    assert(nonzero_at(mem@, root, ptr as int, va - ptr));
                }
            }
            break;
        }
        string_push(&mut string, ch as char);
        proof {
            assert(string@ =~= Seq::new((va + 1 - ptr) as nat, |i: int| (user_byte(mem@, root, ptr + i)->0) as char));
        }
        va = va + 1;
    }
    proof {
        assert(string@ =~= user_cstr(mem@, root, ptr as int));
    }
    string
}

} // verus!
