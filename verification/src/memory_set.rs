//! The areas of an address space and the page-table work they call for.
//!
//! The page table itself and the physical frames live outside this crate: every change an
//! area makes to them is recorded, in order, as a [`PageTableOp`] that the caller carries out.
use vstd::prelude::*;
use std::collections::BTreeSet;
use crate::address::{
    VirtAddr, VirtPageNum, PhysAddr, PhysPageNum, VPNRange, PAGE_SIZE, floor_page, ceil_page, va_bits,
    pa_bits,
};
use crate::config::{MEMORY_END, TRAMPOLINE, TRAP_CONTEXT, USER_STACK_SIZE};
use crate::elf::{
    ElfImage, read_elf_header, read_program_header, read_segment_type, SegmentType, flags_is_read, flags_is_write,
    flags_is_execute, elf_magic, elf_parses, elf_header_reads, elf_is_64, elf_ph_count, elf_ph_table_offset,
    elf_ph_entry_size, elf_entry_point, elf_ph_ok, ph_entry_in_bounds, elf_ph_type, elf_ph_vaddr,
    elf_ph_mem_size, elf_ph_offset, elf_ph_file_size, elf_ph_flags,
};
use crate::range_manager::{RangeManager, ranges_wf};
use vstd::std_specs::iter::IteratorSpec;
use vstd::std_specs::btree::increasing_seq;

verus! {

broadcast use vstd::std_specs::btree::group_btree_axioms;

/// How the pages of an area reach physical memory.
#[derive(Copy, Clone, PartialEq, Eq, Structural, Debug)]
pub enum MapType {
    /// Each page maps to the physical page of the same number.
    Identical,
    /// Each page gets a frame of its own.
    Framed,
}

/// Access rights of an area, laid out as in a page-table entry: `R W X U`.
#[derive(Copy, Clone, PartialEq, Eq, Structural, Debug)]
pub struct MapPermission {
    pub bits: u8,
}

impl MapPermission {
    pub fn empty() -> (p: MapPermission)
        ensures
            p.bits == 0,
    {
        MapPermission { bits: 0 }
    }

    /// Readable.
    pub fn r() -> (p: MapPermission)
        ensures
            p.bits == 2,
    {
        MapPermission { bits: 2 }
    }

    /// Writable.
    pub fn w() -> (p: MapPermission)
        ensures
            p.bits == 4,
    {
        MapPermission { bits: 4 }
    }

    /// Executable.
    pub fn x() -> (p: MapPermission)
        ensures
            p.bits == 8,
    {
        MapPermission { bits: 8 }
    }

    /// Reachable from user mode.
    pub fn u() -> (p: MapPermission)
        ensures
            p.bits == 16,
    {
        MapPermission { bits: 16 }
    }

    /// The rights of both.
    pub fn union(self, other: MapPermission) -> (p: MapPermission)
        ensures
            p.bits == self.bits | other.bits,
    {
        MapPermission { bits: self.bits | other.bits }
    }
}

/// A change to the page table, or to the frames behind it, that an area asks for.
#[derive(Debug, PartialEq, Eq)]
pub enum PageTableOp {
    /// Give the page a fresh frame, owned by its area, and map it with these flags.
    MapFramed(VirtPageNum, u8),
    /// Map the page to the physical page of the same number with these flags.
    MapIdentical(VirtPageNum, u8),
    /// Map the page to the given physical page with these flags.
    MapTo(VirtPageNum, PhysPageNum, u8),
    /// Remove the page's entry.
    Unmap(VirtPageNum),
    /// Give back the frame behind the page.
    ReleaseFrame(VirtPageNum),
    /// Write these bytes at the start of the frame behind the page.
    CopyData(VirtPageNum, Vec<u8>),
}

/// What a [`PageTableOp`] asks for, with page numbers and bytes as plain values.
pub enum OpView {
    MapFramed(usize, u8),
    MapIdentical(usize, u8),
    MapTo(usize, usize, u8),
    Unmap(usize),
    ReleaseFrame(usize),
    CopyData(usize, Seq<u8>),
}

impl View for PageTableOp {
    type V = OpView;

    open spec fn view(&self) -> OpView {
        match self {
            PageTableOp::MapFramed(v, f) => OpView::MapFramed(v.0, *f),
            PageTableOp::MapIdentical(v, f) => OpView::MapIdentical(v.0, *f),
            PageTableOp::MapTo(v, p, f) => OpView::MapTo(v.0, p.0, *f),
            PageTableOp::Unmap(v) => OpView::Unmap(v.0),
            PageTableOp::ReleaseFrame(v) => OpView::ReleaseFrame(v.0),
            PageTableOp::CopyData(v, bytes) => OpView::CopyData(v.0, bytes@),
        }
    }
}

/// The page-table work asked for so far, oldest first.
pub struct PageTableOps {
    ops: Vec<PageTableOp>,
}

impl View for PageTableOps {
    type V = Seq<OpView>;

    closed spec fn view(&self) -> Seq<OpView> {
        self.ops@.map_values(|o: PageTableOp| o@)
    }
}

impl PageTableOps {
    pub fn new() -> (t: PageTableOps)
        ensures
            t@ == Seq::<OpView>::empty(),
    {
        PageTableOps { ops: Vec::new() }
    }

    /// Records one more operation.
    pub fn record(&mut self, op: PageTableOp)
        ensures
            final(self)@ == old(self)@.push(op@),
    {
        let ghost o = op@;
        self.ops.push(op);
        proof {
            assert(self@ =~= old(self)@.push(o));
        }
    }

    /// Hands out the recorded operations, oldest first, and forgets them.
    pub fn take(&mut self) -> (ops: Vec<PageTableOp>)
        ensures
            ops@.map_values(|o: PageTableOp| o@) == old(self)@,
            final(self)@ == Seq::<OpView>::empty(),
    {
        let mut empty: Vec<PageTableOp> = Vec::new();
        std::mem::swap(&mut empty, &mut self.ops);
        empty
    }
}

/// What an area is: its pages `[start, end)`, the pages that own a frame, how it is
/// mapped and its access rights.
pub struct AreaView {
    pub start: usize,
    pub end: usize,
    pub frames: Set<usize>,
    pub map_type: MapType,
    pub perm: u8,
}

/// The operation that maps one page of an area.
pub open spec fn map_op(map_type: MapType, flags: u8, vpn: usize) -> OpView {
    match map_type {
        MapType::Identical => OpView::MapIdentical(vpn, flags),
        MapType::Framed => OpView::MapFramed(vpn, flags),
    }
}

/// The operations that map the pages `[s, e)` of an area, in order.
pub open spec fn map_ops(map_type: MapType, flags: u8, s: int, e: int) -> Seq<OpView> {
    Seq::new((e - s) as nat, |i: int| map_op(map_type, flags, (s + i) as usize))
}

/// The operations that unmap one page: its frame goes back first, if it has one.
pub open spec fn unmap_page_ops(has_frame: bool, vpn: usize) -> Seq<OpView> {
    if has_frame {
        seq![OpView::ReleaseFrame(vpn), OpView::Unmap(vpn)]
    } else {
        seq![OpView::Unmap(vpn)]
    }
}

/// The operations that unmap the pages `[s, e)`, in order; `frames` are those owning a frame.
pub open spec fn unmap_ops(map_type: MapType, frames: Set<usize>, s: int, e: int) -> Seq<OpView>
    decreases e - s,
{
    if e <= s {
        Seq::empty()
    } else {
        unmap_ops(map_type, frames, s, e - 1) + unmap_page_ops(
            map_type == MapType::Framed && frames.contains((e - 1) as usize),
            (e - 1) as usize,
        )
    }
}

/// The operations that give back, in order, the frames that some of the pages lo..hi own.
pub open spec fn release_ops(frames: Set<usize>, lo: int, hi: int) -> Seq<OpView>
    decreases hi - lo,
{
    if hi <= lo {
        Seq::empty()
    } else {
        let rest = release_ops(frames, lo, hi - 1);
        if frames.contains((hi - 1) as usize) {
            rest.push(OpView::ReleaseFrame((hi - 1) as usize))
        } else {
            rest
        }
    }
}

/// The operations that give back the frames of the pages in `frames`, one per frame, in
/// ascending page order.
pub open spec fn releases(ops: Seq<OpView>, frames: Set<usize>) -> bool {
    &&& ops.len() == frames.len()
    &&& forall|i: int| #![trigger ops[i]] 0 <= i < ops.len()
        ==> (ops[i] matches OpView::ReleaseFrame(v) && frames.contains(v))
    &&& forall|i: int, j: int| #![trigger ops[i], ops[j]] 0 <= i < j < ops.len()
        ==> (ops[i] matches OpView::ReleaseFrame(a) && ops[j] matches OpView::ReleaseFrame(b) && a < b)
}

/// The keys a B-tree set hands out come in ascending order.
proof fn lemma_keys_ascend(ks: Seq<&usize>)
    requires
        increasing_seq(ks),
    ensures
        forall|i: int, j: int| 0 <= i < j < ks.len() ==> *ks[i] < *ks[j],
{
    broadcast use vstd::laws_cmp::group_laws_cmp;

    assert forall|i: int, j: int| 0 <= i < j < ks.len() implies *ks[i] < *ks[j] by {
        assert(vstd::std_specs::cmp::OrdSpec::cmp_spec(&ks[i], &ks[j]) is Less);
    }
}

/// The number of pages that bytes `[0, len)` touch, and at least one.
pub open spec fn copy_pages(len: int) -> int {
    if len <= PAGE_SIZE { 1 } else { (len + PAGE_SIZE - 1) / (PAGE_SIZE as int) }
}

/// The operations that copy `data` page by page into the pages from `s` on.
pub open spec fn copy_ops(s: int, data: Seq<u8>) -> Seq<OpView> {
    Seq::new(
        copy_pages(data.len() as int) as nat,
        |i: int| OpView::CopyData(
            (s + i) as usize,
            data.subrange(
                i * PAGE_SIZE,
                if data.len() < (i + 1) * PAGE_SIZE { data.len() as int } else { (i + 1) * PAGE_SIZE },
            ),
        ),
    )
}

/// A contiguous piece of virtual memory with one mapping kind and one set of rights.
pub struct MapArea {
    vpn_range: VPNRange,
    data_frames: BTreeSet<usize>,
    map_type: MapType,
    map_perm: MapPermission,
}

impl View for MapArea {
    type V = AreaView;

    closed spec fn view(&self) -> AreaView {
        AreaView {
            start: self.vpn_range.start(),
            end: self.vpn_range.end(),
            frames: self.data_frames@,
            map_type: self.map_type,
            perm: self.map_perm.bits,
        }
    }
}

impl MapArea {
    /// The area from the page of `start_va` up to the page boundary at or above `end_va`,
    /// with no page mapped yet.
    pub fn new(start_va: VirtAddr, end_va: VirtAddr, map_type: MapType, map_perm: MapPermission) -> (a: MapArea)
        requires
            floor_page(start_va.0 as int) <= ceil_page(end_va.0 as int),
        ensures
            a@.start == floor_page(start_va.0 as int),
            a@.end == ceil_page(end_va.0 as int),
            a@.frames == Set::<usize>::empty(),
            a@.map_type == map_type,
            a@.perm == map_perm.bits,
    {
        let start_vpn = start_va.floor();
        let end_vpn = end_va.ceil();
        MapArea {
            vpn_range: VPNRange::new(start_vpn, end_vpn),
            data_frames: BTreeSet::new(),
            map_type,
            map_perm,
        }
    }

    /// Maps one page: a framed area takes a frame for it first.
    pub fn map_one(&mut self, page_table: &mut PageTableOps, vpn: VirtPageNum)
        ensures
            final(self)@.start == old(self)@.start,
            final(self)@.end == old(self)@.end,
            final(self)@.map_type == old(self)@.map_type,
            final(self)@.perm == old(self)@.perm,
            final(self)@.frames == (if old(self)@.map_type == MapType::Framed {
                old(self)@.frames.insert(vpn.0)
            } else {
                old(self)@.frames
            }),
            final(page_table)@ == old(page_table)@.push(map_op(old(self)@.map_type, old(self)@.perm, vpn.0)),
    {
        match self.map_type {
            MapType::Identical => {
                page_table.record(PageTableOp::MapIdentical(vpn, self.map_perm.bits));
            },
            MapType::Framed => {
                self.data_frames.insert(vpn.0);
                page_table.record(PageTableOp::MapFramed(vpn, self.map_perm.bits));
            },
        }
    }

    /// Unmaps one page: a framed area gives back the page's frame, if it has one, first.
    pub fn unmap_one(&mut self, page_table: &mut PageTableOps, vpn: VirtPageNum)
        ensures
            final(self)@.start == old(self)@.start,
            final(self)@.end == old(self)@.end,
            final(self)@.map_type == old(self)@.map_type,
            final(self)@.perm == old(self)@.perm,
            final(self)@.frames == (if old(self)@.map_type == MapType::Framed {
                old(self)@.frames.remove(vpn.0)
            } else {
                old(self)@.frames
            }),
            final(page_table)@ == old(page_table)@ + unmap_page_ops(
                old(self)@.map_type == MapType::Framed && old(self)@.frames.contains(vpn.0),
                vpn.0,
            ),
    {
        match self.map_type {
            MapType::Framed => {
                let had = self.data_frames.remove(&vpn.0);
                if had {
                    page_table.record(PageTableOp::ReleaseFrame(vpn));
                }
            },
            MapType::Identical => {},
        }
        page_table.record(PageTableOp::Unmap(vpn));
    }

    /// Maps every page of the area, in order.
    pub fn map(&mut self, page_table: &mut PageTableOps)
        ensures
            final(self)@.start == old(self)@.start,
            final(self)@.end == old(self)@.end,
            final(self)@.map_type == old(self)@.map_type,
            final(self)@.perm == old(self)@.perm,
            final(self)@.frames == (if old(self)@.map_type == MapType::Framed {
                old(self)@.frames.union(Set::new(|p: usize| old(self)@.start <= p < old(self)@.end))
            } else {
                old(self)@.frames
            }),
            final(page_table)@ == old(page_table)@ + map_ops(
                old(self)@.map_type,
                old(self)@.perm,
                old(self)@.start as int,
                old(self)@.end as int,
            ),
    {
        let start = self.vpn_range.get_start().0;
        let end = self.vpn_range.get_end().0;
        let ghost a0 = self@;
        let ghost t0 = page_table@;
        let mut vpn = start;
        while vpn < end
            invariant
                start <= vpn <= end,
                start == a0.start,
                end == a0.end,
                self@.start == a0.start,
                self@.end == a0.end,
                self@.map_type == a0.map_type,
                self@.perm == a0.perm,
                self@.frames == (if a0.map_type == MapType::Framed {
                    a0.frames.union(Set::new(|p: usize| start <= p < vpn))
                } else {
                    a0.frames
                }),
                page_table@ == t0 + map_ops(a0.map_type, a0.perm, start as int, vpn as int),
            decreases end - vpn,
        {
            self.map_one(page_table, VirtPageNum(vpn));
            proof {
                assert(map_ops(a0.map_type, a0.perm, start as int, vpn + 1) =~= map_ops(
                    a0.map_type,
                    a0.perm,
                    start as int,
                    vpn as int,
                ).push(map_op(a0.map_type, a0.perm, vpn)));
                assert(a0.frames.union(Set::new(|p: usize| start <= p < vpn + 1)) =~= a0.frames.union(
                    Set::new(|p: usize| start <= p < vpn),
                ).insert(vpn));
            }
            vpn = vpn + 1;
        }
    }

    /// Unmaps every page of the area, in order.
    pub fn unmap(&mut self, page_table: &mut PageTableOps)
        ensures
            final(self)@.start == old(self)@.start,
            final(self)@.end == old(self)@.end,
            final(self)@.map_type == old(self)@.map_type,
            final(self)@.perm == old(self)@.perm,
            final(self)@.frames == (if old(self)@.map_type == MapType::Framed {
                old(self)@.frames.difference(Set::new(|p: usize| old(self)@.start <= p < old(self)@.end))
            } else {
                old(self)@.frames
            }),
            final(page_table)@ == old(page_table)@ + unmap_ops(
                old(self)@.map_type,
                old(self)@.frames,
                old(self)@.start as int,
                old(self)@.end as int,
            ),
    {
        let start = self.vpn_range.get_start().0;
        let end = self.vpn_range.get_end().0;
        let ghost a0 = self@;
        let ghost t0 = page_table@;
        let mut vpn = start;
        while vpn < end
            invariant
                start <= vpn <= end,
                start == a0.start,
                end == a0.end,
                self@.start == a0.start,
                self@.end == a0.end,
                self@.map_type == a0.map_type,
                self@.perm == a0.perm,
                self@.frames == (if a0.map_type == MapType::Framed {
                    a0.frames.difference(Set::new(|p: usize| start <= p < vpn))
                } else {
                    a0.frames
                }),
                page_table@ == t0 + unmap_ops(a0.map_type, a0.frames, start as int, vpn as int),
            decreases end - vpn,
        {
            self.unmap_one(page_table, VirtPageNum(vpn));
            proof {
                assert(a0.frames.difference(Set::new(|p: usize| start <= p < vpn + 1)) =~= a0.frames.difference(
                    Set::new(|p: usize| start <= p < vpn),
                ).remove(vpn));
                assert(unmap_ops(a0.map_type, a0.frames, start as int, vpn + 1) == unmap_ops(
                    a0.map_type,
                    a0.frames,
                    start as int,
                    vpn as int,
                ) + unmap_page_ops(a0.map_type == MapType::Framed && a0.frames.contains(vpn), vpn));
            }
            vpn = vpn + 1;
        }
        proof {
            assert(page_table@ =~= t0 + unmap_ops(a0.map_type, a0.frames, start as int, end as int));
        }
    }

    /// Copies `data` into the frames of the area, one page at a time from its first page.
    pub fn copy_data(&mut self, page_table: &mut PageTableOps, data: &[u8])
        requires
            old(self)@.map_type == MapType::Framed,
            old(self)@.start + copy_pages(data@.len() as int) <= usize::MAX + 1,
        ensures
            final(self)@ == old(self)@,
            final(page_table)@ == old(page_table)@ + copy_ops(old(self)@.start as int, data@),
    {
        let ghost t0 = page_table@;
        let ghost s0 = self@.start;
        let ghost all = copy_ops(s0 as int, data@);
        let len = data.len();
        let mut start: usize = 0;
        let mut current_vpn = self.vpn_range.get_start();
        let mut k: usize = 0;
        assert(t0 + all.subrange(0, 0) =~= t0);
        loop
            invariant_except_break
                start == k * PAGE_SIZE,
                start < len || k == 0,
                current_vpn.0 == s0 + k,
                k < copy_pages(len as int),
            invariant
                len == data@.len(),
                self@.start == s0,
                all == copy_ops(s0 as int, data@),
                s0 + copy_pages(len as int) <= usize::MAX + 1,
                k <= copy_pages(len as int),
                page_table@ == t0 + all.subrange(0, k as int),
            ensures
                k == copy_pages(len as int),
            decreases len - start,
        {
            let stop = if len - start < PAGE_SIZE { len } else { start + PAGE_SIZE };
            let src = vstd::slice::slice_subrange(data, start, stop);
            let bytes = vstd::slice::slice_to_vec(src);
            let ghost before = page_table@;
            let op = PageTableOp::CopyData(current_vpn, bytes);
            proof {
                assert(op@ == all[k as int]);
                assert(all.subrange(0, k + 1) =~= all.subrange(0, k as int).push(all[k as int]));
            }
            page_table.record(op);
            k = k + 1;
            if len - start <= PAGE_SIZE {
                proof {
                    assert(k == copy_pages(len as int)) by (nonlinear_arith)
                        requires
                            start == (k - 1) * 4096,
                            start < len || k == 1,
                            len - start <= 4096,
                            k >= 1,
                            copy_pages(len as int) == (if len <= 4096 { 1 } else { (len + 4095) / 4096 }),
                    ;
                }
                break;
            }
            proof {
                assert(k < copy_pages(len as int)) by (nonlinear_arith)
                    requires
                        start == (k - 1) * 4096,
                        len - start > 4096,
                        k >= 1,
                        copy_pages(len as int) == (if len <= 4096 { 1 } else { (len + 4095) / 4096 }),
                ;
            }
            start = start + PAGE_SIZE;
            current_vpn = VirtPageNum(current_vpn.0 + 1);
        }
        assert(all.subrange(0, k as int) =~= all);
    }
}


/// Whether an area runs over the pages `[s, e)`.
pub open spec fn area_spans(a: AreaView, s: usize, e: usize) -> bool {
    a.start == s && a.end == e
}

/// `i` is the first of `areas` that runs over the pages `[s, e)`.
pub open spec fn is_first_area(areas: Seq<AreaView>, s: usize, e: usize, i: int) -> bool {
    &&& 0 <= i < areas.len()
    &&& area_spans(areas[i], s, e)
    &&& forall|j: int| 0 <= j < i ==> !area_spans(#[trigger] areas[j], s, e)
}

/// The areas and page-table work after a framed area over pages `[s, e)` with rights
/// `perm` was added, every page mapped.
pub open spec fn framed_area_added(
    areas: Seq<AreaView>, ops: Seq<OpView>, areas2: Seq<AreaView>, ops2: Seq<OpView>,
    s: int, e: int, perm: u8,
) -> bool {
    &&& areas2 == areas.push(AreaView {
        start: s as usize,
        end: e as usize,
        frames: page_set(s, e),
        map_type: MapType::Framed,
        perm,
    })
    &&& ops2 == ops + map_ops(MapType::Framed, perm, s, e)
}

/// The areas and page-table work after the first area over `[s, e)` went away with its frames.
/// Its frames are given back, but the page-table entries of its pages stay, still pointing
/// at those frames.
pub open spec fn area_removed(
    areas: Seq<AreaView>, ops: Seq<OpView>, areas2: Seq<AreaView>, ops2: Seq<OpView>,
    s: usize, e: usize,
) -> bool {
    let i = first_area(areas, s, e);
    &&& areas2 == areas.remove(i)
    &&& ops2.len() >= ops.len()
    &&& ops2.subrange(0, ops.len() as int) == ops
    &&& releases(ops2.subrange(ops.len() as int, ops2.len() as int), areas[i].frames)
}

/// The areas and page-table work after the first area over `[os, oe)` was asked to grow
/// into `[ns, ne)` with rights `perm`.
pub open spec fn area_extended(
    areas: Seq<AreaView>, ops: Seq<OpView>, areas2: Seq<AreaView>, ops2: Seq<OpView>,
    os: usize, oe: usize, ns: usize, ne: usize, perm: u8,
) -> bool {
    let i = first_area(areas, os, oe);
    let a = areas[i];
    if a.perm == perm && oe == ne && ns < os {
        &&& areas2 == areas.update(i, reshaped(a, ns, ne, frames_after_map(a, ns as int, os as int)))
        &&& ops2 == ops + map_ops(a.map_type, a.perm, ns as int, os as int)
    } else if a.perm == perm && os == ns && ne > oe {
        &&& areas2 == areas.update(i, reshaped(a, ns, ne, frames_after_map(a, oe as int, ne as int)))
        &&& ops2 == ops + map_ops(a.map_type, a.perm, oe as int, ne as int)
    } else {
        &&& areas2 == areas
        &&& ops2 == ops
    }
}

/// The areas and page-table work after the first area over `[os, oe)` was asked to
/// shrink into `[ns, ne)`.
pub open spec fn area_shrunk(
    areas: Seq<AreaView>, ops: Seq<OpView>, areas2: Seq<AreaView>, ops2: Seq<OpView>,
    os: usize, oe: usize, ns: usize, ne: usize,
) -> bool {
    let i = first_area(areas, os, oe);
    let a = areas[i];
    if oe == ne && ns > os {
        &&& areas2 == areas.update(i, reshaped(a, ns, ne, frames_after_unmap(a, os as int, ns as int)))
        &&& ops2 == ops + unmap_ops(a.map_type, a.frames, os as int, ns as int)
    } else if os == ns && ne < oe {
        &&& areas2 == areas.update(i, reshaped(a, ns, ne, frames_after_unmap(a, ne as int, oe as int)))
        &&& ops2 == ops + unmap_ops(a.map_type, a.frames, ne as int, oe as int)
    } else {
        &&& areas2 == areas
        &&& ops2 == ops
    }
}

/// The areas and page-table work after the first areas over `[fs, fe)` and `[bs, be)`
/// were asked to join, with rights `perm`.
pub open spec fn areas_combined(
    areas: Seq<AreaView>, ops: Seq<OpView>, areas2: Seq<AreaView>, ops2: Seq<OpView>,
    fs: usize, fe: usize, bs: usize, be: usize, perm: u8,
) -> bool {
    let fi = first_area(areas, fs, fe);
    let bi = first_area(areas, bs, be);
    let a = areas[fi];
    let b = areas[bi];
    let moved = if fi == bi { a.frames } else { a.frames.union(page_set(bs as int, be as int)) };
    let a2 = reshaped(a, fs, be, frames_after_map(reshaped(a, fs, fe, moved), fe as int, bs as int));
    let left = if fi == bi { a2.frames } else { b.frames.difference(page_set(bs as int, be as int)) };
    let n = ops.len() + (bs - fe);
    if a.perm == perm && b.perm == perm {
        &&& areas2 == areas.update(fi, a2).remove(bi)
        &&& ops2.len() >= n
        &&& ops2.subrange(0, n) == ops + map_ops(a.map_type, a.perm, fe as int, bs as int)
        &&& releases(ops2.subrange(n, ops2.len() as int), left)
    } else {
        &&& areas2 == areas
        &&& ops2 == ops
    }
}

/// The areas and page-table work after the first area over `[fs, be)` was cut into
/// `[fs, fe)` and `[bs, be)`. The frames of the pages in between are given back, but their
/// page-table entries stay, still pointing at those frames.
pub open spec fn area_split(
    areas: Seq<AreaView>, ops: Seq<OpView>, areas2: Seq<AreaView>, ops2: Seq<OpView>,
    fs: usize, fe: usize, bs: usize, be: usize,
) -> bool {
    let i = first_area(areas, fs, be);
    let a = areas[i];
    &&& areas2 == areas.update(
        i,
        reshaped(a, fs, fe, a.frames.difference(page_set(fe as int, bs as int)).difference(page_set(bs as int, be as int))),
    ).push(AreaView { start: bs, end: be, frames: page_set(bs as int, be as int), map_type: MapType::Framed, perm: a.perm })
    &&& ops2 == ops + release_ops(a.frames, fe as int, bs as int)
}

/// Where the linker put the kernel's sections: start and end addresses.
pub struct KernelLayout {
    pub stext: usize,
    pub etext: usize,
    pub srodata: usize,
    pub erodata: usize,
    pub sdata: usize,
    pub edata: usize,
    pub sbss_with_stack: usize,
    pub ebss: usize,
    pub ekernel: usize,
    pub strampoline: usize,
}

/// An area over the pages from that of `s` up to the boundary at or above `e`.
pub open spec fn spans_addrs(s: usize, e: usize) -> bool {
    floor_page(va_bits(s) as int) <= ceil_page(va_bits(e) as int)
}

/// Whether an area from the address `s` up to `e` can be built.
fn addrs_span(s: usize, e: usize) -> (b: bool)
    ensures
        b == spans_addrs(s, e),
{
    VirtAddr::from_usize(s).floor().0 <= VirtAddr::from_usize(e).ceil().0
}

impl KernelLayout {
    /// Every section ends no lower than the page where it starts, and the trampoline code
    /// starts a page.
    pub open spec fn wf(&self) -> bool {
        &&& spans_addrs(self.stext, self.etext)
        &&& spans_addrs(self.srodata, self.erodata)
        &&& spans_addrs(self.sdata, self.edata)
        &&& spans_addrs(self.sbss_with_stack, self.ebss)
        &&& spans_addrs(self.ekernel, MEMORY_END)
        &&& pa_bits(self.strampoline) % PAGE_SIZE == 0
    }

    /// Whether [`MemorySet::new_kernel`] can build the kernel's address space from this layout.
    pub fn is_wf(&self) -> (b: bool)
        ensures
            b == self.wf(),
    {
        addrs_span(self.stext, self.etext) && addrs_span(self.srodata, self.erodata)
            && addrs_span(self.sdata, self.edata) && addrs_span(self.sbss_with_stack, self.ebss)
            && addrs_span(self.ekernel, MEMORY_END) && PhysAddr::from_usize(self.strampoline).aligned()
    }
}

/// The page-table entry of the trampoline.
pub open spec fn trampoline_op(strampoline: usize) -> OpView {
    OpView::MapTo((va_bits(TRAMPOLINE) / PAGE_SIZE) as usize, (pa_bits(strampoline) / PAGE_SIZE) as usize, 10)
}

/// The area mapping `[s, e)` (as addresses) to itself with rights `perm`.
pub open spec fn identical_area(s: usize, e: usize, perm: u8) -> AreaView {
    AreaView {
        start: floor_page(va_bits(s) as int) as usize,
        end: ceil_page(va_bits(e) as int) as usize,
        frames: Set::empty(),
        map_type: MapType::Identical,
        perm,
    }
}

/// The operations that map `[s, e)` (as addresses) to itself with rights `perm`.
pub open spec fn identical_ops(s: usize, e: usize, perm: u8) -> Seq<OpView> {
    map_ops(MapType::Identical, perm, floor_page(va_bits(s) as int), ceil_page(va_bits(e) as int))
}

/// The areas of the kernel's address space.
pub open spec fn kernel_areas(l: &KernelLayout) -> Seq<AreaView> {
    seq![
        identical_area(l.stext, l.etext, 10),
        identical_area(l.srodata, l.erodata, 2),
        identical_area(l.sdata, l.edata, 6),
        identical_area(l.sbss_with_stack, l.ebss, 6),
        identical_area(l.ekernel, MEMORY_END, 6),
    ]
}

/// The page-table work that builds the kernel's address space.
pub open spec fn kernel_ops(l: &KernelLayout) -> Seq<OpView> {
    seq![trampoline_op(l.strampoline)] + identical_ops(l.stext, l.etext, 10) + identical_ops(
        l.srodata,
        l.erodata,
        2,
    ) + identical_ops(l.sdata, l.edata, 6) + identical_ops(l.sbss_with_stack, l.ebss, 6)
        + identical_ops(l.ekernel, MEMORY_END, 6)
}

/// The trampoline's address keeps its page alignment when cut to a virtual address.
proof fn lemma_trampoline_aligned()
    ensures
        va_bits(TRAMPOLINE) % PAGE_SIZE == 0,
{
    assert(va_bits(TRAMPOLINE) % 4096 == 0) by (nonlinear_arith)
        requires
            TRAMPOLINE == usize::MAX - 4095,
            usize::MAX == 0xffff_ffff || usize::MAX == 0xffff_ffff_ffff_ffff,
            va_bits(TRAMPOLINE) == (TRAMPOLINE as int % 0x80_0000_0000int) as usize,
    ;
}

/// The rights a loadable segment with flag bits `flags` gets: user access, plus read,
/// write and execute for its `R`, `W` and `X` bits.
pub open spec fn segment_perm(flags: u32) -> u8 {
    (16 + (if flags & 4 == 4 { 2int } else { 0 }) + (if flags & 2 == 2 { 4int } else { 0 })
        + (if flags & 1 == 1 { 8int } else { 0 })) as u8
}

/// The first page of segment `i` of `data`.
pub open spec fn seg_lo(data: Seq<u8>, i: u16) -> int {
    floor_page(va_bits(elf_ph_vaddr(data, i) as usize) as int)
}

/// The page boundary at or above the end of segment `i` of `data` in memory.
pub open spec fn seg_hi(data: Seq<u8>, i: u16) -> int {
    ceil_page(va_bits((elf_ph_vaddr(data, i) + elf_ph_mem_size(data, i)) as usize) as int)
}

/// The bytes of segment `i` that `data` holds.
pub open spec fn seg_bytes(data: Seq<u8>, i: u16) -> Seq<u8> {
    data.subrange(elf_ph_offset(data, i) as int, elf_ph_offset(data, i) + elf_ph_file_size(data, i))
}

/// Segment `i` of `data` is loaded.
pub open spec fn is_load(data: Seq<u8>, i: u16) -> bool {
    elf_ph_type(data, i) == Some(SegmentType::Load)
}

/// The area that holds segment `i` of `data`.
pub open spec fn seg_area(data: Seq<u8>, i: u16) -> AreaView {
    AreaView {
        start: seg_lo(data, i) as usize,
        end: seg_hi(data, i) as usize,
        frames: page_set(seg_lo(data, i), seg_hi(data, i)),
        map_type: MapType::Framed,
        perm: segment_perm(elf_ph_flags(data, i)),
    }
}

/// The page-table work that maps segment `i` of `data` and fills it.
pub open spec fn seg_ops(data: Seq<u8>, i: u16) -> Seq<OpView> {
    map_ops(MapType::Framed, segment_perm(elf_ph_flags(data, i)), seg_lo(data, i), seg_hi(data, i))
        + copy_ops(seg_lo(data, i), seg_bytes(data, i))
}

/// The areas of the loaded segments among the first `n`.
pub open spec fn load_areas(data: Seq<u8>, n: nat) -> Seq<AreaView>
    decreases n,
{
    if n == 0 {
        Seq::empty()
    } else {
        let r = load_areas(data, (n - 1) as nat);
        if is_load(data, (n - 1) as u16) {
            r.push(seg_area(data, (n - 1) as u16))
        } else {
            r
        }
    }
}

/// The page-table work for the loaded segments among the first `n`.
pub open spec fn load_ops(data: Seq<u8>, n: nat) -> Seq<OpView>
    decreases n,
{
    if n == 0 {
        Seq::empty()
    } else {
        let r = load_ops(data, (n - 1) as nat);
        if is_load(data, (n - 1) as u16) {
            r + seg_ops(data, (n - 1) as u16)
        } else {
            r
        }
    }
}

/// The page boundary above the last loaded segment among the first `n`; `0` without one.
pub open spec fn last_load_end(data: Seq<u8>, n: nat) -> int
    decreases n,
{
    if n == 0 {
        0
    } else if is_load(data, (n - 1) as u16) {
        seg_hi(data, (n - 1) as u16)
    } else {
        last_load_end(data, (n - 1) as nat)
    }
}

/// Program header `i` of `data` can be read and names a valid type, and, when its segment
/// is loaded, its addresses do not overflow, its bytes lie in `data`, and the pages they are
/// copied into, from the segment's first page on, have numbers.
pub open spec fn segment_loadable(data: Seq<u8>, i: u16) -> bool {
    &&& elf_ph_ok(data, i)
    &&& ph_entry_in_bounds(data, i)
    &&& elf_ph_type(data, i) is Some
    &&& is_load(data, i) ==> {
        &&& elf_ph_vaddr(data, i) + elf_ph_mem_size(data, i) <= u64::MAX
        &&& elf_ph_offset(data, i) + elf_ph_file_size(data, i) <= data.len()
        &&& seg_lo(data, i) <= seg_hi(data, i)
        &&& seg_lo(data, i) + copy_pages(elf_ph_file_size(data, i) as int) <= usize::MAX + 1
    }
}

/// The bottom of the user stack: a guard page above the last loaded segment.
pub open spec fn user_stack_bottom(data: Seq<u8>) -> int {
    last_load_end(data, elf_ph_count(data) as nat) * PAGE_SIZE + PAGE_SIZE
}

/// The top of the user stack.
pub open spec fn user_stack_top(data: Seq<u8>) -> int {
    user_stack_bottom(data) + USER_STACK_SIZE
}

/// `data` is an ELF image that the loader can map without failing.
pub open spec fn elf_loadable(data: Seq<u8>) -> bool {
    &&& elf_header_reads(data)
    &&& forall|i: u16| i < elf_ph_count(data) ==> #[trigger] segment_loadable(data, i)
    &&& user_stack_top(data) <= usize::MAX
    &&& spans_addrs(user_stack_bottom(data) as usize, user_stack_top(data) as usize)
}

/// The areas of a user address space built from `data`: the loaded segments, the user
/// stack, and the trap context page.
pub open spec fn elf_areas(data: Seq<u8>) -> Seq<AreaView> {
    load_areas(data, elf_ph_count(data) as nat).push(
        framed_area(user_stack_bottom(data) as usize, user_stack_top(data) as usize, 22),
    ).push(framed_area(TRAP_CONTEXT, TRAMPOLINE, 6))
}

/// The page-table work that builds a user address space from `data`.
pub open spec fn elf_ops(data: Seq<u8>, strampoline: usize) -> Seq<OpView> {
    seq![trampoline_op(strampoline)] + load_ops(data, elf_ph_count(data) as nat) + framed_ops(
        user_stack_bottom(data) as usize,
        user_stack_top(data) as usize,
        22,
    ) + framed_ops(TRAP_CONTEXT, TRAMPOLINE, 6)
}

/// The framed area over `[s, e)` (as addresses) with rights `perm`, every page mapped.
pub open spec fn framed_area(s: usize, e: usize, perm: u8) -> AreaView {
    AreaView {
        start: floor_page(va_bits(s) as int) as usize,
        end: ceil_page(va_bits(e) as int) as usize,
        frames: page_set(floor_page(va_bits(s) as int), ceil_page(va_bits(e) as int)),
        map_type: MapType::Framed,
        perm,
    }
}

/// The operations that map the framed area over `[s, e)` (as addresses).
pub open spec fn framed_ops(s: usize, e: usize, perm: u8) -> Seq<OpView> {
    map_ops(MapType::Framed, perm, floor_page(va_bits(s) as int), ceil_page(va_bits(e) as int))
}

/// The trap context page keeps its place below the trampoline when cut to a virtual address.
proof fn lemma_trap_context_span()
    ensures
        spans_addrs(TRAP_CONTEXT, TRAMPOLINE),
{
    assert(spans_addrs(TRAP_CONTEXT, TRAMPOLINE)) by (nonlinear_arith)
        requires
            TRAMPOLINE == usize::MAX - 4095,
            TRAP_CONTEXT == usize::MAX - 8191,
            usize::MAX == 0xffff_ffff || usize::MAX == 0xffff_ffff_ffff_ffff,
            va_bits(TRAMPOLINE) == (TRAMPOLINE as int % 0x80_0000_0000int) as usize,
            va_bits(TRAP_CONTEXT) == (TRAP_CONTEXT as int % 0x80_0000_0000int) as usize,
            floor_page(va_bits(TRAP_CONTEXT) as int) == va_bits(TRAP_CONTEXT) as int / 4096,
            ceil_page(va_bits(TRAMPOLINE) as int) == (va_bits(TRAMPOLINE) as int + 4095) / 4096,
            spans_addrs(TRAP_CONTEXT, TRAMPOLINE) == (floor_page(va_bits(TRAP_CONTEXT) as int) <= ceil_page(va_bits(TRAMPOLINE) as int)),
    ;
}

/// The first area over some pages is unique.
pub proof fn lemma_first_area_unique(areas: Seq<AreaView>, lo: usize, hi: usize, a: int, b: int)
    requires
        is_first_area(areas, lo, hi, a),
        is_first_area(areas, lo, hi, b),
    ensures
        a == b,
{
    if a < b {
        assert(!area_spans(areas[a], lo, hi));
    } else if b < a {
        assert(!area_spans(areas[b], lo, hi));
    }
}

/// Growing an area at one end and then shrinking it back gives back the same areas, the
/// area owning no frame for the pages it grew over, when no area ahead of it already ran
/// over the grown range; the work maps those pages and then unmaps them.
pub proof fn lemma_extend_then_shrink(
    a0: Seq<AreaView>, t0: Seq<OpView>,
    a1: Seq<AreaView>, t1: Seq<OpView>,
    a2: Seq<AreaView>, t2: Seq<OpView>,
    ps: usize, pe: usize, ns: usize, ne: usize, perm: u8,
)
    requires
        has_area(a0, ps, pe),
        a0[first_area(a0, ps, pe)].perm == perm,
        (pe == ne && ns < ps) || (ps == ns && pe < ne),
        forall|j: int| 0 <= j < first_area(a0, ps, pe) ==> !area_spans(#[trigger] a0[j], ns, ne),
        area_extended(a0, t0, a1, t1, ps, pe, ns, ne, perm),
        area_shrunk(a1, t1, a2, t2, ns, ne, ps, pe),
    ensures
        ({
            let i = first_area(a0, ps, pe);
            let a = a0[i];
            let xs = if ns < ps { ns } else { pe };
            let xe = if ns < ps { ps } else { ne };
            &&& a2 == a0.update(i, reshaped(a, ps, pe, frames_after_unmap(reshaped(a, ns, ne, frames_after_map(a, xs as int, xe as int)), xs as int, xe as int)))
            &&& t2 == t0 + map_ops(a.map_type, a.perm, xs as int, xe as int) + unmap_ops(a.map_type, frames_after_map(a, xs as int, xe as int), xs as int, xe as int)
            &&& (a.map_type == MapType::Framed && a.frames.disjoint(page_set(xs as int, xe as int))) ==> a2 == a0
        }),
{
    let i = first_area(a0, ps, pe);
    lemma_first_area_exists(a0, ps, pe);
    let a = a0[i];
    let xs = if ns < ps { ns } else { pe };
    let xe = if ns < ps { ps } else { ne };
    let grown = reshaped(a, ns, ne, frames_after_map(a, xs as int, xe as int));
    assert(a1 == a0.update(i, grown));
    assert forall|j: int| 0 <= j < i implies !area_spans(#[trigger] a1[j], ns, ne) by {
        assert(a1[j] == a0[j]);
    }
    lemma_first_area_is(a1, ns, ne, i);
    assert(a1[i] == grown);
    if a.map_type == MapType::Framed && a.frames.disjoint(page_set(xs as int, xe as int)) {
        assert(a.frames.union(page_set(xs as int, xe as int)).difference(page_set(xs as int, xe as int)) =~= a.frames);
        assert(a2[i] == a);
        assert(a2 =~= a0);
    }
}

/// When some area below index `k` runs over `[s, e)`, one of them is the first.
proof fn lemma_first_area_below(areas: Seq<AreaView>, s: usize, e: usize, k: int)
    requires
        0 <= k <= areas.len(),
        exists|i: int| 0 <= i < k && area_spans(#[trigger] areas[i], s, e),
    ensures
        exists|i: int| is_first_area(areas, s, e, i),
    decreases k,
{
    if exists|i: int| 0 <= i < k - 1 && area_spans(#[trigger] areas[i], s, e) {
        lemma_first_area_below(areas, s, e, k - 1);
    } else {
        assert(area_spans(areas[k - 1], s, e));
        assert(is_first_area(areas, s, e, k - 1));
    }
}

/// When some area runs over `[s, e)`, `first_area` names the first of them.
pub proof fn lemma_first_area_exists(areas: Seq<AreaView>, s: usize, e: usize)
    requires
        has_area(areas, s, e),
    ensures
        is_first_area(areas, s, e, first_area(areas, s, e)),
{
    lemma_first_area_below(areas, s, e, areas.len() as int);
}

/// When `k` is the first area over `[s, e)`, `first_area` names it.
pub proof fn lemma_first_area_is(areas: Seq<AreaView>, s: usize, e: usize, k: int)
    requires
        is_first_area(areas, s, e, k),
    ensures
        has_area(areas, s, e),
        first_area(areas, s, e) == k,
{
    lemma_first_area_unique(areas, s, e, k, first_area(areas, s, e));
}

/// Some area runs over the pages `[s, e)`.
pub open spec fn has_area(areas: Seq<AreaView>, s: usize, e: usize) -> bool {
    exists|i: int| 0 <= i < areas.len() && area_spans(#[trigger] areas[i], s, e)
}

/// The first area that runs over the pages `[s, e)` (meaningful when `has_area`).
pub open spec fn first_area(areas: Seq<AreaView>, s: usize, e: usize) -> int {
    choose|i: int| is_first_area(areas, s, e, i)
}

/// The pages `[s, e)` as a set of page numbers.
pub open spec fn page_set(s: int, e: int) -> Set<usize> {
    Set::new(|p: usize| s <= p < e)
}

/// An area with new bounds and frames, the same kind and rights.
pub open spec fn reshaped(a: AreaView, s: usize, e: usize, frames: Set<usize>) -> AreaView {
    AreaView { start: s, end: e, frames, map_type: a.map_type, perm: a.perm }
}

/// The frames an area owns after it has mapped the pages `[s, e)`.
pub open spec fn frames_after_map(a: AreaView, s: int, e: int) -> Set<usize> {
    if a.map_type == MapType::Framed {
        a.frames.union(page_set(s, e))
    } else {
        a.frames
    }
}

/// The frames an area owns after it has unmapped the pages `[s, e)`.
pub open spec fn frames_after_unmap(a: AreaView, s: int, e: int) -> Set<usize> {
    if a.map_type == MapType::Framed {
        a.frames.difference(page_set(s, e))
    } else {
        a.frames
    }
}


/// The areas of an address space, the ranges mapped into it on request, and the page-table
/// work asked for but not yet carried out.
pub struct MemorySet {
    page_table: PageTableOps,
    areas: Vec<MapArea>,
    range_manager: RangeManager,
}

impl MemorySet {
    /// The areas, in the order they were added.
    pub closed spec fn areas(&self) -> Seq<AreaView> {
        self.areas@.map_values(|a: MapArea| a@)
    }

    /// The page-table work asked for and not yet handed out, oldest first.
    pub closed spec fn ops(&self) -> Seq<OpView> {
        self.page_table@
    }

    /// The ranges mapped into the address space on request, as `end -> start`.
    pub closed spec fn ranges(&self) -> Map<usize, usize> {
        self.range_manager@
    }

    /// The range manager, lent out for a change; the areas and the page-table work stay.
    pub fn borrow_range_manager(&mut self) -> (rm: &mut RangeManager)
        ensures
            rm@ == old(self).ranges(),
            final(self).ranges() == final(rm)@,
            final(self).areas() == old(self).areas(),
            final(self).ops() == old(self).ops(),
    {
        &mut self.range_manager
    }

    /// The mapped ranges, to read.
    pub fn range_manager(&self) -> (rm: &RangeManager)
        ensures
            rm@ == self.ranges(),
    {
        &self.range_manager
    }

    /// The rights of area `idx`.
    pub fn area_perm(&self, idx: usize) -> (perm: u8)
        requires
            idx < self.areas().len(),
        ensures
            perm == self.areas()[idx as int].perm,
    {
        self.areas[idx].map_perm.bits
    }

    /// Whether area `idx` owns a frame for each of the pages `[s, e)`.
    pub fn area_owns_pages(&self, idx: usize, s: usize, e: usize) -> (b: bool)
        requires
            idx < self.areas().len(),
        ensures
            b == page_set(s as int, e as int).subset_of(self.areas()[idx as int].frames),
    {
        let frames = &self.areas[idx].data_frames;
        let mut v = s;
        while v < e
            invariant
                s <= v,
                idx < self.areas().len(),
                frames@ == self.areas()[idx as int].frames,
                forall|p: usize| s <= p < v ==> #[trigger] frames@.contains(p),
            decreases e - v,
        {
            if !frames.contains(&v) {
                assert(page_set(s as int, e as int).contains(v));
                return false;
            }
            v = v + 1;
        }
        assert forall|p: usize| page_set(s as int, e as int).contains(p) implies frames@.contains(p) by {
            assert(s <= p < v);
        }
        true
    }

    /// The address space's invariant: its mapped ranges are well formed.
    pub open spec fn wf(&self) -> bool {
        ranges_wf(self.ranges())
    }

    pub fn new_bare() -> (ms: MemorySet)
        ensures
            ms.wf(),
            ms.areas() == Seq::<AreaView>::empty(),
            ms.ops() == Seq::<OpView>::empty(),
            ms.ranges() == Map::<usize, usize>::empty(),
    {
        MemorySet { page_table: PageTableOps::new(), areas: Vec::new(), range_manager: RangeManager::new() }
    }

    /// Hands out the page-table work asked for so far, oldest first, and forgets it.
    pub fn take_page_table_ops(&mut self) -> (ops: Vec<PageTableOp>)
        ensures
            ops@.map_values(|o: PageTableOp| o@) == old(self).ops(),
            final(self).ops() == Seq::<OpView>::empty(),
            final(self).areas() == old(self).areas(),
            final(self).ranges() == old(self).ranges(),
            final(self).wf() == old(self).wf(),
    {
        self.page_table.take()
    }

    /// The index of the first area that runs over exactly `vpn_range`.
    pub fn find_area_idx(&self, vpn_range: VPNRange) -> (idx: Option<usize>)
        ensures
            match idx {
                Some(i) => is_first_area(self.areas(), vpn_range.start(), vpn_range.end(), i as int),
                None => !has_area(self.areas(), vpn_range.start(), vpn_range.end()),
            },
    {
        let mut i: usize = 0;
        while i < self.areas.len()
            invariant
                i <= self.areas@.len(),
                forall|j: int| 0 <= j < i ==> !area_spans(#[trigger] self.areas()[j], vpn_range.start(), vpn_range.end()),
            decreases self.areas@.len() - i,
        {
            let same = self.areas[i].vpn_range == vpn_range;
            proof {
                if area_spans(self.areas()[i as int], vpn_range.start(), vpn_range.end()) {
                    self.areas@[i as int].vpn_range.lemma_spans_determine(vpn_range);
                }
            }
            if same {
                return Some(i);
            }
            i = i + 1;
        }
        None
    }

    /// Maps every page of `map_area`, copies `data` into it from its first page if there
    /// is any, and adds it to the address space.
    pub fn push(&mut self, map_area: MapArea, data: Option<&[u8]>)
        requires
            data matches Some(d) ==> map_area@.map_type == MapType::Framed
                && map_area@.start + copy_pages(d@.len() as int) <= usize::MAX + 1,
        ensures
            final(self).ranges() == old(self).ranges(),
            final(self).areas() == old(self).areas().push(reshaped(
                map_area@,
                map_area@.start,
                map_area@.end,
                frames_after_map(map_area@, map_area@.start as int, map_area@.end as int),
            )),
            final(self).ops() == old(self).ops() + map_ops(
                map_area@.map_type,
                map_area@.perm,
                map_area@.start as int,
                map_area@.end as int,
            ) + match data {
                None => Seq::<OpView>::empty(),
                Some(d) => copy_ops(map_area@.start as int, d@),
            },
    {
        let mut map_area = map_area;
        let ghost a0 = map_area@;
        map_area.map(&mut self.page_table);
        if let Some(data) = data {
            map_area.copy_data(&mut self.page_table, data);
        }
        self.areas.push(map_area);
        proof {
            assert(self.areas() =~= old(self).areas().push(map_area@));
            assert(self.ops() =~= old(self).ops() + map_ops(a0.map_type, a0.perm, a0.start as int, a0.end as int) + match data {
                None => Seq::<OpView>::empty(),
                Some(d) => copy_ops(a0.start as int, d@),
            });
        }
    }

    /// Adds a framed area from the page of `start_va` up to the page boundary at or above
    /// `end_va`, with every page mapped.
    pub fn insert_framed_area(&mut self, start_va: VirtAddr, end_va: VirtAddr, permission: MapPermission)
        requires
            floor_page(start_va.0 as int) <= ceil_page(end_va.0 as int),
        ensures
            final(self).ranges() == old(self).ranges(),
            framed_area_added(old(self).areas(), old(self).ops(), final(self).areas(), final(self).ops(), floor_page(start_va.0 as int), ceil_page(end_va.0 as int), permission.bits),
    {
        self.push(MapArea::new(start_va, end_va, MapType::Framed, permission), None);
        proof {
            let s = floor_page(start_va.0 as int);
            let e = ceil_page(end_va.0 as int);
            assert(Set::<usize>::empty().union(page_set(s, e)) =~= page_set(s, e));
            assert(self.ops().subrange(0, self.ops().len() as int) =~= self.ops());
        }
    }

    /// Takes away the first area that runs over exactly `vpn_rng`; its frames go back, while
    /// the page-table entries of its pages are left in place.
    pub fn remove_framed_area(&mut self, vpn_rng: VPNRange)
        requires
            has_area(old(self).areas(), vpn_rng.start(), vpn_rng.end()),
        ensures
            final(self).ranges() == old(self).ranges(),
            area_removed(old(self).areas(), old(self).ops(), final(self).areas(), final(self).ops(), vpn_rng.start(), vpn_rng.end()),
    {
        let idx = self.find_area_idx(vpn_rng);
        proof {
            let i = first_area(old(self).areas(), vpn_rng.start(), vpn_rng.end());
            assert(is_first_area(old(self).areas(), vpn_rng.start(), vpn_rng.end(), i));
            lemma_first_area_unique(old(self).areas(), vpn_rng.start(), vpn_rng.end(), i, idx.unwrap() as int);
        }
        let idx = idx.unwrap();
        let area = self.areas.remove(idx);
        proof {
            assert(self.areas() =~= old(self).areas().remove(idx as int));
        }
        self.release_frames(&area);
    }

    /// Gives back every frame of an area that goes away.
    fn release_frames(&mut self, area: &MapArea)
        ensures
            final(self).ranges() == old(self).ranges(),
            final(self).areas() == old(self).areas(),
            final(self).ops().len() >= old(self).ops().len(),
            final(self).ops().subrange(0, old(self).ops().len() as int) == old(self).ops(),
            releases(final(self).ops().subrange(old(self).ops().len() as int, final(self).ops().len() as int), area@.frames),
    {
        let ghost t0 = self.page_table@;
        let ghost n = t0.len();
        let ghost ks = vstd::std_specs::btree::spec_btree_keys_iter(&area.data_frames).remaining();
        proof {
            vstd::std_specs::btree::axiom_spec_btree_keys_iter(&area.data_frames);
        }
        for vpn in it: area.data_frames.iter()
            invariant
                it.seq() == ks,
                ks.unref().to_set() == area@.frames,
                ks.no_duplicates(),
                self.ranges() == old(self).ranges(),
                self.areas() == old(self).areas(),
                self.page_table@.len() == n + it.index(),
                self.page_table@.subrange(0, n as int) == t0,
                forall|i: int| #![trigger self.page_table@[n + i]] 0 <= i < it.index()
                    ==> self.page_table@[n + i] == OpView::ReleaseFrame(*it.seq()[i]),
        {
            let ghost before = self.page_table@;
            self.page_table.record(PageTableOp::ReleaseFrame(VirtPageNum(*vpn)));
            proof {
                assert forall|i: int| #![trigger self.page_table@[n + i]] 0 <= i < it.index() + 1
                    implies self.page_table@[n + i] == OpView::ReleaseFrame(*it.seq()[i]) by {
                    if i < it.index() {
                        assert(self.page_table@[n + i] == before[n + i]);
                    }
                }
                assert(self.page_table@.subrange(0, n as int) =~= before.subrange(0, n as int));
            }
        }
        proof {
            let tail = self.page_table@.subrange(n as int, self.page_table@.len() as int);
            assert forall|i: int| 0 <= i < tail.len() implies #[trigger] tail[i] == self.page_table@[n + i] by {}
            assert forall|i: int| #![trigger tail[i]] 0 <= i < tail.len()
                implies (tail[i] matches OpView::ReleaseFrame(v) && area@.frames.contains(v)) by {
                assert(ks.unref()[i] == *ks[i]);
                assert(ks.unref().to_set().contains(ks.unref()[i]));
            }
            lemma_keys_ascend(ks);
            assert forall|i: int, j: int| #![trigger tail[i], tail[j]] 0 <= i < j < tail.len()
                implies (tail[i] matches OpView::ReleaseFrame(a) && tail[j] matches OpView::ReleaseFrame(b) && a < b) by {
                assert(*ks[i] < *ks[j]);
            }
        }
    }

    /// Grows the first area over exactly `prev_range` into `new_range`, mapping the new
    /// pages, when its rights are `map_perm` and `new_range` adds pages at one end only.
    pub fn extend_framed_area(&mut self, prev_range: VPNRange, new_range: VPNRange, map_perm: MapPermission)
        requires
            has_area(old(self).areas(), prev_range.start(), prev_range.end()),
        ensures
            final(self).ranges() == old(self).ranges(),
            area_extended(old(self).areas(), old(self).ops(), final(self).areas(), final(self).ops(), prev_range.start(), prev_range.end(), new_range.start(), new_range.end(), map_perm.bits),
    {
        let idx = self.find_area_idx(prev_range);
        proof {
            let i = first_area(old(self).areas(), prev_range.start(), prev_range.end());
            assert(is_first_area(old(self).areas(), prev_range.start(), prev_range.end(), i));
            lemma_first_area_unique(old(self).areas(), prev_range.start(), prev_range.end(), i, idx.unwrap() as int);
        }
        let idx = idx.unwrap();
        let old_range = self.areas[idx].vpn_range;
        let (old_start, old_end) = (old_range.get_start(), old_range.get_end());
        let (new_start, new_end) = (new_range.get_start(), new_range.get_end());

        let old_perm = self.areas[idx].map_perm;
        if old_perm == map_perm {
            if old_end.0 == new_end.0 && new_start.0 < old_start.0 {
                map_pages(&mut self.areas[idx], &mut self.page_table, new_start.0, old_start.0);
                self.areas[idx].vpn_range = VPNRange::new(new_start, new_end);
            }
            if old_start.0 == new_start.0 && new_end.0 > old_end.0 {
                map_pages(&mut self.areas[idx], &mut self.page_table, old_end.0, new_end.0);
                self.areas[idx].vpn_range = VPNRange::new(new_start, new_end);
            }
        }
        proof {
            assert(self.areas() =~= old(self).areas() || self.areas() =~= old(self).areas().update(idx as int, self.areas@[idx as int]@));
        }
    }

    /// Shrinks the first area over exactly `prev_range` into `new_range`, unmapping the
    /// pages it loses, when `new_range` drops pages at one end only.
    pub fn shrink_framed_area(&mut self, prev_range: VPNRange, new_range: VPNRange)
        requires
            has_area(old(self).areas(), prev_range.start(), prev_range.end()),
        ensures
            final(self).ranges() == old(self).ranges(),
            area_shrunk(old(self).areas(), old(self).ops(), final(self).areas(), final(self).ops(), prev_range.start(), prev_range.end(), new_range.start(), new_range.end()),
    {
        let idx = self.find_area_idx(prev_range);
        proof {
            let i = first_area(old(self).areas(), prev_range.start(), prev_range.end());
            assert(is_first_area(old(self).areas(), prev_range.start(), prev_range.end(), i));
            lemma_first_area_unique(old(self).areas(), prev_range.start(), prev_range.end(), i, idx.unwrap() as int);
        }
        let idx = idx.unwrap();
        let old_range = self.areas[idx].vpn_range;
        let (old_start, old_end) = (old_range.get_start(), old_range.get_end());
        let (new_start, new_end) = (new_range.get_start(), new_range.get_end());

        if old_end.0 == new_end.0 && new_start.0 > old_start.0 {
            unmap_pages(&mut self.areas[idx], &mut self.page_table, old_start.0, new_start.0);
            self.areas[idx].vpn_range = VPNRange::new(new_start, new_end);
        }
        if old_start.0 == new_start.0 && new_end.0 < old_end.0 {
            unmap_pages(&mut self.areas[idx], &mut self.page_table, new_end.0, old_end.0);
            self.areas[idx].vpn_range = VPNRange::new(new_start, new_end);
        }
        proof {
            assert(self.areas() =~= old(self).areas() || self.areas() =~= old(self).areas().update(idx as int, self.areas@[idx as int]@));
        }
    }

    /// Joins the first area over exactly `front_range` with the first over exactly
    /// `back_range`, when both have the rights `map_perm`: the back area's frames move to
    /// the front one, the pages between the two get mapped, the front area grows over
    /// both, and the back area goes away with the frames it still has.
    pub fn combine_framed_area(&mut self, front_range: VPNRange, back_range: VPNRange, map_perm: MapPermission)
        requires
            has_area(old(self).areas(), front_range.start(), front_range.end()),
            has_area(old(self).areas(), back_range.start(), back_range.end()),
            ({
                let areas = old(self).areas();
                let a = areas[first_area(areas, front_range.start(), front_range.end())];
                let b = areas[first_area(areas, back_range.start(), back_range.end())];
                a.perm == map_perm.bits && b.perm == map_perm.bits ==> {
                    &&& front_range.end() <= back_range.start()
                    &&& page_set(back_range.start() as int, back_range.end() as int).subset_of(b.frames)
                }
            }),
        ensures
            final(self).ranges() == old(self).ranges(),
            areas_combined(old(self).areas(), old(self).ops(), final(self).areas(), final(self).ops(), front_range.start(), front_range.end(), back_range.start(), back_range.end(), map_perm.bits),
    {
        let ghost areas0 = self.areas();
        let front_idx = self.find_area_idx(front_range);
        proof {
            let i = first_area(areas0, front_range.start(), front_range.end());
            assert(is_first_area(areas0, front_range.start(), front_range.end(), i));
            lemma_first_area_unique(areas0, front_range.start(), front_range.end(), i, front_idx.unwrap() as int);
        }
        let front_idx = front_idx.unwrap();
        let front_perm = self.areas[front_idx].map_perm;

        let back_idx = self.find_area_idx(back_range);
        proof {
            let i = first_area(areas0, back_range.start(), back_range.end());
            assert(is_first_area(areas0, back_range.start(), back_range.end(), i));
            lemma_first_area_unique(areas0, back_range.start(), back_range.end(), i, back_idx.unwrap() as int);
        }
        let back_idx = back_idx.unwrap();
        let back_perm = self.areas[back_idx].map_perm;

        if front_perm == map_perm && back_perm == map_perm {
            let ghost a = areas0[front_idx as int];
            let ghost b = areas0[back_idx as int];
            let bs = back_range.get_start().0;
            let be = back_range.get_end().0;
            let fs = front_range.get_start().0;
            let fe = front_range.get_end().0;
            let mut vpn = bs;
            proof {
                assert(a.frames.union(page_set(bs as int, bs as int)) =~= a.frames);
                assert(b.frames.difference(page_set(bs as int, bs as int)) =~= b.frames);
            }
            while vpn < be
                invariant
                    bs <= vpn <= be,
                    areas0 == old(self).areas(),
                    self.ranges() == old(self).ranges(),
                    self.ops() == old(self).ops(),
                    self.areas@.len() == areas0.len(),
                    front_idx < areas0.len(),
                    back_idx < areas0.len(),
                    a == areas0[front_idx as int],
                    b == areas0[back_idx as int],
                    page_set(bs as int, be as int).subset_of(b.frames),
                    forall|j: int| 0 <= j < areas0.len() && j != front_idx && j != back_idx
                        ==> #[trigger] self.areas()[j] == areas0[j],
                    front_idx == back_idx ==> self.areas()[front_idx as int] == a,
                    front_idx != back_idx ==> self.areas()[front_idx as int] == reshaped(a, a.start, a.end, a.frames.union(page_set(bs as int, vpn as int))),
                    front_idx != back_idx ==> self.areas()[back_idx as int] == reshaped(b, b.start, b.end, b.frames.difference(page_set(bs as int, vpn as int))),
                decreases be - vpn,
            {
                let ghost v0 = self.areas@;
                let had = self.areas[back_idx].data_frames.remove(&vpn);
                let ghost v1 = self.areas@;
                self.areas[front_idx].data_frames.insert(vpn);
                proof {
                    lemma_view_update(v0, back_idx as int, v1[back_idx as int]);
                    lemma_view_update(v1, front_idx as int, self.areas@[front_idx as int]);
                    assert(page_set(bs as int, be as int).contains(vpn));
                    if front_idx != back_idx {
                        assert(a.frames.union(page_set(bs as int, vpn + 1)) =~= a.frames.union(page_set(bs as int, vpn as int)).insert(vpn));
                        assert(b.frames.difference(page_set(bs as int, vpn + 1)) =~= b.frames.difference(page_set(bs as int, vpn as int)).remove(vpn));
                    } else {
                        assert(a.frames.remove(vpn).insert(vpn) =~= a.frames);
                    }
                    assert forall|j: int| 0 <= j < areas0.len() && j != front_idx && j != back_idx
                        implies #[trigger] self.areas()[j] == areas0[j] by {}
                }
                vpn = vpn + 1;
            }
            let ghost moved = if front_idx == back_idx { a.frames } else { a.frames.union(page_set(bs as int, be as int)) };
            let ghost a2 = reshaped(a, fs, be, frames_after_map(reshaped(a, fs, fe, moved), fe as int, bs as int));
            let ghost v0 = self.areas@;
            proof {
                assert(v0.map_values(|x: MapArea| x@)[front_idx as int] == v0[front_idx as int]@);
                assert(v0[front_idx as int]@ == reshaped(a, fs, fe, moved));
                if front_idx != back_idx {
                    assert(v0.map_values(|x: MapArea| x@)[back_idx as int] == v0[back_idx as int]@);
                }
            }
            map_pages(&mut self.areas[front_idx], &mut self.page_table, fe, bs);
            let ghost v1 = self.areas@;
            proof {
                lemma_view_update(v0, front_idx as int, v1[front_idx as int]);
            }
            self.areas[front_idx].vpn_range = VPNRange::new(VirtPageNum(fs), VirtPageNum(be));
            proof {
                lemma_view_update(v1, front_idx as int, self.areas@[front_idx as int]);
                assert(self.areas@[front_idx as int]@ == a2);
                assert forall|j: int| 0 <= j < areas0.len() && j != back_idx
                    implies #[trigger] self.areas()[j] == areas0.update(front_idx as int, a2)[j] by {
                    if j != front_idx {
                        assert(self.areas()[j] == v0.map_values(|x: MapArea| x@)[j]);
                    }
                }
            }
            let ghost before_remove = self.areas();
            let removed = self.areas.remove(back_idx);
            proof {
                assert(self.areas() =~= before_remove.remove(back_idx as int));
            }
            self.release_frames(&removed);
            proof {
                assert(before_remove =~= areas0.update(front_idx as int, a2).update(back_idx as int, before_remove[back_idx as int]));
                assert(areas0.update(front_idx as int, a2).update(back_idx as int, before_remove[back_idx as int]).remove(back_idx as int)
                    =~= areas0.update(front_idx as int, a2).remove(back_idx as int));
            }
        }
    }

    /// Cuts the first area over exactly `[front start, back end)` into `front_range` and
    /// `back_range`: the frames of the pages between them go back (their page-table entries
    /// are left in place), the area keeps
    /// `front_range`, and a new framed area with the same rights takes `back_range` and its frames.
    pub fn split_framed_area(&mut self, front_range: VPNRange, back_range: VPNRange)
        requires
            front_range.end() <= back_range.start(),
            has_area(old(self).areas(), front_range.start(), back_range.end()),
            page_set(back_range.start() as int, back_range.end() as int).subset_of(
                old(self).areas()[first_area(old(self).areas(), front_range.start(), back_range.end())].frames,
            ),
        ensures
            final(self).ranges() == old(self).ranges(),
            area_split(old(self).areas(), old(self).ops(), final(self).areas(), final(self).ops(), front_range.start(), front_range.end(), back_range.start(), back_range.end()),
    {
        let ghost areas0 = self.areas();
        let whole_range = VPNRange::new(front_range.get_start(), back_range.get_end());
        let whole_idx = self.find_area_idx(whole_range);
        proof {
            let i = first_area(areas0, front_range.start(), back_range.end());
            assert(is_first_area(areas0, front_range.start(), back_range.end(), i));
            lemma_first_area_unique(areas0, front_range.start(), back_range.end(), i, whole_idx.unwrap() as int);
        }
        let whole_idx = whole_idx.unwrap();
        let whole_perm = self.areas[whole_idx].map_perm;
        let ghost a = areas0[whole_idx as int];
        let ghost t0 = self.page_table@;

        let fe = front_range.get_end().0;
        let bs = back_range.get_start().0;
        let be = back_range.get_end().0;
        let mut vpn = fe;
        assert(a.frames.difference(page_set(fe as int, fe as int)) =~= a.frames);
        assert(t0 + release_ops(a.frames, fe as int, fe as int) =~= t0);
        while vpn < bs
            invariant
                fe <= vpn <= bs,
                self.ranges() == old(self).ranges(),
                self.areas@.len() == areas0.len(),
                whole_idx < areas0.len(),
                a == areas0[whole_idx as int],
                self.areas() == areas0.update(whole_idx as int, reshaped(a, a.start, a.end, a.frames.difference(page_set(fe as int, vpn as int)))),
                self.page_table@ == t0 + release_ops(a.frames, fe as int, vpn as int),
            decreases bs - vpn,
        {
            let ghost v0 = self.areas@;
            let ghost ff = a.frames.difference(page_set(fe as int, vpn as int));
            proof {
                assert(v0.map_values(|x: MapArea| x@)[whole_idx as int] == v0[whole_idx as int]@);
                assert(v0[whole_idx as int]@ == reshaped(a, a.start, a.end, ff));
            }
            let had = self.areas[whole_idx].data_frames.remove(&vpn);
            proof {
                lemma_view_update(v0, whole_idx as int, self.areas@[whole_idx as int]);
                assert(self.areas@[whole_idx as int]@ == reshaped(a, a.start, a.end, ff.remove(vpn)));
                assert(had == ff.contains(vpn));
                assert(ff.contains(vpn) == a.frames.contains(vpn));
            }
            if had {
                self.page_table.record(PageTableOp::ReleaseFrame(VirtPageNum(vpn)));
            }
            proof {
                assert(a.frames.difference(page_set(fe as int, vpn + 1)) =~= a.frames.difference(page_set(fe as int, vpn as int)).remove(vpn));
                assert(self.areas() =~= areas0.update(whole_idx as int, reshaped(a, a.start, a.end, a.frames.difference(page_set(fe as int, vpn + 1)))));
                assert(self.page_table@ =~= t0 + release_ops(a.frames, fe as int, vpn + 1));
            }
            vpn = vpn + 1;
        }
        let ghost v0 = self.areas@;
        proof {
            assert(v0.map_values(|x: MapArea| x@)[whole_idx as int] == v0[whole_idx as int]@);
            assert(v0[whole_idx as int]@ == reshaped(a, a.start, a.end, a.frames.difference(page_set(fe as int, bs as int))));
        }
        self.areas[whole_idx].vpn_range = VPNRange::new(front_range.get_start(), front_range.get_end());
        proof {
            lemma_view_update(v0, whole_idx as int, self.areas@[whole_idx as int]);
            assert(self.areas() =~= areas0.update(whole_idx as int, reshaped(a, front_range.start(), front_range.end(), a.frames.difference(page_set(fe as int, bs as int)))));
        }

        let ghost f1 = a.frames.difference(page_set(fe as int, bs as int));
        let mut back_data_frames: BTreeSet<usize> = BTreeSet::new();
        let mut vpn = bs;
        assert(f1.difference(page_set(bs as int, bs as int)) =~= f1);
        while vpn < be
            invariant
                bs <= vpn <= be,
                fe <= bs,
                self.ranges() == old(self).ranges(),
                self.page_table@ == t0 + release_ops(a.frames, fe as int, bs as int),
                self.areas@.len() == areas0.len(),
                whole_idx < areas0.len(),
                page_set(bs as int, be as int).subset_of(a.frames),
                self.areas() == areas0.update(whole_idx as int, reshaped(a, front_range.start(), front_range.end(), f1.difference(page_set(bs as int, vpn as int)))),
                back_data_frames@ == page_set(bs as int, vpn as int),
            decreases be - vpn,
        {
            let ghost v0 = self.areas@;
            proof {
                assert(v0.map_values(|x: MapArea| x@)[whole_idx as int] == v0[whole_idx as int]@);
                assert(v0[whole_idx as int]@ == reshaped(a, front_range.start(), front_range.end(), f1.difference(page_set(bs as int, vpn as int))));
            }
            let had = self.areas[whole_idx].data_frames.remove(&vpn);
            proof {
                lemma_view_update(v0, whole_idx as int, self.areas@[whole_idx as int]);
                assert(self.areas@[whole_idx as int]@ == reshaped(a, front_range.start(), front_range.end(), f1.difference(page_set(bs as int, vpn as int)).remove(vpn)));
            }
            back_data_frames.insert(vpn);
            proof {
                assert(page_set(bs as int, be as int).contains(vpn));
                assert(f1.difference(page_set(bs as int, vpn + 1)) =~= f1.difference(page_set(bs as int, vpn as int)).remove(vpn));
                assert(page_set(bs as int, vpn + 1) =~= page_set(bs as int, vpn as int).insert(vpn));
                assert(self.areas() =~= areas0.update(whole_idx as int, reshaped(a, front_range.start(), front_range.end(), f1.difference(page_set(bs as int, vpn + 1)))));
            }
            vpn = vpn + 1;
        }
        let back_map_area = MapArea {
            vpn_range: back_range,
            data_frames: back_data_frames,
            map_type: MapType::Framed,
            map_perm: whole_perm,
        };
        self.areas.push(back_map_area);
        proof {
            assert(self.areas() =~= areas0.update(
                whole_idx as int,
                reshaped(a, front_range.start(), front_range.end(), f1.difference(page_set(bs as int, be as int))),
            ).push(back_map_area@));
        }
    }

    /// Maps the trampoline page, whose code starts at the physical address `strampoline`,
    /// as the highest page of the address space, readable and executable.
    fn map_trampoline(&mut self, strampoline: usize)
        requires
            pa_bits(strampoline) % PAGE_SIZE == 0,
        ensures
            final(self).ranges() == old(self).ranges(),
            final(self).areas() == old(self).areas(),
            final(self).ops() == old(self).ops().push(trampoline_op(strampoline)),
    {
        let va = VirtAddr::from_usize(TRAMPOLINE);
        proof {
            lemma_trampoline_aligned();
        }
        let pa = PhysAddr::from_usize(strampoline);
        self.page_table.record(PageTableOp::MapTo(va.to_vpn(), pa.to_ppn(), 10));
    }

    /// Adds the area mapping the addresses `[s, e)` to themselves with rights `perm`.
    fn push_identical(&mut self, s: usize, e: usize, perm: MapPermission)
        requires
            spans_addrs(s, e),
        ensures
            final(self).ranges() == old(self).ranges(),
            final(self).areas() == old(self).areas().push(identical_area(s, e, perm.bits)),
            final(self).ops() == old(self).ops() + identical_ops(s, e, perm.bits),
    {
        self.push(MapArea::new(VirtAddr::from_usize(s), VirtAddr::from_usize(e), MapType::Identical, perm), None);
    }

    /// The kernel's address space: the trampoline, and each section of the kernel image
    /// and the rest of physical memory mapped to itself with the rights the section needs.
    pub fn new_kernel(layout: &KernelLayout) -> (ms: MemorySet)
        requires
            layout.wf(),
        ensures
            ms.wf(),
            ms.ranges() == Map::<usize, usize>::empty(),
            ms.areas() == kernel_areas(layout),
            ms.ops() == kernel_ops(layout),
    {
        proof {
            assert((2u8 | 8u8) == 10u8) by (bit_vector);
            assert((2u8 | 4u8) == 6u8) by (bit_vector);
        }
        let mut memory_set = Self::new_bare();
        memory_set.map_trampoline(layout.strampoline);
        let ghost t0 = memory_set.ops();
        memory_set.push_identical(layout.stext, layout.etext, MapPermission::r().union(MapPermission::x()));
        memory_set.push_identical(layout.srodata, layout.erodata, MapPermission::r());
        memory_set.push_identical(layout.sdata, layout.edata, MapPermission::r().union(MapPermission::w()));
        memory_set.push_identical(layout.sbss_with_stack, layout.ebss, MapPermission::r().union(MapPermission::w()));
        memory_set.push_identical(layout.ekernel, MEMORY_END, MapPermission::r().union(MapPermission::w()));
        proof {
            assert(memory_set.areas() =~= kernel_areas(layout));
            assert(memory_set.ops() =~= kernel_ops(layout));
        }
        memory_set
    }

    /// A user address space built from the ELF image `elf_data`: the trampoline (whose code
    /// starts at the physical address `strampoline`), each loadable segment in a framed area
    /// with its bytes copied in, a user stack above a guard page past the last loaded
    /// segment, and the trap context page. Returns it with the user stack top and the entry point.
    pub fn from_elf(elf_data: &[u8], strampoline: usize) -> (res: (MemorySet, usize, usize))
        requires
            elf_loadable(elf_data@),
            pa_bits(strampoline) % PAGE_SIZE == 0,
        ensures
            res.0.wf(),
            res.0.ranges() == Map::<usize, usize>::empty(),
            res.0.areas() == elf_areas(elf_data@),
            res.0.ops() == elf_ops(elf_data@, strampoline),
            res.1 == user_stack_top(elf_data@),
            res.2 == elf_entry_point(elf_data@) as usize,
    {
        let ghost data = elf_data@;
        let mut memory_set = Self::new_bare();
        memory_set.map_trampoline(strampoline);
        let image = ElfImage::new(elf_data);
        let elf_header = match read_elf_header(&image) {
            Some(h) => h,
            None => {
                proof {
                    assert(false);
                }
                return (memory_set, 0, 0);
            },
        };
        let magic = elf_header.magic;
        proof {
            assert(magic@ == elf_magic());
        }
        let ph_count = elf_header.ph_count;
        let mut max_end_vpn = VirtPageNum(0);
        let mut i: u16 = 0;
        proof {
            assert(memory_set.ops() =~= seq![trampoline_op(strampoline)] + load_ops(data, 0));
            assert(memory_set.areas() =~= load_areas(data, 0));
        }
        while i < ph_count
            invariant
                data == elf_data@,
                image@ == data,
                elf_loadable(data),
                ph_count == elf_ph_count(data),
                i <= ph_count,
                memory_set.wf(),
                memory_set.ranges() == Map::<usize, usize>::empty(),
                memory_set.areas() == load_areas(data, i as nat),
                memory_set.ops() == seq![trampoline_op(strampoline)] + load_ops(data, i as nat),
                max_end_vpn.0 == last_load_end(data, i as nat),
            decreases ph_count - i,
        {
            assert(segment_loadable(data, i));
            let ph = match read_program_header(&image, i) {
                Some(ph) => ph,
                None => {
                    proof {
                        assert(false);
                    }
                    return (memory_set, 0, 0);
                },
            };
            let loadable = match read_segment_type(&image, i) {
                Some(t) => t == SegmentType::Load,
                None => {
                    proof {
                        assert(false);
                    }
                    return (memory_set, 0, 0);
                },
            };
            let ghost ops_before = memory_set.ops();
            if loadable {
                let data_len = elf_data.len();
                proof {
                    assert(data_len == data.len());
                    assert(is_load(data, i));
                    assert(ph.offset == elf_ph_offset(data, i) && ph.file_size == elf_ph_file_size(data, i));
                    assert(ph.offset + ph.file_size <= data.len());
                }
                let start_va = VirtAddr::from_usize(ph.virtual_addr as usize);
                let end_va = VirtAddr::from_usize((ph.virtual_addr + ph.mem_size) as usize);
                let mut map_perm = MapPermission::u();
                let ph_flags = ph.flags;
                let ghost rb: u8 = if ph_flags & 4 == 4 { 2u8 } else { 0u8 };
                let ghost wb: u8 = if ph_flags & 2 == 2 { 4u8 } else { 0u8 };
                let ghost xb: u8 = if ph_flags & 1 == 1 { 8u8 } else { 0u8 };
                proof {
                    assert(forall|v: u8| #[trigger] (v | 0u8) == v) by (bit_vector);
                }
                if flags_is_read(ph_flags) {
                    map_perm = map_perm.union(MapPermission::r());
                }
                assert(map_perm.bits == (16u8 | rb));
                if flags_is_write(ph_flags) {
                    map_perm = map_perm.union(MapPermission::w());
                }
                assert(map_perm.bits == ((16u8 | rb) | wb));
                if flags_is_execute(ph_flags) {
                    map_perm = map_perm.union(MapPermission::x());
                }
                proof {
                    let b = map_perm.bits;
                    assert(b == (((16u8 | rb) | wb) | xb));
                    assert(b == 16 + rb + wb + xb) by (bit_vector)
                        requires
                            b == (((16u8 | rb) | wb) | xb),
                            rb == 0 || rb == 2,
                            wb == 0 || wb == 4,
                            xb == 0 || xb == 8,
                    ;
                    assert(map_perm.bits == segment_perm(elf_ph_flags(data, i)));
                }
                let map_area = MapArea::new(start_va, end_va, MapType::Framed, map_perm);
                max_end_vpn = map_area.vpn_range.get_end();
                let bytes = vstd::slice::slice_subrange(
                    elf_data,
                    ph.offset as usize,
                    (ph.offset + ph.file_size) as usize,
                );
                memory_set.push(map_area, Some(bytes));
                proof {
                    assert(Set::<usize>::empty().union(page_set(seg_lo(data, i), seg_hi(data, i))) =~= page_set(
                        seg_lo(data, i),
                        seg_hi(data, i),
                    ));
                    assert(memory_set.ops() =~= seq![trampoline_op(strampoline)] + load_ops(data, (i + 1) as nat));
                    assert(memory_set.areas() =~= load_areas(data, (i + 1) as nat));
                }
            }
            i = i + 1;
        }
        let max_end_va = max_end_vpn.to_addr();
        let mut user_stack_bottom: usize = max_end_va.0;
        user_stack_bottom += PAGE_SIZE;
        let user_stack_top = user_stack_bottom + USER_STACK_SIZE;
        proof {
            assert((2u8 | 4u8) == 6u8) by (bit_vector);
            assert(((2u8 | 4u8) | 16u8) == 22u8) by (bit_vector);
            lemma_trap_context_span();
        }
        memory_set.push(
            MapArea::new(
                VirtAddr::from_usize(user_stack_bottom),
                VirtAddr::from_usize(user_stack_top),
                MapType::Framed,
                MapPermission::r().union(MapPermission::w()).union(MapPermission::u()),
            ),
            None,
        );
        memory_set.push(
            MapArea::new(
                VirtAddr::from_usize(TRAP_CONTEXT),
                VirtAddr::from_usize(TRAMPOLINE),
                MapType::Framed,
                MapPermission::r().union(MapPermission::w()),
            ),
            None,
        );
        proof {
            assert(Set::<usize>::empty().union(page_set(
                floor_page(va_bits(user_stack_bottom) as int),
                ceil_page(va_bits(user_stack_top) as int),
            )) =~= page_set(floor_page(va_bits(user_stack_bottom) as int), ceil_page(va_bits(user_stack_top) as int)));
            assert(Set::<usize>::empty().union(page_set(
                floor_page(va_bits(TRAP_CONTEXT) as int),
                ceil_page(va_bits(TRAMPOLINE) as int),
            )) =~= page_set(floor_page(va_bits(TRAP_CONTEXT) as int), ceil_page(va_bits(TRAMPOLINE) as int)));
            assert(memory_set.areas() =~= elf_areas(data));
            assert(memory_set.ops() =~= elf_ops(data, strampoline));
        }
        (memory_set, user_stack_top, elf_header.entry_point as usize)
    }

    /// The address space [`MemorySet::from_elf`] builds from `elf_data`, with the user stack
    /// top and the entry point, or `None` when the image cannot be loaded.
    pub fn try_from_elf(elf_data: &[u8], strampoline: usize) -> (res: Option<(MemorySet, usize, usize)>)
        requires
            pa_bits(strampoline) % PAGE_SIZE == 0,
        ensures
            res is Some <==> elf_loadable(elf_data@),
            res matches Some(r) ==> {
                &&& r.0.wf()
                &&& r.0.ranges() == Map::<usize, usize>::empty()
                &&& r.0.areas() == elf_areas(elf_data@)
                &&& r.0.ops() == elf_ops(elf_data@, strampoline)
                &&& r.1 == user_stack_top(elf_data@)
                &&& r.2 == elf_entry_point(elf_data@) as usize
            },
    {
        if elf_fits(elf_data) {
            Some(Self::from_elf(elf_data, strampoline))
        } else {
            None
        }
    }
}

/// Whether `elf_data` is an image that [`MemorySet::from_elf`] can load: it parses, each
/// program header reads and has a valid type, and each loaded segment lies in the image and
/// in its pages, with room for the user stack above the last one.
fn elf_fits(elf_data: &[u8]) -> (ok: bool)
    ensures
        ok == elf_loadable(elf_data@),
{
    let ghost data = elf_data@;
    let n = elf_data.len();
    if n >= 16 && elf_data[0] == 0x7f && elf_data[1] == 0x45 && elf_data[2] == 0x4c && elf_data[3] == 0x46
        && (elf_data[4] == 1 || elf_data[4] == 2) {
        assert(data.subrange(0, 4) =~= elf_magic());
        let header_len: usize = if elf_data[4] == 2 {
            64
        } else {
            52
        };
        if n < header_len {
            return false;
        }
    }
    let image = ElfImage::new(elf_data);
    let header = match read_elf_header(&image) {
        Some(h) => h,
        None => {
            return false;
        },
    };
    let ph_count = header.ph_count;
    let ph_offset = header.ph_offset;
    let entry_size = header.ph_entry_size;
    let min_entry_size: u16 = if header.is_64 {
        56
    } else {
        32
    };
    let entry_align: u64 = if header.is_64 {
        8
    } else {
        4
    };
    let data_len = elf_data.len() as u64;
    let mut last_end: usize = 0;
    let mut i: u16 = 0;
    while i < ph_count
        invariant
            data == elf_data@,
            image@ == data,
            elf_header_reads(data),
            data_len == data.len(),
            elf_parses(data),
            ph_count == elf_ph_count(data),
            ph_offset == elf_ph_table_offset(data),
            entry_size == elf_ph_entry_size(data),
            min_entry_size == (if elf_is_64(data) { 56int } else { 32int }),
            entry_align == (if elf_is_64(data) { 8int } else { 4int }),
            i <= ph_count,
            forall|j: u16| j < i ==> #[trigger] segment_loadable(data, j),
            last_end == last_load_end(data, i as nat),
        decreases ph_count - i,
    {
        if ph_offset == 0 || entry_size == 0 {
            assert(!segment_loadable(data, i));
            return false;
        }
        assert((i as u64 + 1) * (entry_size as u64) <= 0x1_0000_0000) by (nonlinear_arith)
            requires
                i < 0x1_0000,
                entry_size < 0x1_0000,
        ;
        let table_span: u64 = (i as u64 + 1) * (entry_size as u64);
        if entry_size < min_entry_size || ph_offset > data_len || table_span > data_len - ph_offset {
            assert(!segment_loadable(data, i));
            return false;
        }
        assert((i as u64) * (entry_size as u64) <= table_span) by (nonlinear_arith)
            requires
                table_span == (i as u64 + 1) * (entry_size as u64),
        ;
        let entry_start: u64 = ph_offset + (i as u64) * (entry_size as u64);
        if entry_start % entry_align != 0 {
            assert(!segment_loadable(data, i));
            return false;
        }
        let ph = match read_program_header(&image, i) {
            Some(ph) => ph,
            None => {
                proof {
                    assert(false);
                }
                return false;
            },
        };
        let t = match read_segment_type(&image, i) {
            Some(t) => t,
            None => {
                assert(!segment_loadable(data, i));
                return false;
            },
        };
        if t == SegmentType::Load {
            if ph.mem_size > u64::MAX - ph.virtual_addr || ph.file_size > data_len
                || ph.offset > data_len - ph.file_size {
                assert(!segment_loadable(data, i));
                return false;
            }
            let lo = VirtAddr::from_usize(ph.virtual_addr as usize).floor().0;
            let hi = VirtAddr::from_usize((ph.virtual_addr + ph.mem_size) as usize).ceil().0;
            if lo > hi {
                assert(!segment_loadable(data, i));
                return false;
            }
            let pages: u64 = if ph.file_size <= 4096 {
                1
            } else {
                (ph.file_size - 1) / 4096 + 1
            };
            assert(pages == copy_pages(ph.file_size as int));
            if pages - 1 > ((usize::MAX - lo) as u64) {
                assert(!segment_loadable(data, i));
                return false;
            }
            last_end = hi;
        }
        assert(segment_loadable(data, i));
        i = i + 1;
    }
    proof {
        let q = (usize::MAX - 12288) / 4096;
        let r = (usize::MAX - 12288) % 4096;
        assert(usize::MAX - 12288 == 4096 * q + r && 0 <= r < 4096);
    }
    if last_end > (usize::MAX - 12288) / 4096 {
        return false;
    }
    let bottom = last_end * 4096 + 4096;
    addrs_span(bottom, bottom + USER_STACK_SIZE)
}

/// Viewing the areas commutes with replacing one of them.
proof fn lemma_view_update(v: Seq<MapArea>, i: int, x: MapArea)
    requires
        0 <= i < v.len(),
    ensures
        v.update(i, x).map_values(|a: MapArea| a@) == v.map_values(|a: MapArea| a@).update(i, x@),
{
    assert(v.update(i, x).map_values(|a: MapArea| a@) =~= v.map_values(|a: MapArea| a@).update(i, x@));
}

/// Maps the pages `[from, to)` of an area, in order.
fn map_pages(area: &mut MapArea, page_table: &mut PageTableOps, from: usize, to: usize)
    requires
        from <= to,
    ensures
        final(area)@ == reshaped(old(area)@, old(area)@.start, old(area)@.end, frames_after_map(old(area)@, from as int, to as int)),
        final(page_table)@ == old(page_table)@ + map_ops(old(area)@.map_type, old(area)@.perm, from as int, to as int),
{
    let ghost a0 = area@;
    let ghost t0 = page_table@;
    let mut vpn = from;
    assert(frames_after_map(a0, from as int, from as int) =~= a0.frames);
    assert(map_ops(a0.map_type, a0.perm, from as int, from as int) =~= Seq::<OpView>::empty());
    assert(t0 + Seq::<OpView>::empty() =~= t0);
    while vpn < to
        invariant
            from <= vpn <= to,
            area@ == reshaped(a0, a0.start, a0.end, frames_after_map(a0, from as int, vpn as int)),
            page_table@ == t0 + map_ops(a0.map_type, a0.perm, from as int, vpn as int),
        decreases to - vpn,
    {
        area.map_one(page_table, VirtPageNum(vpn));
        proof {
            assert(map_ops(a0.map_type, a0.perm, from as int, vpn + 1) =~= map_ops(a0.map_type, a0.perm, from as int, vpn as int).push(
                map_op(a0.map_type, a0.perm, vpn),
            ));
            assert(frames_after_map(a0, from as int, vpn + 1) =~= if a0.map_type == MapType::Framed {
                frames_after_map(a0, from as int, vpn as int).insert(vpn)
            } else {
                a0.frames
            });
        }
        vpn = vpn + 1;
    }
}

/// Unmaps the pages `[from, to)` of an area, in order.
fn unmap_pages(area: &mut MapArea, page_table: &mut PageTableOps, from: usize, to: usize)
    requires
        from <= to,
    ensures
        final(area)@ == reshaped(old(area)@, old(area)@.start, old(area)@.end, frames_after_unmap(old(area)@, from as int, to as int)),
        final(page_table)@ == old(page_table)@ + unmap_ops(old(area)@.map_type, old(area)@.frames, from as int, to as int),
{
    let ghost a0 = area@;
    let ghost t0 = page_table@;
    let mut vpn = from;
    assert(frames_after_unmap(a0, from as int, from as int) =~= a0.frames);
    assert(t0 + unmap_ops(a0.map_type, a0.frames, from as int, from as int) =~= t0);
    while vpn < to
        invariant
            from <= vpn <= to,
            area@ == reshaped(a0, a0.start, a0.end, frames_after_unmap(a0, from as int, vpn as int)),
            page_table@ == t0 + unmap_ops(a0.map_type, a0.frames, from as int, vpn as int),
        decreases to - vpn,
    {
        proof {
            assert(frames_after_unmap(a0, from as int, vpn as int).contains(vpn) == a0.frames.contains(vpn));
        }
        area.unmap_one(page_table, VirtPageNum(vpn));
        proof {
            assert(unmap_ops(a0.map_type, a0.frames, from as int, vpn + 1) == unmap_ops(a0.map_type, a0.frames, from as int, vpn as int)
                + unmap_page_ops(a0.map_type == MapType::Framed && a0.frames.contains(vpn), vpn));
            assert(frames_after_unmap(a0, from as int, vpn + 1) =~= if a0.map_type == MapType::Framed {
                frames_after_unmap(a0, from as int, vpn as int).remove(vpn)
            } else {
                a0.frames
            });
            assert(page_table@ =~= t0 + unmap_ops(a0.map_type, a0.frames, from as int, vpn + 1));
        }
        vpn = vpn + 1;
    }
}

/// The rights bits of an area: user access `U = 16`, read `R = 2`, write `W = 4`,
/// execute `X = 8`; a loaded segment's flags have `R = 4`, `W = 2`, `X = 1`.
proof fn lemma_segment_perm_bits(flags: u32)
    ensures
        segment_perm(flags) & 16 == 16,
        (segment_perm(flags) & 2 == 2) == (flags & 4 == 4),
        (segment_perm(flags) & 4 == 4) == (flags & 2 == 2),
        (segment_perm(flags) & 8 == 8) == (flags & 1 == 1),
{
    let r: u8 = if flags & 4 == 4 { 2 } else { 0 };
    let w: u8 = if flags & 2 == 2 { 4 } else { 0 };
    let x: u8 = if flags & 1 == 1 { 8 } else { 0 };
    let p = segment_perm(flags);
    assert(p == 16 + r + w + x);
    assert(p & 16 == 16 && (p & 2 == 2) == (r == 2) && (p & 4 == 4) == (w == 4) && (p & 8 == 8) == (x == 8))
        by (bit_vector)
        requires
            p == 16 + r + w + x,
            r == 0 || r == 2,
            w == 0 || w == 4,
            x == 0 || x == 8,
    ;
}

/// Among the first `n` program headers, each loaded segment has its area in `load_areas`.
proof fn lemma_load_areas_hold(data: Seq<u8>, n: nat, i: u16)
    requires
        i < n,
        n <= 0x1_0000,
        is_load(data, i),
    ensures
        exists|k: int| 0 <= k < load_areas(data, n).len() && #[trigger] load_areas(data, n)[k] == seg_area(data, i),
    decreases n,
{
    let r = load_areas(data, (n - 1) as nat);
    if i == n - 1 {
        assert(load_areas(data, n)[r.len() as int] == seg_area(data, i));
    } else {
        lemma_load_areas_hold(data, (n - 1) as nat, i);
        let k = choose|k: int| 0 <= k < r.len() && #[trigger] r[k] == seg_area(data, i);
        if is_load(data, (n - 1) as u16) {
            assert(load_areas(data, n)[k] == r[k]);
        }
    }
}

/// Each segment that a user address space built from `data` loads has an area over exactly
/// its pages with user access and, from its flags, read exactly when it is readable, write
/// exactly when it is writable, and execute exactly when it is executable.
pub proof fn lemma_segment_rights(data: Seq<u8>, i: u16)
    requires
        i < elf_ph_count(data),
        is_load(data, i),
    ensures
        exists|k: int| 0 <= k < elf_areas(data).len() && {
            let a = #[trigger] elf_areas(data)[k];
            &&& a.start == seg_lo(data, i)
            &&& a.end == seg_hi(data, i)
            &&& a.map_type == MapType::Framed
            &&& a.perm & 16 == 16
            &&& (a.perm & 2 == 2) == (elf_ph_flags(data, i) & 4 == 4)
            &&& (a.perm & 4 == 4) == (elf_ph_flags(data, i) & 2 == 2)
            &&& (a.perm & 8 == 8) == (elf_ph_flags(data, i) & 1 == 1)
        },
{
    let n = elf_ph_count(data) as nat;
    lemma_load_areas_hold(data, n, i);
    let la = load_areas(data, n);
    let k = choose|k: int| 0 <= k < la.len() && #[trigger] la[k] == seg_area(data, i);
    lemma_segment_perm_bits(elf_ph_flags(data, i));
    assert(elf_areas(data)[k] == la[k]);
}

/// The kernel's address space maps each section to itself with fixed rights: `.text`
/// readable and executable (`R | X`), `.rodata` readable (`R`), and `.data`, `.bss` (with
/// the boot stack) and the rest of physical memory readable and writable (`R | W`), each
/// from the page of its start to the page boundary at or above its end, in that order
/// after the trampoline, whose page maps to its code readable and executable (`R | X`).
pub proof fn lemma_kernel_rights(l: &KernelLayout)
    ensures
        kernel_areas(l).len() == 5,
        kernel_areas(l)[0].perm == 10,
        kernel_areas(l)[1].perm == 2,
        kernel_areas(l)[2].perm == 6,
        kernel_areas(l)[3].perm == 6,
        kernel_areas(l)[4].perm == 6,
        kernel_areas(l)[0].start == floor_page(va_bits(l.stext) as int) && kernel_areas(l)[0].end == ceil_page(va_bits(l.etext) as int),
        kernel_areas(l)[1].start == floor_page(va_bits(l.srodata) as int) && kernel_areas(l)[1].end == ceil_page(va_bits(l.erodata) as int),
        kernel_areas(l)[2].start == floor_page(va_bits(l.sdata) as int) && kernel_areas(l)[2].end == ceil_page(va_bits(l.edata) as int),
        kernel_areas(l)[3].start == floor_page(va_bits(l.sbss_with_stack) as int) && kernel_areas(l)[3].end == ceil_page(va_bits(l.ebss) as int),
        kernel_areas(l)[4].start == floor_page(va_bits(l.ekernel) as int) && kernel_areas(l)[4].end == ceil_page(va_bits(MEMORY_END) as int),
        forall|k: int| 0 <= k < 5 ==> (#[trigger] kernel_areas(l)[k]).map_type == MapType::Identical,
        trampoline_op(l.strampoline) == OpView::MapTo(
            (va_bits(TRAMPOLINE) / PAGE_SIZE) as usize,
            (pa_bits(l.strampoline) / PAGE_SIZE) as usize,
            10,
        ),
        kernel_ops(l) == seq![trampoline_op(l.strampoline)]
            + map_ops(MapType::Identical, 10, floor_page(va_bits(l.stext) as int), ceil_page(va_bits(l.etext) as int))
            + map_ops(MapType::Identical, 2, floor_page(va_bits(l.srodata) as int), ceil_page(va_bits(l.erodata) as int))
            + map_ops(MapType::Identical, 6, floor_page(va_bits(l.sdata) as int), ceil_page(va_bits(l.edata) as int))
            + map_ops(MapType::Identical, 6, floor_page(va_bits(l.sbss_with_stack) as int), ceil_page(va_bits(l.ebss) as int))
            + map_ops(MapType::Identical, 6, floor_page(va_bits(l.ekernel) as int), ceil_page(va_bits(MEMORY_END) as int)),
{
}

/// Each area owns frames only for its own pages, and an area mapped to itself owns none.
pub open spec fn frames_in_place(areas: Seq<AreaView>) -> bool {
    forall|i: int| 0 <= i < areas.len() ==> {
        &&& (#[trigger] areas[i]).frames.subset_of(page_set(areas[i].start as int, areas[i].end as int))
        &&& areas[i].map_type == MapType::Identical ==> areas[i].frames.is_empty()
    }
}

/// No two areas own a frame for the same page.
pub open spec fn frames_apart(areas: Seq<AreaView>) -> bool {
    forall|i: int, j: int| #![trigger areas[i], areas[j]] 0 <= i < j < areas.len() ==> areas[i].frames.disjoint(areas[j].frames)
}

/// The operations `release_ops(frames, lo, hi)` give back, in ascending order, exactly the
/// frames of `frames` among the pages `[lo, hi)`.
proof fn lemma_release_ops_are(frames: Set<usize>, lo: int, hi: int)
    requires
        0 <= lo,
        hi <= usize::MAX + 1,
    ensures
        forall|k: int| 0 <= k < release_ops(frames, lo, hi).len() ==> (#[trigger] release_ops(frames, lo, hi)[k]
            matches OpView::ReleaseFrame(v) && lo <= v < hi && frames.contains(v)),
        forall|k: int, j: int| #![trigger release_ops(frames, lo, hi)[k], release_ops(frames, lo, hi)[j]]
            0 <= k < j < release_ops(frames, lo, hi).len() ==> (release_ops(frames, lo, hi)[k] matches OpView::ReleaseFrame(a)
            && release_ops(frames, lo, hi)[j] matches OpView::ReleaseFrame(b) && a < b),
        forall|v: usize| #![trigger frames.contains(v)] lo <= v < hi && frames.contains(v)
            ==> release_ops(frames, lo, hi).contains(OpView::ReleaseFrame(v)),
    decreases hi - lo,
{
    if hi > lo {
        lemma_release_ops_are(frames, lo, hi - 1);
        let rest = release_ops(frames, lo, hi - 1);
        let ops = release_ops(frames, lo, hi);
        let last = (hi - 1) as usize;
        if frames.contains(last) {
            assert(ops == rest.push(OpView::ReleaseFrame(last)));
            assert forall|k: int| 0 <= k < ops.len() implies (#[trigger] ops[k]
                matches OpView::ReleaseFrame(v) && lo <= v < hi && frames.contains(v)) by {
                if k < rest.len() {
                    assert(ops[k] == rest[k]);
                }
            }
            assert forall|k: int, j: int| #![trigger ops[k], ops[j]] 0 <= k < j < ops.len() implies (ops[k] matches OpView::ReleaseFrame(a)
                && ops[j] matches OpView::ReleaseFrame(b) && a < b) by {
                assert(ops[k] == rest[k]);
                if j < rest.len() {
                    assert(ops[j] == rest[j]);
                }
            }
            assert forall|v: usize| #![trigger frames.contains(v)] lo <= v < hi && frames.contains(v)
                implies ops.contains(OpView::ReleaseFrame(v)) by {
                if v == last {
                    assert(ops[rest.len() as int] == OpView::ReleaseFrame(v));
                } else {
                    assert(rest.contains(OpView::ReleaseFrame(v)));
                    let k = choose|k: int| 0 <= k < rest.len() && rest[k] == OpView::ReleaseFrame(v);
                    assert(ops[k] == rest[k]);
                }
            }
        } else {
            assert(ops == rest);
        }
    }
}

/// Cutting an area in two leaves each part owning frames only for its own pages, and no two
/// areas owning a frame for the same page, when that held before; the work gives back the
/// frames of the pages between the parts, those and no others.
pub proof fn lemma_split_keeps_frames_apart(
    a0: Seq<AreaView>, t0: Seq<OpView>, a1: Seq<AreaView>, t1: Seq<OpView>,
    fs: usize, fe: usize, bs: usize, be: usize,
)
    requires
        frames_in_place(a0),
        frames_apart(a0),
        fs <= fe <= bs <= be,
        has_area(a0, fs, be),
        page_set(bs as int, be as int).subset_of(a0[first_area(a0, fs, be)].frames),
        area_split(a0, t0, a1, t1, fs, fe, bs, be),
    ensures
        frames_in_place(a1),
        frames_apart(a1),
        t1.len() >= t0.len(),
        t1.subrange(0, t0.len() as int) == t0,
        forall|k: int| t0.len() <= k < t1.len() ==> (#[trigger] t1[k] matches OpView::ReleaseFrame(v) && fe <= v < bs
            && a0[first_area(a0, fs, be)].frames.contains(v)),
        forall|v: usize| fe <= v < bs && #[trigger] a0[first_area(a0, fs, be)].frames.contains(v)
            ==> t1.subrange(t0.len() as int, t1.len() as int).contains(OpView::ReleaseFrame(v)),
{
    let i = first_area(a0, fs, be);
    lemma_first_area_exists(a0, fs, be);
    let rel = release_ops(a0[i].frames, fe as int, bs as int);
    lemma_release_ops_are(a0[i].frames, fe as int, bs as int);
    assert(t1.subrange(0, t0.len() as int) =~= t0);
    assert(t1.subrange(t0.len() as int, t1.len() as int) =~= rel);
    assert forall|k: int| t0.len() <= k < t1.len() implies (#[trigger] t1[k] matches OpView::ReleaseFrame(v) && fe <= v < bs
        && a0[i].frames.contains(v)) by {
        assert(t1[k] == rel[k - t0.len()]);
    }
    let n = a0.len() as int;
    assert(a1.len() == n + 1);
    assert forall|k: int| 0 <= k < a1.len() implies {
        &&& (#[trigger] a1[k]).frames.subset_of(page_set(a1[k].start as int, a1[k].end as int))
        &&& a1[k].map_type == MapType::Identical ==> a1[k].frames.is_empty()
    } by {
        if k == i {
            assert forall|p: usize| a1[k].frames.contains(p) implies page_set(fs as int, fe as int).contains(p) by {
                assert(a0[i].frames.contains(p));
                assert(page_set(fs as int, be as int).contains(p));
            }
            if a1[k].map_type == MapType::Identical {
                assert(a1[k].frames.subset_of(a0[i].frames));
                assert(a1[k].frames =~= Set::<usize>::empty());
            }
        } else if k < n {
            assert(a1[k] == a0[k]);
        }
    }
    assert forall|x: int, y: int| #![trigger a1[x], a1[y]] 0 <= x < y < a1.len() implies a1[x].frames.disjoint(a1[y].frames) by {
        if y == n {
            if x != i {
                assert(a1[x] == a0[x]);
                assert forall|p: usize| a1[y].frames.contains(p) implies !a1[x].frames.contains(p) by {
                    assert(a0[i].frames.contains(p));
                    if x < i {
                        assert(a0[x].frames.disjoint(a0[i].frames));
                    } else {
                        assert(a0[i].frames.disjoint(a0[x].frames));
                    }
                }
            }
        } else {
            assert(a0[x].frames.disjoint(a0[y].frames));
            if x == i {
                assert(a1[y] == a0[y]);
            } else if y == i {
                assert(a1[x] == a0[x]);
            } else {
                assert(a1[x] == a0[x] && a1[y] == a0[y]);
            }
        }
    }
}

/// Among the first `n` program headers: without a loaded segment, the last load end is 0;
/// otherwise it is the end page of the last loaded one.
proof fn lemma_last_load_end_is(data: Seq<u8>, n: nat)
    requires
        n <= 0x1_0000,
    ensures
        (forall|k: u16| k < n ==> !#[trigger] is_load(data, k)) ==> last_load_end(data, n) == 0,
        forall|j: u16| #![trigger is_load(data, j)]
            j < n && is_load(data, j) && (forall|k: u16| j < k < n ==> !#[trigger] is_load(data, k))
            ==> last_load_end(data, n) == seg_hi(data, j),
    decreases n,
{
    if n > 0 {
        lemma_last_load_end_is(data, (n - 1) as nat);
        let m = (n - 1) as u16;
        assert forall|j: u16| #![trigger is_load(data, j)]
            j < n && is_load(data, j) && (forall|k: u16| j < k < n ==> !#[trigger] is_load(data, k))
            implies last_load_end(data, n) == seg_hi(data, j) by {
            if j < m {
                assert(!is_load(data, m));
            }
        }
        if forall|k: u16| k < n ==> !#[trigger] is_load(data, k) {
            assert(!is_load(data, m));
        }
    }
}

/// The user stack of an address space built from `data` starts one guard page above the
/// end page of the last segment loaded, in program-header order, and at page 1 when no
/// segment is loaded.
pub proof fn lemma_user_stack_place(data: Seq<u8>)
    ensures
        forall|j: u16| #![trigger is_load(data, j)]
            j < elf_ph_count(data) && is_load(data, j)
                && (forall|k: u16| j < k < elf_ph_count(data) ==> !#[trigger] is_load(data, k))
            ==> user_stack_bottom(data) == (seg_hi(data, j) + 1) * PAGE_SIZE,
        (forall|k: u16| k < elf_ph_count(data) ==> !#[trigger] is_load(data, k)) ==> user_stack_bottom(data) == PAGE_SIZE,
        user_stack_top(data) == user_stack_bottom(data) + 8192,
{
    lemma_last_load_end_is(data, elf_ph_count(data) as nat);
}

} // verus!
