use os4::address::{PhysPageNum, VPNRange, VirtAddr, VirtPageNum};
use os4::memory_set::{KernelLayout, MapArea, MapPermission, MapType, MemorySet, PageTableOp};

fn rng(s: usize, e: usize) -> VPNRange {
    VPNRange::new(VirtPageNum(s), VirtPageNum(e))
}

fn rw() -> MapPermission {
    MapPermission::r().union(MapPermission::w()).union(MapPermission::u())
}

fn framed(v: usize, flags: u8) -> PageTableOp {
    PageTableOp::MapFramed(VirtPageNum(v), flags)
}

#[test]
fn permissions() {
    assert_eq!(MapPermission::empty().bits, 0);
    assert_eq!(rw().bits, 2 | 4 | 16);
    assert_eq!(MapPermission::x().union(MapPermission::r()).bits, 10);
}

#[test]
fn insert_framed_area_maps_each_page() {
    let mut ms = MemorySet::new_bare();
    ms.insert_framed_area(VirtAddr(0x1000), VirtAddr(0x3800), rw());
    assert_eq!(ms.find_area_idx(rng(1, 4)), Some(0));
    assert_eq!(ms.find_area_idx(rng(1, 3)), None);
    assert_eq!(ms.take_page_table_ops(), vec![framed(1, 22), framed(2, 22), framed(3, 22)]);
    assert_eq!(ms.take_page_table_ops(), vec![]);
}

#[test]
fn find_area_idx_takes_the_first() {
    let mut ms = MemorySet::new_bare();
    ms.insert_framed_area(VirtAddr(0x1000), VirtAddr(0x2000), rw());
    ms.insert_framed_area(VirtAddr(0x5000), VirtAddr(0x6000), rw());
    ms.insert_framed_area(VirtAddr(0x1000), VirtAddr(0x2000), rw());
    assert_eq!(ms.find_area_idx(rng(1, 2)), Some(0));
    assert_eq!(ms.find_area_idx(rng(5, 6)), Some(1));
}

#[test]
fn extend_at_either_end() {
    let mut ms = MemorySet::new_bare();
    ms.insert_framed_area(VirtAddr(0x4000), VirtAddr(0x6000), rw());
    ms.take_page_table_ops();
    ms.extend_framed_area(rng(4, 6), rng(2, 6), rw());
    assert_eq!(ms.take_page_table_ops(), vec![framed(2, 22), framed(3, 22)]);
    assert_eq!(ms.find_area_idx(rng(2, 6)), Some(0));
    ms.extend_framed_area(rng(2, 6), rng(2, 7), rw());
    assert_eq!(ms.take_page_table_ops(), vec![framed(6, 22)]);
    assert_eq!(ms.find_area_idx(rng(2, 7)), Some(0));
    // Other rights: nothing changes.
    ms.extend_framed_area(rng(2, 7), rng(2, 9), MapPermission::r());
    assert_eq!(ms.take_page_table_ops(), vec![]);
    assert_eq!(ms.find_area_idx(rng(2, 7)), Some(0));
}

#[test]
fn shrink_at_either_end() {
    let mut ms = MemorySet::new_bare();
    ms.insert_framed_area(VirtAddr(0x2000), VirtAddr(0x7000), rw());
    ms.take_page_table_ops();
    ms.shrink_framed_area(rng(2, 7), rng(4, 7));
    assert_eq!(
        ms.take_page_table_ops(),
        vec![
            PageTableOp::ReleaseFrame(VirtPageNum(2)),
            PageTableOp::Unmap(VirtPageNum(2)),
            PageTableOp::ReleaseFrame(VirtPageNum(3)),
            PageTableOp::Unmap(VirtPageNum(3)),
        ]
    );
    ms.shrink_framed_area(rng(4, 7), rng(4, 6));
    assert_eq!(
        ms.take_page_table_ops(),
        vec![PageTableOp::ReleaseFrame(VirtPageNum(6)), PageTableOp::Unmap(VirtPageNum(6))]
    );
    assert_eq!(ms.find_area_idx(rng(4, 6)), Some(0));
}

#[test]
fn combine_moves_frames_and_maps_the_gap() {
    let mut ms = MemorySet::new_bare();
    ms.insert_framed_area(VirtAddr(0x1000), VirtAddr(0x3000), rw());
    ms.insert_framed_area(VirtAddr(0x5000), VirtAddr(0x6000), rw());
    ms.take_page_table_ops();
    ms.combine_framed_area(rng(1, 3), rng(5, 6), rw());
    assert_eq!(ms.take_page_table_ops(), vec![framed(3, 22), framed(4, 22)]);
    assert_eq!(ms.find_area_idx(rng(1, 6)), Some(0));
    assert_eq!(ms.find_area_idx(rng(5, 6)), None);
    // The frames of the joined area go back with it.
    ms.remove_framed_area(rng(1, 6));
    let released = ms.take_page_table_ops();
    assert_eq!(released.len(), 5);
    for v in 1..6 {
        assert!(released.contains(&PageTableOp::ReleaseFrame(VirtPageNum(v))));
    }
}

#[test]
fn combine_with_other_rights_does_nothing() {
    let mut ms = MemorySet::new_bare();
    ms.insert_framed_area(VirtAddr(0x1000), VirtAddr(0x3000), rw());
    ms.insert_framed_area(VirtAddr(0x5000), VirtAddr(0x6000), MapPermission::r());
    ms.take_page_table_ops();
    ms.combine_framed_area(rng(1, 3), rng(5, 6), rw());
    assert_eq!(ms.take_page_table_ops(), vec![]);
    assert_eq!(ms.find_area_idx(rng(5, 6)), Some(1));
}

#[test]
fn split_releases_the_middle() {
    let mut ms = MemorySet::new_bare();
    ms.insert_framed_area(VirtAddr(0x1000), VirtAddr(0x7000), rw());
    ms.take_page_table_ops();
    ms.split_framed_area(rng(1, 3), rng(5, 7));
    assert_eq!(
        ms.take_page_table_ops(),
        vec![PageTableOp::ReleaseFrame(VirtPageNum(3)), PageTableOp::ReleaseFrame(VirtPageNum(4))]
    );
    assert_eq!(ms.find_area_idx(rng(1, 3)), Some(0));
    assert_eq!(ms.find_area_idx(rng(5, 7)), Some(1));
    ms.remove_framed_area(rng(5, 7));
    let released = ms.take_page_table_ops();
    assert_eq!(released.len(), 2);
    assert!(released.contains(&PageTableOp::ReleaseFrame(VirtPageNum(5))));
    assert!(released.contains(&PageTableOp::ReleaseFrame(VirtPageNum(6))));
}

#[test]
fn push_copies_data_page_by_page() {
    let mut ms = MemorySet::new_bare();
    let data: Vec<u8> = (0..5000u32).map(|i| (i % 251) as u8).collect();
    ms.push(MapArea::new(VirtAddr(0x10000), VirtAddr(0x12000), MapType::Framed, rw()), Some(&data));
    let ops = ms.take_page_table_ops();
    assert_eq!(ops.len(), 4);
    assert_eq!(ops[0], framed(0x10, 22));
    assert_eq!(ops[1], framed(0x11, 22));
    assert_eq!(ops[2], PageTableOp::CopyData(VirtPageNum(0x10), data[..4096].to_vec()));
    assert_eq!(ops[3], PageTableOp::CopyData(VirtPageNum(0x11), data[4096..].to_vec()));
}

#[test]
fn push_of_no_bytes_still_writes_the_first_page() {
    let mut ms = MemorySet::new_bare();
    ms.push(MapArea::new(VirtAddr(0x10000), VirtAddr(0x11000), MapType::Framed, rw()), Some(&[]));
    let ops = ms.take_page_table_ops();
    assert_eq!(ops, vec![framed(0x10, 22), PageTableOp::CopyData(VirtPageNum(0x10), vec![])]);
}

#[test]
fn identical_area_maps_to_itself() {
    let mut ms = MemorySet::new_bare();
    ms.push(MapArea::new(VirtAddr(0x8020_0000), VirtAddr(0x8020_2000), MapType::Identical, MapPermission::r()), None);
    assert_eq!(
        ms.take_page_table_ops(),
        vec![
            PageTableOp::MapIdentical(VirtPageNum(0x80200), 2),
            PageTableOp::MapIdentical(VirtPageNum(0x80201), 2),
        ]
    );
    // Taking away an identical area gives back no frame.
    ms.remove_framed_area(rng(0x80200, 0x80202));
    assert_eq!(ms.take_page_table_ops(), vec![]);
}

#[test]
fn map_area_map_and_unmap() {
    let mut area = MapArea::new(VirtAddr(0x3000), VirtAddr(0x5000), MapType::Framed, rw());
    let mut ms = MemorySet::new_bare();
    let mut table = os4::memory_set::PageTableOps::new();
    area.map(&mut table);
    area.unmap_one(&mut table, VirtPageNum(3));
    area.unmap(&mut table);
    assert_eq!(
        table.take(),
        vec![
            framed(3, 22),
            framed(4, 22),
            PageTableOp::ReleaseFrame(VirtPageNum(3)),
            PageTableOp::Unmap(VirtPageNum(3)),
            PageTableOp::Unmap(VirtPageNum(3)),
            PageTableOp::ReleaseFrame(VirtPageNum(4)),
            PageTableOp::Unmap(VirtPageNum(4)),
        ]
    );
    assert_eq!(ms.take_page_table_ops(), vec![]);
}

#[test]
fn kernel_space() {
    let layout = KernelLayout {
        stext: 0x8020_0000,
        etext: 0x8020_2000,
        srodata: 0x8020_2000,
        erodata: 0x8020_3000,
        sdata: 0x8020_3000,
        edata: 0x8020_4000,
        sbss_with_stack: 0x8020_4000,
        ebss: 0x8020_5000,
        ekernel: 0x807f_e000,
        strampoline: 0x8020_1000,
    };
    assert!(layout.is_wf());
    let mut ms = MemorySet::new_kernel(&layout);
    assert_eq!(ms.find_area_idx(rng(0x80200, 0x80202)), Some(0));
    assert_eq!(ms.find_area_idx(rng(0x807fe, 0x80800)), Some(4));
    let ops = ms.take_page_table_ops();
    assert_eq!(ops[0], PageTableOp::MapTo(VirtPageNum((1 << 27) - 1), PhysPageNum(0x80201), 10));
    assert_eq!(ops[1], PageTableOp::MapIdentical(VirtPageNum(0x80200), 10));
    assert_eq!(ops[3], PageTableOp::MapIdentical(VirtPageNum(0x80202), 2));
    assert_eq!(ops[4], PageTableOp::MapIdentical(VirtPageNum(0x80203), 6));
    assert_eq!(ops.len(), 1 + 2 + 1 + 1 + 1 + 2);
}

fn put16(b: &mut Vec<u8>, at: usize, v: u16) {
    b[at..at + 2].copy_from_slice(&v.to_le_bytes());
}
fn put32(b: &mut Vec<u8>, at: usize, v: u32) {
    b[at..at + 4].copy_from_slice(&v.to_le_bytes());
}
fn put64(b: &mut Vec<u8>, at: usize, v: u64) {
    b[at..at + 8].copy_from_slice(&v.to_le_bytes());
}

/// A 64-bit ELF image with a loadable R+X segment of 10 bytes at 0x10000 (0x1800 bytes in
/// memory) and a note segment.
fn sample_elf() -> Vec<u8> {
    let mut b = vec![0u8; 186];
    b[0..4].copy_from_slice(&[0x7f, b'E', b'L', b'F']);
    b[4] = 2;
    b[5] = 1;
    b[6] = 1;
    put16(&mut b, 16, 2);
    put16(&mut b, 18, 0xf3);
    put32(&mut b, 20, 1);
    put64(&mut b, 24, 0x10004);
    put64(&mut b, 32, 64);
    put16(&mut b, 52, 64);
    put16(&mut b, 54, 56);
    put16(&mut b, 56, 2);
    // Program header 0: loadable.
    put32(&mut b, 64, 1);
    put32(&mut b, 68, 5);
    put64(&mut b, 72, 176);
    put64(&mut b, 80, 0x10000);
    put64(&mut b, 88, 0x10000);
    put64(&mut b, 96, 10);
    put64(&mut b, 104, 0x1800);
    put64(&mut b, 112, 0x1000);
    // Program header 1: a note.
    put32(&mut b, 120, 4);
    for i in 0..10 {
        b[176 + i] = 0xa0 + i as u8;
    }
    b
}

#[test]
fn user_space_from_elf() {
    let elf = sample_elf();
    let (mut ms, user_sp, entry) = MemorySet::from_elf(&elf, 0x8020_1000);
    assert_eq!(entry, 0x10004);
    assert_eq!(user_sp, 0x15000);
    assert_eq!(ms.find_area_idx(rng(0x10, 0x12)), Some(0));
    assert_eq!(ms.find_area_idx(rng(0x13, 0x15)), Some(1));
    assert_eq!(ms.find_area_idx(rng((1 << 27) - 2, (1 << 27) - 1)), Some(2));
    let ops = ms.take_page_table_ops();
    assert_eq!(
        ops,
        vec![
            PageTableOp::MapTo(VirtPageNum((1 << 27) - 1), PhysPageNum(0x80201), 10),
            framed(0x10, 26),
            framed(0x11, 26),
            PageTableOp::CopyData(VirtPageNum(0x10), elf[176..186].to_vec()),
            framed(0x13, 22),
            framed(0x14, 22),
            framed((1 << 27) - 2, 6),
        ]
    );
}

#[test]
fn try_from_elf_loads_a_good_image() {
    let elf = sample_elf();
    let (mut ms, user_sp, entry) = MemorySet::try_from_elf(&elf, 0x8020_1000).unwrap();
    assert_eq!(entry, 0x10004);
    assert_eq!(user_sp, 0x15000);
    assert_eq!(ms.find_area_idx(rng(0x10, 0x12)), Some(0));
    assert_eq!(ms.take_page_table_ops().len(), 7);
}

#[test]
fn try_from_elf_refuses_what_cannot_load() {
    // Too short for a header.
    assert!(MemorySet::try_from_elf(&sample_elf()[..40], 0x8020_1000).is_none());
    // Not an ELF image.
    let mut bad = sample_elf();
    bad[1] = b'X';
    assert!(MemorySet::try_from_elf(&bad, 0x8020_1000).is_none());
    // A segment type that names no type.
    let mut bad = sample_elf();
    put32(&mut bad, 120, 8);
    assert!(MemorySet::try_from_elf(&bad, 0x8020_1000).is_none());
    // Segment bytes past the end of the image.
    let mut bad = sample_elf();
    put64(&mut bad, 96, 11);
    assert!(MemorySet::try_from_elf(&bad, 0x8020_1000).is_none());
    // A program header table past the end of the image, or none at all.
    let mut bad = sample_elf();
    put64(&mut bad, 32, 4096);
    assert!(MemorySet::try_from_elf(&bad, 0x8020_1000).is_none());
    let mut bad = sample_elf();
    put64(&mut bad, 32, 0);
    assert!(MemorySet::try_from_elf(&bad, 0x8020_1000).is_none());
    // A program header table at an offset not aligned for its fields.
    let mut bad = sample_elf();
    put64(&mut bad, 32, 68);
    assert!(MemorySet::try_from_elf(&bad, 0x8020_1000).is_none());
    // Program headers too small for the fields of a 64-bit image.
    let mut bad = sample_elf();
    put16(&mut bad, 54, 16);
    assert!(MemorySet::try_from_elf(&bad, 0x8020_1000).is_none());
}

#[test]
fn segment_bytes_are_copied_from_its_first_page_on() {
    // A segment with no page of its own still has its bytes written from its first page.
    let mut elf = sample_elf();
    put64(&mut elf, 104, 0);
    let (mut ms, user_sp, _) = MemorySet::try_from_elf(&elf, 0x8020_1000).unwrap();
    assert_eq!(user_sp, 0x13000);
    let ops = ms.take_page_table_ops();
    assert_eq!(ops[1], PageTableOp::CopyData(VirtPageNum(0x10), elf[176..186].to_vec()));
}

/// A 32-bit ELF image of just its header, with no program headers.
fn bare_elf32() -> Vec<u8> {
    let mut b = vec![0u8; 52];
    b[0..4].copy_from_slice(&[0x7f, b'E', b'L', b'F']);
    b[4] = 1;
    b[5] = 1;
    b[6] = 1;
    put16(&mut b, 16, 2);
    put32(&mut b, 24, 0x1234);
    put16(&mut b, 40, 52);
    b
}

#[test]
fn header_of_a_32_bit_image() {
    let elf = bare_elf32();
    let (_, user_sp, entry) = MemorySet::try_from_elf(&elf, 0x8020_1000).unwrap();
    assert_eq!(entry, 0x1234);
    assert_eq!(user_sp, 0x3000);
    assert!(MemorySet::try_from_elf(&elf[..51], 0x8020_1000).is_none());
    let mut elf64 = elf.clone();
    elf64[4] = 2;
    assert!(MemorySet::try_from_elf(&elf64, 0x8020_1000).is_none());
}

#[test]
fn image_at_any_address() {
    // The image need not lie at an aligned address.
    let elf = sample_elf();
    let mut buf = vec![0u8; elf.len() + 8];
    for off in 0..8 {
        buf[off..off + elf.len()].copy_from_slice(&elf);
        let (_, _, entry) = MemorySet::try_from_elf(&buf[off..off + elf.len()], 0x8020_1000).unwrap();
        assert_eq!(entry, 0x10004);
    }
}

#[test]
fn extend_then_shrink_gives_back_the_area() {
    let mut ms = MemorySet::new_bare();
    ms.insert_framed_area(VirtAddr(0x4000), VirtAddr(0x6000), rw());
    ms.take_page_table_ops();
    ms.extend_framed_area(rng(4, 6), rng(4, 8), rw());
    ms.shrink_framed_area(rng(4, 8), rng(4, 6));
    assert_eq!(
        ms.take_page_table_ops(),
        vec![
            framed(6, 22),
            framed(7, 22),
            PageTableOp::ReleaseFrame(VirtPageNum(6)),
            PageTableOp::Unmap(VirtPageNum(6)),
            PageTableOp::ReleaseFrame(VirtPageNum(7)),
            PageTableOp::Unmap(VirtPageNum(7)),
        ]
    );
    assert_eq!(ms.find_area_idx(rng(4, 6)), Some(0));
    assert_eq!(ms.find_area_idx(rng(4, 8)), None);
}

#[test]
fn removing_an_area_releases_frames_in_page_order() {
    let mut ms = MemorySet::new_bare();
    ms.insert_framed_area(VirtAddr(0x4000), VirtAddr(0x7000), rw());
    ms.take_page_table_ops();
    ms.remove_framed_area(rng(4, 7));
    assert_eq!(
        ms.take_page_table_ops(),
        vec![
            PageTableOp::ReleaseFrame(VirtPageNum(4)),
            PageTableOp::ReleaseFrame(VirtPageNum(5)),
            PageTableOp::ReleaseFrame(VirtPageNum(6)),
        ]
    );
}
