use std::collections::BTreeMap;

use os4::address::{VPNRange, VirtPageNum};
use os4::memory_set::{MemorySet, PageTableOp};
use os4::task::{
    mmap_can_run, munmap_can_run, task_memory_set_mmap, task_memory_set_unmmap, TaskControlBlock, TaskManager,
    TaskStatus,
};

fn tcb(status: TaskStatus) -> TaskControlBlock {
    TaskControlBlock {
        task_status: status,
        begin_time_ms: 0,
        syscall_times: BTreeMap::new(),
        memory_set: MemorySet::new_bare(),
    }
}

fn framed(v: usize, flags: u8) -> PageTableOp {
    PageTableOp::MapFramed(VirtPageNum(v), flags)
}

#[test]
fn mmap_rejects_bad_arguments() {
    let mut ms = MemorySet::new_bare();
    assert_eq!(task_memory_set_mmap(&mut ms, 0x1000, 0x1000, 0), -1);
    assert_eq!(task_memory_set_mmap(&mut ms, 0x1000, 0x1000, 8), -1);
    assert_eq!(task_memory_set_mmap(&mut ms, 0x1001, 0x1000, 1), -1);
    assert_eq!(ms.take_page_table_ops(), vec![]);
}

#[test]
fn mmap_maps_and_joins() {
    let mut ms = MemorySet::new_bare();
    assert_eq!(task_memory_set_mmap(&mut ms, 0x10000, 0x1800, 0b011), 0);
    assert_eq!(ms.take_page_table_ops(), vec![framed(0x10, 22), framed(0x11, 22)]);
    // Overlap: refused.
    assert_eq!(task_memory_set_mmap(&mut ms, 0x11000, 0x1000, 0b011), -1);
    // Right after: the area grows.
    assert_eq!(task_memory_set_mmap(&mut ms, 0x12000, 0x1000, 0b011), 0);
    assert_eq!(ms.take_page_table_ops(), vec![framed(0x12, 22)]);
    assert_eq!(ms.find_area_idx(VPNRange::new(VirtPageNum(0x10), VirtPageNum(0x13))), Some(0));
    // A second range, then the gap between: the two join.
    assert_eq!(task_memory_set_mmap(&mut ms, 0x15000, 0x1000, 0b011), 0);
    assert_eq!(task_memory_set_mmap(&mut ms, 0x13000, 0x2000, 0b011), 0);
    let ops = ms.take_page_table_ops();
    assert_eq!(ops[0], framed(0x15, 22));
    assert_eq!(ops[1], framed(0x13, 22));
    assert_eq!(ops[2], framed(0x14, 22));
    assert_eq!(ops.len(), 3);
    assert_eq!(ms.find_area_idx(VPNRange::new(VirtPageNum(0x10), VirtPageNum(0x16))), Some(0));
}

#[test]
fn mmap_rights() {
    let mut ms = MemorySet::new_bare();
    assert_eq!(task_memory_set_mmap(&mut ms, 0x1000, 1, 0b101), 0);
    assert_eq!(ms.take_page_table_ops(), vec![framed(1, 16 | 2 | 8)]);
    assert_eq!(task_memory_set_mmap(&mut ms, 0x8000, 1, 0b010), 0);
    assert_eq!(ms.take_page_table_ops(), vec![framed(8, 16 | 4)]);
}

#[test]
fn munmap_undoes_mmap() {
    let mut ms = MemorySet::new_bare();
    assert_eq!(task_memory_set_mmap(&mut ms, 0x20000, 0x3000, 0b001), 0);
    ms.take_page_table_ops();
    assert_eq!(task_memory_set_unmmap(&mut ms, 0x20000, 0x3000), 0);
    let ops = ms.take_page_table_ops();
    assert_eq!(ops.len(), 3);
    for v in 0x20..0x23 {
        assert!(ops.contains(&PageTableOp::ReleaseFrame(VirtPageNum(v))));
    }
    assert_eq!(ms.find_area_idx(VPNRange::new(VirtPageNum(0x20), VirtPageNum(0x23))), None);
    // Mapping the same range again works.
    assert_eq!(task_memory_set_mmap(&mut ms, 0x20000, 0x3000, 0b001), 0);
}

#[test]
fn munmap_shrinks_and_splits() {
    let mut ms = MemorySet::new_bare();
    assert_eq!(task_memory_set_mmap(&mut ms, 0x20000, 0x6000, 0b011), 0);
    ms.take_page_table_ops();
    assert_eq!(task_memory_set_unmmap(&mut ms, 0x20001, 0x1000), -1);
    assert_eq!(task_memory_set_unmmap(&mut ms, 0x20000, 0x800), -1);
    assert_eq!(task_memory_set_unmmap(&mut ms, 0x30000, 0x1000), -1);
    assert_eq!(task_memory_set_unmmap(&mut ms, 0x25000, 0x1000), 0);
    assert_eq!(
        ms.take_page_table_ops(),
        vec![PageTableOp::ReleaseFrame(VirtPageNum(0x25)), PageTableOp::Unmap(VirtPageNum(0x25))]
    );
    assert_eq!(task_memory_set_unmmap(&mut ms, 0x22000, 0x1000), 0);
    assert_eq!(ms.take_page_table_ops(), vec![PageTableOp::ReleaseFrame(VirtPageNum(0x22))]);
    assert_eq!(ms.find_area_idx(VPNRange::new(VirtPageNum(0x20), VirtPageNum(0x22))), Some(0));
    assert_eq!(ms.find_area_idx(VPNRange::new(VirtPageNum(0x23), VirtPageNum(0x25))), Some(1));
}

#[test]
fn mapped_ranges_keep_their_areas() {
    let mut ms = MemorySet::new_bare();
    let area = |ms: &MemorySet, s: usize, e: usize| ms.find_area_idx(VPNRange::new(VirtPageNum(s), VirtPageNum(e)));
    assert_eq!(task_memory_set_mmap(&mut ms, 0x10000, 0x2000, 0b011), 0);
    assert_eq!(task_memory_set_mmap(&mut ms, 0x12000, 0x2000, 0b011), 0);
    assert_eq!(task_memory_set_mmap(&mut ms, 0x20000, 0x2000, 0b001), 0);
    assert_eq!(task_memory_set_unmmap(&mut ms, 0x11000, 0x1000), 0);
    assert_eq!(area(&ms, 0x10, 0x11), Some(0));
    assert_eq!(area(&ms, 0x12, 0x14), Some(2));
    assert_eq!(area(&ms, 0x20, 0x22), Some(1));
    assert_eq!(task_memory_set_unmmap(&mut ms, 0x20000, 0x2000), 0);
    assert_eq!(area(&ms, 0x20, 0x22), None);
    assert_eq!(area(&ms, 0x12, 0x14), Some(1));
}

#[test]
fn mmap_with_other_rights_maps_its_own_area() {
    let area = |ms: &MemorySet, s: usize, e: usize| ms.find_area_idx(VPNRange::new(VirtPageNum(s), VirtPageNum(e)));
    let mut ms = MemorySet::new_bare();
    assert_eq!(task_memory_set_mmap(&mut ms, 0x30000, 0x1000, 0b001), 0);
    ms.take_page_table_ops();
    // The range joins the recorded one; its pages get an area with the rights asked for.
    assert_eq!(task_memory_set_mmap(&mut ms, 0x31000, 0x1000, 0b010), 0);
    assert_eq!(ms.take_page_table_ops(), vec![framed(0x31, 16 | 4)]);
    assert_eq!(area(&ms, 0x30, 0x31), Some(0));
    assert_eq!(area(&ms, 0x31, 0x32), Some(1));
    // Its pages are taken now.
    assert_eq!(task_memory_set_mmap(&mut ms, 0x31000, 0x1000, 0b010), -1);
    // The joined range has no single area, so unmapping it cannot run.
    assert!(!munmap_can_run(&ms, 0x30000, 0x2000));
    // Nor can a mapping that joins it.
    assert!(!mmap_can_run(&ms, 0x32000, 0x1000, 0b001));
    // Joining on both sides with other rights also maps an area of its own.
    assert_eq!(task_memory_set_mmap(&mut ms, 0x40000, 0x1000, 0b001), 0);
    assert_eq!(task_memory_set_mmap(&mut ms, 0x42000, 0x1000, 0b001), 0);
    ms.take_page_table_ops();
    assert_eq!(task_memory_set_mmap(&mut ms, 0x41000, 0x1000, 0b010), 0);
    assert_eq!(ms.take_page_table_ops(), vec![framed(0x41, 16 | 4)]);
    assert_eq!(area(&ms, 0x41, 0x42), Some(4));
    assert_eq!(area(&ms, 0x40, 0x41), Some(2));
}

#[test]
fn can_run_checks() {
    let mut ms = MemorySet::new_bare();
    // Bad arguments are refused by the call itself, so it can run.
    assert!(mmap_can_run(&ms, 0x1001, 0x1000, 1));
    assert!(mmap_can_run(&ms, 0x1000, 0x1000, 0));
    // A range past the end of the address space cannot.
    assert!(!mmap_can_run(&ms, 0x1000, usize::MAX, 1));
    assert!(!munmap_can_run(&ms, 0x1000, usize::MAX));
    assert!(mmap_can_run(&ms, 0x30000, 0x1000, 0b001));
    assert!(munmap_can_run(&ms, 0x30000, 0x1000));
    assert_eq!(task_memory_set_mmap(&mut ms, 0x30000, 0x1000, 0b001), 0);
    assert!(mmap_can_run(&ms, 0x31000, 0x1000, 0b010));
    assert!(munmap_can_run(&ms, 0x30000, 0x1000));
    // A range that touches none is fine.
    assert!(mmap_can_run(&ms, 0x40000, 0x1000, 0b001));
}

#[test]
fn can_run_checks_cut_frames() {
    let mut ms = MemorySet::new_bare();
    assert_eq!(task_memory_set_mmap(&mut ms, 0x20000, 0x4000, 0b011), 0);
    assert!(munmap_can_run(&ms, 0x21000, 0x1000));
    assert!(munmap_can_run(&ms, 0x20000, 0x4000));
    assert!(munmap_can_run(&ms, 0x50000, 0x1000));
    // Joining two ranges with the same rights needs the back area's frames.
    assert_eq!(task_memory_set_mmap(&mut ms, 0x26000, 0x1000, 0b011), 0);
    assert!(mmap_can_run(&ms, 0x24000, 0x2000, 0b011));
}

#[test]
fn syscall_count_queries() {
    let mut tm = TaskManager::new(vec![tcb(TaskStatus::Ready)]);
    assert_eq!(tm.get_current_syscall_count(64), None);
    assert!(tm.current_syscalls_fit());
    tm.update_current_syscall_times(64);
    tm.update_current_syscall_times(64);
    assert_eq!(tm.get_current_syscall_count(64), Some(2));
    assert!(tm.current_syscalls_fit());
    tm.update_current_syscall_times(500);
    assert_eq!(tm.get_current_syscall_count(500), Some(1));
    assert!(!tm.current_syscalls_fit());
}

#[test]
fn mmap_twice_is_refused() {
    let mut ms = MemorySet::new_bare();
    assert_eq!(task_memory_set_mmap(&mut ms, 0x10000, 0x2000, 0b011), 0);
    ms.take_page_table_ops();
    assert_eq!(task_memory_set_mmap(&mut ms, 0x10000, 0x2000, 0b011), -1);
    assert_eq!(ms.take_page_table_ops(), vec![]);
}

#[test]
fn munmap_undoes_a_joining_mmap() {
    let area = |ms: &MemorySet, s: usize, e: usize| ms.find_area_idx(VPNRange::new(VirtPageNum(s), VirtPageNum(e)));
    let mut ms = MemorySet::new_bare();
    assert_eq!(task_memory_set_mmap(&mut ms, 0x10000, 0x2000, 0b011), 0);
    assert_eq!(task_memory_set_mmap(&mut ms, 0x14000, 0x2000, 0b011), 0);
    // Joining on the left, then undone.
    assert_eq!(task_memory_set_mmap(&mut ms, 0x16000, 0x1000, 0b011), 0);
    assert_eq!(task_memory_set_unmmap(&mut ms, 0x16000, 0x1000), 0);
    assert_eq!(area(&ms, 0x14, 0x16), Some(1));
    // Joining both sides, then undone.
    assert_eq!(task_memory_set_mmap(&mut ms, 0x12000, 0x2000, 0b011), 0);
    assert_eq!(area(&ms, 0x10, 0x16), Some(0));
    assert_eq!(task_memory_set_unmmap(&mut ms, 0x12000, 0x2000), 0);
    assert_eq!(area(&ms, 0x10, 0x12), Some(0));
    assert_eq!(area(&ms, 0x14, 0x16), Some(1));
    // Both ranges are still recorded: each can be unmapped on its own.
    assert_eq!(task_memory_set_unmmap(&mut ms, 0x10000, 0x2000), 0);
    assert_eq!(task_memory_set_unmmap(&mut ms, 0x14000, 0x2000), 0);
    assert_eq!(task_memory_set_unmmap(&mut ms, 0x14000, 0x2000), -1);
}

#[test]
fn scheduler_goes_round() {
    let tasks = vec![tcb(TaskStatus::Ready), tcb(TaskStatus::Ready), tcb(TaskStatus::Ready)];
    let mut tm = TaskManager::new(tasks);
    tm.run_first_task(5_000);
    assert_eq!(tm.get_current_begin_time_ms(), 5);
    assert_eq!(tm.find_next_task(), Some(1));
    tm.mark_current_suspended();
    assert_eq!(tm.run_next_task(7_000), (0, 1));
    assert_eq!(tm.get_current_task(), 1);
    assert_eq!(tm.get_current_begin_time_ms(), 7);
    tm.mark_current_exited();
    assert_eq!(tm.run_next_task(9_999), (1, 2));
    assert_eq!(tm.get_current_begin_time_ms(), 9);
    tm.mark_current_suspended();
    // Going round from task 2: task 0 is ready, task 1 has exited.
    assert_eq!(tm.run_next_task(10_000), (2, 0));
    assert_eq!(tm.get_current_begin_time_ms(), 5);
    tm.mark_current_exited();
    assert_eq!(tm.run_next_task(11_000), (0, 2));
    tm.mark_current_exited();
    assert_eq!(tm.find_next_task(), None);
}

#[test]
fn syscall_counts() {
    let mut tm = TaskManager::new(vec![tcb(TaskStatus::Ready)]);
    tm.update_current_syscall_times(64);
    tm.update_current_syscall_times(64);
    tm.update_current_syscall_times(169);
    let times = tm.get_current_syscall_times();
    assert_eq!(times[64], 2);
    assert_eq!(times[169], 1);
    assert_eq!(times[93], 0);
    assert_eq!(times.len(), 500);
}

#[test]
fn mmap_on_the_current_task() {
    let mut tm = TaskManager::new(vec![tcb(TaskStatus::Ready), tcb(TaskStatus::Ready)]);
    assert_eq!(task_memory_set_mmap(tm.current_memory_set(), 0x1000, 0x1000, 0b001), 0);
    assert_eq!(tm.current_memory_set().find_area_idx(VPNRange::new(VirtPageNum(1), VirtPageNum(2))), Some(0));
    tm.run_first_task(0);
    tm.mark_current_suspended();
    assert_eq!(tm.run_next_task(1_000), (0, 1));
    assert_eq!(tm.current_memory_set().find_area_idx(VPNRange::new(VirtPageNum(1), VirtPageNum(2))), None);
}

#[test]
fn no_tasks_no_next() {
    let tm = TaskManager::new(vec![]);
    assert_eq!(tm.find_next_task(), None);
}
