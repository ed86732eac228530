use alaphios::syscall::dispatch::{clone_refusal, fork_refusal, CLONE_VM, EBADF, EFAULT, ENOSYS};
use alaphios::memory::buddy_allocator::{BuddyAllocator, LockedBuddyAllocator};
use alaphios::memory::frame_allocator::{BootFrameAllocator, FrameAlloc, MemRegion};
use alaphios::memory::free_list::FreeListAllocator;
use alaphios::memory::swap::{
    gather_candidates, reap_if_needed, reap_to, sweep_takes, PageBits, ReapAction, ReapEvent, SwapBackend,
    SwapPartition, TaskPages, POOL_MAX,
};
use alaphios::memory::vmm::{FaultAction, VmArea, VmAreaKind, Vmm, FLAG_PRESENT, FLAG_WRITABLE};
use alaphios::process::pid::Tid;
use alaphios::sync::atomic::KernelAtomicUsize;

#[test]
fn buddy_alloc_and_free_round_trip() {
    let mut b = BuddyAllocator::empty();
    b.init(0x10_0000, 4096);
    let a1 = b.alloc_inner(100, 8).expect("first allocation");
    let a2 = b.alloc_inner(100, 8).expect("second allocation");
    assert_ne!(a1, a2);
    assert_eq!(a1 % 128, 0);
    b.dealloc_inner(a1, 100, 8);
    let a3 = b.alloc_inner(100, 8).expect("reuse");
    assert_eq!(a3, a1);
    assert!(b.alloc_inner(1 << 20, 8).is_none());
}

#[test]
fn locked_buddy_keeps_preemption_balanced() {
    let mut heap = LockedBuddyAllocator::new();
    let mut preempt = KernelAtomicUsize::new(0);
    heap.init(0x20_0000, 8192, &mut preempt);
    let p = heap.allocate(64, 64, &mut preempt).expect("allocation");
    assert_eq!(p % 64, 0);
    heap.deallocate(p, 64, 64, &mut preempt);
    assert_eq!(preempt.load(), 0);
}

#[test]
fn boot_frames_in_map_order() {
    let regions = vec![
        MemRegion { start: 0x1000, end: 0x3000, usable: true },
        MemRegion { start: 0x5000, end: 0x6000, usable: false },
        MemRegion { start: 0x8800, end: 0xA000, usable: true },
    ];
    let mut a = BootFrameAllocator::new(regions);
    assert_eq!(a.allocate(), Some(0x1000));
    assert_eq!(a.allocate(), Some(0x2000));
    assert_eq!(a.allocate(), Some(0x8000));
    assert_eq!(a.allocate(), Some(0x9000));
    assert_eq!(a.allocate(), None);
    assert_eq!(a.frames_consumed(), 4);
    a.deallocate(0x1000);
    assert_eq!(a.allocate(), None);
}

#[test]
fn free_list_skips_boot_frames_and_is_lifo() {
    let regions = vec![
        MemRegion { start: 0x1000, end: 0x4000, usable: true },
        MemRegion { start: 0x10000, end: 0x12000, usable: false },
    ];
    let mut f = FreeListAllocator::empty();
    f.init(&regions, 0xFFFF_8000_0000_0000, 1);
    assert_eq!(f.free_count(), 2);
    assert_eq!(f.allocate(), Some(0x3000));
    f.deallocate(0x7000);
    assert_eq!(f.allocate(), Some(0x7000));
    assert_eq!(f.allocate(), Some(0x2000));
    assert_eq!(f.allocate(), None);
}

#[test]
fn swap_out_then_in_restores_page() {
    let mut swap = SwapPartition::new(4);
    let page: Vec<u8> = (0..4096u32).map(|i| (i & 0xFF) as u8).collect();
    let slot = swap.swap_out(&page).expect("swap full");
    assert_eq!(slot, 0);
    let other: Vec<u8> = vec![0xAB; 4096];
    let slot2 = swap.swap_out(&other).expect("swap full");
    assert_eq!(slot2, 1);
    let mut back = vec![0u8; 4096];
    swap.swap_in(slot, &mut back);
    assert_eq!(back, page);
    let mut back2 = vec![0u8; 4096];
    swap.swap_in(slot2, &mut back2);
    assert_eq!(back2, other);
}

#[test]
fn swap_slots_next_fit_and_full() {
    let mut swap = SwapPartition::new(2);
    let page = vec![1u8; 4096];
    assert_eq!(swap.swap_out(&page), Some(0));
    assert_eq!(swap.swap_out(&page), Some(1));
    assert_eq!(swap.swap_out(&page), None);
    swap.free_slot(0);
    assert_eq!(swap.swap_out(&page), Some(0));
}

#[test]
fn victims_over_share_come_first() {
    let tasks = vec![
        TaskPages { tid: Tid(1), cr3: 0x1000, vsize: 0x3000, resident: vec![0xA000] },
        TaskPages { tid: Tid(2), cr3: 0x2000, vsize: 0x1000, resident: vec![0xB000, 0xC000, 0xD000] },
    ];
    let v = gather_candidates(&tasks);
    let addrs: Vec<u64> = v.iter().map(|c| c.vaddr).collect();
    assert_eq!(addrs, vec![0xB000, 0xC000, 0xD000, 0xA000]);
    assert_eq!(v[0].tid, Tid(2));
    assert_eq!(v[3].cr3, 0x1000);
}

#[test]
fn second_chance_sweeps() {
    assert!(sweep_takes(0, false, false));
    assert!(!sweep_takes(0, false, true));
    assert!(sweep_takes(1, false, true));
    assert!(!sweep_takes(1, true, false));
    assert!(sweep_takes(2, true, true));
    assert_eq!(reap_if_needed(10), Some(POOL_MAX));
    assert_eq!(reap_if_needed(64), None);
}

#[test]
fn reaper_round() {
    let (mut r, a) = reap_to(3);
    assert_eq!(a, ReapAction::CheckFree);
    assert_eq!(r.step(ReapEvent::Free(1)), ReapAction::Gather);
    assert_eq!(r.step(ReapEvent::Gathered(2)), ReapAction::ReadBits(0));
    // victim 0 is referenced: skipped in sweep 0
    assert_eq!(r.step(ReapEvent::Bits(Some(PageBits { accessed: true, dirty: false }))), ReapAction::ReadBits(1));
    // victim 1 is clean and unreferenced: evicted
    assert_eq!(r.step(ReapEvent::Bits(Some(PageBits { accessed: false, dirty: false }))), ReapAction::Evict(1));
    assert_eq!(r.step(ReapEvent::Evicted(true)), ReapAction::CheckFree);
    // still short: sweep 1 starts over, clears victim 0's reference bit
    assert_eq!(r.step(ReapEvent::Free(2)), ReapAction::ReadBits(0));
    assert_eq!(r.step(ReapEvent::Bits(Some(PageBits { accessed: true, dirty: true }))), ReapAction::ClearAccessed(0));
    assert_eq!(r.step(ReapEvent::Cleared), ReapAction::ReadBits(1));
    assert_eq!(r.step(ReapEvent::Bits(None)), ReapAction::ReadBits(0));
    // sweep 2 takes anything
    assert_eq!(r.step(ReapEvent::Bits(Some(PageBits { accessed: false, dirty: true }))), ReapAction::Evict(0));
    assert_eq!(r.step(ReapEvent::Evicted(true)), ReapAction::CheckFree);
    assert_eq!(r.step(ReapEvent::Free(3)), ReapAction::CheckFree);
    assert_eq!(r.step(ReapEvent::Free(3)), ReapAction::Done(2));
    assert_eq!(r.step(ReapEvent::Cleared), ReapAction::Done(2));
}

#[test]
fn reaper_stops_without_victims() {
    let (mut r, _) = reap_to(100);
    assert_eq!(r.step(ReapEvent::Free(5)), ReapAction::Gather);
    assert_eq!(r.step(ReapEvent::Gathered(0)), ReapAction::Done(0));
}

fn stack_area() -> VmArea {
    VmArea { start: 0x1000, end: 0x4000, flags: FLAG_PRESENT | FLAG_WRITABLE, kind: VmAreaKind::Anonymous }
}

#[test]
fn page_faults() {
    let mut vmm = Vmm::new();
    vmm.add_area(stack_area());
    assert_eq!(vmm.handle_fault(0x1234, false, None), Ok(FaultAction::ZeroFill { page: 0x1000, flags: 3 }));
    assert_eq!(
        vmm.handle_fault(0x2008, true, Some(0x9000)),
        Ok(FaultAction::CopyOnWrite { page: 0x2000, phys: 0x9000, flags: 3 })
    );
    assert_eq!(vmm.handle_fault(0x2008, false, Some(0x9000)), Err(()));
    assert_eq!(vmm.handle_fault(0x8000, false, None), Err(()));
    vmm.record_swapped(0x3000, 7, 3);
    assert_eq!(vmm.handle_fault(0x3010, true, None), Ok(FaultAction::SwapIn { page: 0x3000, slot: 7, flags: 3 }));
    assert_eq!(vmm.handle_fault(0x3010, true, None), Ok(FaultAction::ZeroFill { page: 0x3000, flags: 3 }));
}

#[test]
fn mprotect_and_fork() {
    let mut vmm = Vmm::new();
    vmm.add_area(stack_area());
    assert_eq!(vmm.mprotect(0x1000, 0x2000, FLAG_PRESENT), Ok(vec![0x1000, 0x2000]));
    assert!(vmm.mprotect(0x9000, 0x1000, FLAG_PRESENT).is_err());
    let (child, pages) = vmm.fork_cow();
    assert_eq!(child.areas().len(), vmm.areas().len());
    assert_eq!(pages.len(), 3);
    let (_, eager) = vmm.fork_eager();
    assert_eq!(eager.len(), 3);
}

#[test]
fn heap_growth_and_shrink() {
    let mut vmm = Vmm::new();
    vmm.set_heap_end(0x10_0000, 0x10_3000, FLAG_PRESENT | FLAG_WRITABLE);
    assert_eq!(vmm.areas()[0].end, 0x10_3000);
    let freed = vmm.shrink_heap(0x10_0000, 0x10_1000, 0x10_3000, FLAG_PRESENT | FLAG_WRITABLE);
    assert_eq!(freed, vec![0x10_1000, 0x10_2000]);
    assert_eq!(vmm.areas()[0].end, 0x10_1000);
}

#[test]
fn fork_and_clone_refusals() {
    assert_eq!(clone_refusal(0, true), Some(ENOSYS));
    assert_eq!(clone_refusal(0, false), Some(ENOSYS));
    assert_eq!(clone_refusal(CLONE_VM, false), Some(EBADF));
    assert_eq!(clone_refusal(CLONE_VM | 0x11, true), None);
    assert_eq!(fork_refusal(None), Some(EBADF));
    let mut vmm = Vmm::new();
    vmm.add_area(VmArea { start: 0x1000, end: 0x4000, flags: FLAG_PRESENT, kind: VmAreaKind::Anonymous });
    assert!(vmm.steppable());
    assert_eq!(fork_refusal(Some(&vmm)), None);
    vmm.add_area(VmArea { start: u64::MAX - 0x1FFF, end: u64::MAX - 0xFFF, flags: FLAG_PRESENT, kind: VmAreaKind::Anonymous });
    assert!(!vmm.steppable());
    assert_eq!(fork_refusal(Some(&vmm)), Some(EFAULT));
}
