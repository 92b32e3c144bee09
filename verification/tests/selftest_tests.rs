use orbit::interrupts::TickCounter;
use orbit::memory::{MemoryRegion, MemoryRegionKind, PhysicalAllocator};
use orbit::selftest::{run, SelfTestReport};
use orbit::syscall::SyscallCounter;
use orbit::tasks::{init, Scheduler};

#[test]
fn self_test_passes_on_a_booted_kernel() {
    let mut allocator = PhysicalAllocator::new();
    allocator.initialize(&[MemoryRegion { start: 0x100000, end: 0x200000, kind: MemoryRegionKind::Usable }]);
    let mut scheduler = Scheduler::new();
    init(&mut scheduler);
    let mut syscalls = SyscallCounter::new();
    let clock = TickCounter::new();
    let report = run(&mut allocator, &mut scheduler, &mut syscalls, &clock);
    assert_eq!(
        report,
        SelfTestReport {
            frame_ok: true,
            spawned: true,
            storage_ok: true,
            read_ok: true,
            data_ok: true,
            range_error: true,
            syscall_ok: true,
            passed: true,
            frames: 1,
            syscall_calls: 2,
            ready_tasks: 3,
        }
    );
}

#[test]
fn self_test_fails_without_free_memory() {
    let mut allocator = PhysicalAllocator::new();
    let mut scheduler = Scheduler::new();
    let mut syscalls = SyscallCounter::new();
    let clock = TickCounter::new();
    let report = run(&mut allocator, &mut scheduler, &mut syscalls, &clock);
    assert!(!report.frame_ok);
    assert!(report.spawned);
    assert!(!report.passed);
    assert!(report.storage_ok && report.read_ok && report.data_ok && report.range_error && report.syscall_ok);
    assert_eq!(report.frames, 0);
    assert_eq!(report.ready_tasks, 1);
}
