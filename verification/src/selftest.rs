use vstd::prelude::*;
use crate::interrupts::{TickCounter, ticks};
use crate::memory::{PhysicalAllocator, allocate_frame, allocate_outcome, allocated_frames};
use crate::storage::{BlockDevice, RamDisk, StorageError, BLOCK_SIZE};
use crate::syscall::{SyscallCounter, SyscallResult, count, dispatch, wrapping_inc, SYS_GET_TICKS, SYS_WRITE};
use crate::tasks::{MAX_TASKS, Scheduler, active_count, first_free, ready_tasks, spawn_kernel_task, spawn_outcome};

verus! {

/// What the boot-time self test found.
#[derive(Clone, Copy, Debug, PartialEq, Eq, Structural)]
pub struct SelfTestReport {
    /// A physical frame could be allocated.
    pub frame_ok: bool,
    /// A kernel task could be spawned.
    pub spawned: bool,
    /// A block could be written to a RAM disk.
    pub storage_ok: bool,
    /// The block could be read back.
    pub read_ok: bool,
    /// The block read back starts with the bytes written.
    pub data_ok: bool,
    /// Reading past the end of the disk was refused as out of range.
    pub range_error: bool,
    /// The write and get-ticks system calls both returned a value.
    pub syscall_ok: bool,
    /// Every check above passed.
    pub passed: bool,
    /// Frames allocated in all, after the test.
    pub frames: u64,
    /// System calls dispatched in all, after the test.
    pub syscall_calls: u64,
    /// Ready or running tasks, after the test.
    pub ready_tasks: usize,
}

/// The argument that the test's write call passes: "ORBIT" in ASCII.
pub const SELFTEST_WRITE_ARG: u64 = 0x4F52424954;

/// Exercises frame allocation, task creation, a RAM disk and the
/// system-call table, and reports what worked.  The disk checks and the
/// system-call checks always pass; the frame and task checks pass exactly
/// when a free frame and a free task slot are left.
pub fn run(
    allocator: &mut PhysicalAllocator,
    scheduler: &mut Scheduler,
    syscalls: &mut SyscallCounter,
    clock: &TickCounter,
) -> (r: SelfTestReport)
    requires
        old(allocator).wf(),
        old(allocator).next_frame_addressable(),
        old(scheduler).wf(),
        first_free(old(scheduler).slots(), 0) < MAX_TASKS ==> old(scheduler).next_id_value() < u64::MAX,
    ensures
        final(allocator).wf(),
        exists|f| allocate_outcome(*old(allocator), *final(allocator), f) && r.frame_ok == f is Some,
        r.frame_ok == (old(allocator).free_total() != 0),
        final(scheduler).wf(),
        exists|id| spawn_outcome(*old(scheduler), *final(scheduler), id) && r.spawned == id is Some,
        r.spawned == (first_free(old(scheduler).slots(), 0) < MAX_TASKS),
        r.storage_ok && r.read_ok && r.data_ok && r.range_error && r.syscall_ok,
        r.passed == (r.frame_ok && r.spawned),
        final(syscalls)@ == wrapping_inc(wrapping_inc(old(syscalls)@)),
        r.frames == final(allocator).allocated_count(),
        r.syscall_calls == final(syscalls)@,
        r.ready_tasks == active_count(final(scheduler).slots()),
{
    let frame = allocate_frame(allocator);
    let frame_ok = frame.is_some();

    let task = spawn_kernel_task(scheduler);
    let spawned = task.is_some();

    let mut disk = RamDisk::<2>::new();
    let mut write_buffer = [0u8; BLOCK_SIZE];
    write_buffer[0] = 0x4F;
    write_buffer[1] = 0x52;
    write_buffer[2] = 0x42;
    write_buffer[3] = 0x49;
    write_buffer[4] = 0x54;

    let storage_ok = disk.write_block(0, &write_buffer).is_ok();
    let mut read_buffer = [0u8; BLOCK_SIZE];
    let read_ok = disk.read_block(0, &mut read_buffer).is_ok();
    let mut data_ok = true;
    let mut i: usize = 0;
    while i < 5
        invariant
            i <= 5,
            read_buffer@ == write_buffer@,
            data_ok,
        decreases 5 - i,
    {
        if read_buffer[i] != write_buffer[i] {
            data_ok = false;
        }
        i = i + 1;
    }
    let range_error = match disk.read_block(9, &mut read_buffer) {
        Err(StorageError::OutOfRange) => true,
        _ => false,
    };

    let write_call = dispatch(syscalls, ticks(clock), SYS_WRITE, SELFTEST_WRITE_ARG, 0, 0);
    let tick_call = dispatch(syscalls, ticks(clock), SYS_GET_TICKS, 0, 0, 0);
    let syscall_ok = match (write_call, tick_call) {
        (SyscallResult::Value(_), SyscallResult::Value(_)) => true,
        _ => false,
    };

    SelfTestReport {
        frame_ok,
        spawned,
        storage_ok,
        read_ok,
        data_ok,
        range_error,
        syscall_ok,
        passed: frame_ok && spawned && storage_ok && read_ok && data_ok && range_error && syscall_ok,
        frames: allocated_frames(allocator),
        syscall_calls: count(syscalls),
        ready_tasks: ready_tasks(scheduler),
    }
}

} // verus!
