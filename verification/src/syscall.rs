use vstd::prelude::*;

verus! {

/// Write `arg0` to the console; returns `arg0`.
pub const SYS_WRITE: u64 = 1;
/// Give up the processor; returns `arg0`.
pub const SYS_YIELD: u64 = 2;
/// End the calling task; returns `arg0`.
pub const SYS_EXIT: u64 = 3;
/// Read the timer tick counter.
pub const SYS_GET_TICKS: u64 = 4;

/// What a system call hands back.
#[derive(Clone, Copy, Debug, PartialEq, Eq, Structural)]
pub enum SyscallResult {
    Value(u64),
    Unsupported,
}

/// The system-call table's state: how many calls it has dispatched.
pub struct SyscallCounter {
    calls: u64,
}

impl View for SyscallCounter {
    type V = u64;

    closed spec fn view(&self) -> u64 {
        self.calls
    }
}

impl SyscallCounter {
    /// A counter that has seen no call.
    pub fn new() -> (r: Self)
        ensures
            r@ == 0,
    {
        SyscallCounter { calls: 0 }
    }
}

/// The result that call `number` gives, with `ticks` the timer count.
pub open spec fn syscall_result(number: u64, arg0: u64, ticks: u64) -> SyscallResult {
    if number == SYS_WRITE || number == SYS_YIELD || number == SYS_EXIT {
        SyscallResult::Value(arg0)
    } else if number == SYS_GET_TICKS {
        SyscallResult::Value(ticks)
    } else {
        SyscallResult::Unsupported
    }
}

/// `n + 1`, wrapping to 0 past `u64::MAX`.
pub open spec fn wrapping_inc(n: u64) -> u64 {
    if n == u64::MAX { 0 } else { (n + 1) as u64 }
}

/// Dispatches system call `number` and counts it (the count wraps, as a
/// free-running atomic counter does).  `ticks` is the timer tick count at
/// the time of the call.
pub fn dispatch(counter: &mut SyscallCounter, ticks: u64, number: u64, arg0: u64, _arg1: u64, _arg2: u64) -> (r: SyscallResult)
    ensures
        r == syscall_result(number, arg0, ticks),
        number == 1 || number == 2 || number == 3 ==> r == SyscallResult::Value(arg0),
        number == 4 ==> r == SyscallResult::Value(ticks),
        !(number == 1 || number == 2 || number == 3 || number == 4) ==> r == SyscallResult::Unsupported,
        final(counter)@ == wrapping_inc(old(counter)@),
{
    counter.calls = counter.calls.wrapping_add(1);
    if number == SYS_WRITE || number == SYS_YIELD || number == SYS_EXIT {
        SyscallResult::Value(arg0)
    } else if number == SYS_GET_TICKS {
        SyscallResult::Value(ticks)
    } else {
        SyscallResult::Unsupported
    }
}

/// Number of system calls dispatched so far (modulo 2^64).
pub fn count(counter: &SyscallCounter) -> (r: u64)
    ensures
        r == counter@,
{
    counter.calls
}

/// The system-call table, number by number: write (1), yield (2) and exit
/// (3) give back their first argument, get-ticks (4) gives the tick count,
/// and every other 64-bit number is unsupported.
pub proof fn lemma_syscall_table(number: u64, arg0: u64, ticks: u64)
    ensures
        number == 1 || number == 2 || number == 3 ==> syscall_result(number, arg0, ticks) == SyscallResult::Value(arg0),
        number == 4 ==> syscall_result(number, arg0, ticks) == SyscallResult::Value(ticks),
        !(number == 1 || number == 2 || number == 3 || number == 4) ==> syscall_result(number, arg0, ticks)
            == SyscallResult::Unsupported,
{
}

} // verus!
