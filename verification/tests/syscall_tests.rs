use orbit::syscall::{count, dispatch, SyscallCounter, SyscallResult, SYS_EXIT, SYS_GET_TICKS, SYS_WRITE, SYS_YIELD};

#[test]
fn dispatch_answers_each_call() {
    let mut c = SyscallCounter::new();
    assert_eq!(dispatch(&mut c, 77, SYS_WRITE, 0x4F52424954, 1, 2), SyscallResult::Value(0x4F52424954));
    assert_eq!(dispatch(&mut c, 77, SYS_YIELD, 5, 0, 0), SyscallResult::Value(5));
    assert_eq!(dispatch(&mut c, 77, SYS_EXIT, 6, 0, 0), SyscallResult::Value(6));
    assert_eq!(dispatch(&mut c, 77, SYS_GET_TICKS, 6, 0, 0), SyscallResult::Value(77));
    assert_eq!(dispatch(&mut c, 77, 0, 6, 0, 0), SyscallResult::Unsupported);
    assert_eq!(dispatch(&mut c, 77, 5, 6, 0, 0), SyscallResult::Unsupported);
    assert_eq!(dispatch(&mut c, 77, u64::MAX, 6, 0, 0), SyscallResult::Unsupported);
}

#[test]
fn every_call_is_counted() {
    let mut c = SyscallCounter::new();
    assert_eq!(count(&c), 0);
    dispatch(&mut c, 0, SYS_WRITE, 0, 0, 0);
    assert_eq!(count(&c), 1);
    dispatch(&mut c, 0, 42, 0, 0, 0);
    assert_eq!(count(&c), 2);
}
