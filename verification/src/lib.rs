//! Verified core of a small x86_64 kernel: physical frame allocation,
//! round-robin task scheduling, a RAM block device, system-call dispatch,
//! keyboard decoding, PIC/PIT programming and VGA text output, each stated
//! as a function from the kernel's state to its next state and to the
//! writes that the hardware layer performs.

pub mod interrupts;
pub mod keyboard;
pub mod memory;
pub mod selftest;
pub mod storage;
pub mod syscall;
pub mod tasks;
pub mod vga;
