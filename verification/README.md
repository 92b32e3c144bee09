# orbit

The verified core of ORBIT, a small x86_64 kernel. `src/` is checked with
Verus; `app/` is the kernel's hardware side (port I/O, the VGA buffer, the
COM1 console, the spin-locked kernel state) and calls into `src/`.

- `memory`: the physical frame allocator built from the bootloader's memory
  map, with page alignment.
- `tasks`: the fixed-size round-robin scheduler.
- `storage`: the block-device interface and an in-memory disk.
- `syscall`: system-call dispatch and its call counter.
- `interrupts`: the timer tick counter and the PIC and PIT programming
  sequences, as lists of port writes.
- `keyboard`: scancode decoding.
- `vga`: the text-mode screen writes, as lists of buffer writes.
- `selftest`: the boot-time self test.
