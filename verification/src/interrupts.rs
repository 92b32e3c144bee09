use vstd::prelude::*;
use vstd::arithmetic::div_mod::{lemma_div_is_ordered_by_denominator, lemma_fundamental_div_mod, lemma_fundamental_div_mod_converse_mod};
use crate::syscall::wrapping_inc;
use crate::tasks::{Scheduler, on_timer_tick, tick_allowed, tick_outcome};

verus! {

/// Interrupt vector of the timer (IRQ 0 after remapping).
pub const TIMER_VECTOR: u8 = 32;
/// Interrupt vector of the keyboard (IRQ 1 after remapping).
pub const KEYBOARD_VECTOR: u8 = 33;

/// Command port of the primary 8259 PIC.
pub const PIC1_COMMAND: u16 = 0x20;
/// Data (mask) port of the primary 8259 PIC.
pub const PIC1_DATA: u16 = 0x21;
/// Command port of the secondary 8259 PIC.
pub const PIC2_COMMAND: u16 = 0xA0;
/// Data (mask) port of the secondary 8259 PIC.
pub const PIC2_DATA: u16 = 0xA1;
/// End-of-interrupt command byte.
pub const PIC_EOI: u8 = 0x20;
/// Command port of the 8253/8254 interval timer.
pub const PIT_COMMAND: u16 = 0x43;
/// Data port of timer channel 0.
pub const PIT_CHANNEL0: u16 = 0x40;
/// Input clock of the interval timer, in Hz.
pub const PIT_BASE_HZ: u32 = 1_193_182;

/// One byte to send to an I/O port.
#[derive(Clone, Copy, Debug, PartialEq, Eq, Structural)]
pub struct PortWrite {
    pub port: u16,
    pub value: u8,
}

/// The port write `(port, value)`.
pub open spec fn pw(port: u16, value: u8) -> PortWrite {
    PortWrite { port, value }
}

/// The timer interrupt count.
pub struct TickCounter {
    ticks: u64,
}

impl View for TickCounter {
    type V = u64;

    closed spec fn view(&self) -> u64 {
        self.ticks
    }
}

impl TickCounter {
    /// A counter at zero.
    pub fn new() -> (r: Self)
        ensures
            r@ == 0,
    {
        TickCounter { ticks: 0 }
    }
}

/// Timer interrupts taken so far (modulo 2^64).
pub fn ticks(counter: &TickCounter) -> (r: u64)
    ensures
        r == counter@,
{
    counter.ticks
}

/// The port writes that remap the two PICs to vectors 0x20 and 0x28, chain
/// them, put them in 8086 mode, and mask every line but IRQ 0 and IRQ 1.
pub open spec fn pic_remap_spec() -> Seq<PortWrite> {
    seq![
        pw(PIC1_COMMAND, 0x11),
        pw(PIC2_COMMAND, 0x11),
        pw(PIC1_DATA, 0x20),
        pw(PIC2_DATA, 0x28),
        pw(PIC1_DATA, 0x04),
        pw(PIC2_DATA, 0x02),
        pw(PIC1_DATA, 0x01),
        pw(PIC2_DATA, 0x01),
        pw(PIC1_DATA, 0xFC),
        pw(PIC2_DATA, 0xFF),
    ]
}

/// The initialization sequence of the two PICs, in the order to send it.
pub fn remap_pic() -> (r: Vec<PortWrite>)
    ensures
        r@ == pic_remap_spec(),
{
    let mut r: Vec<PortWrite> = Vec::new();
    r.push(PortWrite { port: PIC1_COMMAND, value: 0x11 });
    r.push(PortWrite { port: PIC2_COMMAND, value: 0x11 });
    r.push(PortWrite { port: PIC1_DATA, value: 0x20 });
    r.push(PortWrite { port: PIC2_DATA, value: 0x28 });
    r.push(PortWrite { port: PIC1_DATA, value: 0x04 });
    r.push(PortWrite { port: PIC2_DATA, value: 0x02 });
    r.push(PortWrite { port: PIC1_DATA, value: 0x01 });
    r.push(PortWrite { port: PIC2_DATA, value: 0x01 });
    r.push(PortWrite { port: PIC1_DATA, value: 0xFC });
    r.push(PortWrite { port: PIC2_DATA, value: 0xFF });
    assert(r@ =~= pic_remap_spec());
    r
}

/// The mask port of the PIC that serves `irq`.
pub open spec fn mask_port_spec(irq: u8) -> u16 {
    if irq < 8 { PIC1_DATA } else { PIC2_DATA }
}

/// The bit of `irq` in its PIC's mask.
pub open spec fn mask_bit_spec(irq: u8) -> u8 {
    if irq < 8 { irq } else { (irq - 8) as u8 }
}

/// The mask port to read before unmasking `irq`.
pub fn irq_mask_port(irq: u8) -> (r: u16)
    ensures
        r == mask_port_spec(irq),
        irq < 8 ==> r == 0x21,
        irq >= 8 ==> r == 0xA1,
{
    if irq < 8 { PIC1_DATA } else { PIC2_DATA }
}

/// Unmasks `irq` given the current mask byte of its PIC: the write that
/// clears the line's bit and keeps every other bit.
pub fn unmask_irq(irq: u8, current: u8) -> (r: PortWrite)
    requires
        irq < 16,
    ensures
        r.port == mask_port_spec(irq),
        r.value == current & !(1u8 << mask_bit_spec(irq)),
        forall|b: u8| b < 8 ==> ((r.value >> b) & 1 == 0 <==> (b == mask_bit_spec(irq) || (current >> b) & 1 == 0)),
        irq < 8 ==> r.port == 0x21 && forall|b: u8|
            b < 8 ==> ((r.value >> b) & 1 == 0 <==> (b == irq || (current >> b) & 1 == 0)),
        irq >= 8 ==> r.port == 0xA1 && forall|b: u8|
            b < 8 ==> ((r.value >> b) & 1 == 0 <==> (b + 8 == irq || (current >> b) & 1 == 0)),
{
    let (port, bit) = if irq < 8 { (PIC1_DATA, irq) } else { (PIC2_DATA, irq - 8) };
    let value = current & !(1u8 << bit);
    assert(forall|b: u8| b < 8 ==> ((value >> b) & 1 == 0 <==> (b == bit || (current >> b) & 1 == 0))) by (bit_vector)
        requires
            bit < 8,
            value == current & !(1u8 << bit),
    ;
    PortWrite { port, value }
}

/// The end-of-interrupt writes for `irq`: the secondary PIC first when it
/// served the line, then the primary one.
pub open spec fn eoi_spec(irq: u8) -> Seq<PortWrite> {
    if irq >= 8 {
        seq![pw(PIC2_COMMAND, PIC_EOI), pw(PIC1_COMMAND, PIC_EOI)]
    } else {
        seq![pw(PIC1_COMMAND, PIC_EOI)]
    }
}

/// Acknowledges `irq` to the PICs.
pub fn send_eoi(irq: u8) -> (r: Vec<PortWrite>)
    ensures
        r@ == eoi_spec(irq),
        irq >= 8 ==> r@ == seq![PortWrite { port: 0xA0, value: 0x20 }, PortWrite { port: 0x20, value: 0x20 }],
        irq < 8 ==> r@ == seq![PortWrite { port: 0x20, value: 0x20 }],
{
    let mut r: Vec<PortWrite> = Vec::new();
    if irq >= 8 {
        r.push(PortWrite { port: PIC2_COMMAND, value: PIC_EOI });
    }
    r.push(PortWrite { port: PIC1_COMMAND, value: PIC_EOI });
    assert(r@ =~= eoi_spec(irq));
    r
}

/// What the timer interrupt does: counts the tick (wrapping), runs the
/// scheduler's tick and returns the end-of-interrupt writes for IRQ 0.
pub fn timer_handler(
    counter: &mut TickCounter,
    scheduler: &mut Scheduler,
    schedule_ticks: &mut u64,
) -> (r: Vec<PortWrite>)
    requires
        old(scheduler).wf(),
        tick_allowed(*old(scheduler)),
    ensures
        final(counter)@ == wrapping_inc(old(counter)@),
        final(scheduler).wf(),
        tick_outcome(*old(scheduler), *final(scheduler)),
        *final(schedule_ticks) == wrapping_inc(*old(schedule_ticks)),
        r@ == eoi_spec(0),
{
    counter.ticks = counter.ticks.wrapping_add(1);
    on_timer_tick(scheduler, schedule_ticks);
    send_eoi(0)
}

/// The divisor that programs the timer for `hz` interrupts a second: the
/// base clock over `hz` (taken as at least 1), capped at `u16::MAX`.
pub open spec fn pit_divisor_spec(hz: u32) -> u16 {
    let h = if hz < 1 { 1 } else { hz };
    let d = PIT_BASE_HZ / h;
    if d > u16::MAX { u16::MAX } else { d as u16 }
}

/// Timer channel 0 in rate-generator mode, loaded low byte then high byte.
pub open spec fn pit_spec(hz: u32) -> Seq<PortWrite> {
    let d = pit_divisor_spec(hz);
    seq![pw(PIT_COMMAND, 0x36), pw(PIT_CHANNEL0, (d % 256) as u8), pw(PIT_CHANNEL0, (d / 256) as u8)]
}

/// The divisor for `hz` timer interrupts a second.
pub fn pit_divisor(hz: u32) -> (r: u16)
    ensures
        r == pit_divisor_spec(hz),
        hz <= 18 ==> r == 0xFFFF,
        hz >= 19 ==> r == 1_193_182int / (hz as int),
{
    proof {
        lemma_pit_divisor_ranges(hz);
    }
    let h = if hz < 1 { 1 } else { hz };
    let d = PIT_BASE_HZ / h;
    if d > 0xFFFF { 0xFFFF } else { d as u16 }
}

/// The port writes that program the timer for `hz` interrupts a second.
pub fn init_pit(hz: u32) -> (r: Vec<PortWrite>)
    ensures
        r@ == pit_spec(hz),
        r@.len() == 3,
        r@[0] == (PortWrite { port: 0x43, value: 0x36 }),
        r@[1].port == 0x40 && r@[2].port == 0x40,
        r@[1].value + 256 * r@[2].value == pit_divisor_spec(hz),
{
    let divisor = pit_divisor(hz);
    let low = (divisor & 0xFF) as u8;
    let high = (divisor >> 8) as u8;
    assert(low == divisor % 256 && high == divisor / 256) by (bit_vector)
        requires
            low == (divisor & 0xFF) as u8,
            high == (divisor >> 8) as u8,
    ;
    let mut r: Vec<PortWrite> = Vec::new();
    r.push(PortWrite { port: PIT_COMMAND, value: 0x36 });
    r.push(PortWrite { port: PIT_CHANNEL0, value: low });
    r.push(PortWrite { port: PIT_CHANNEL0, value: high });
    assert(r@ =~= pit_spec(hz));
    r
}

/// The tick counter counts timer interrupts: a counter that starts at 0
/// (as `TickCounter::new` makes it) and is raised by each timer interrupt
/// (as `timer_handler` does) holds, after `n` interrupts, `n` modulo 2^64.
pub proof fn lemma_ticks_count_interrupts(counters: Seq<TickCounter>, n: int)
    requires
        counters.len() >= 1,
        counters[0]@ == 0,
        forall|i: int| 0 <= i < counters.len() - 1 ==> #[trigger] counters[i + 1]@ == wrapping_inc(counters[i]@),
        0 <= n < counters.len(),
    ensures
        counters[n]@ == n % 0x1_0000_0000_0000_0000,
    decreases n,
{
    if n > 0 {
        lemma_ticks_count_interrupts(counters, n - 1);
        let i = n - 1;
        assert(counters[i + 1]@ == wrapping_inc(counters[i]@));
        let m = 0x1_0000_0000_0000_0000int;
        let q = (n - 1) / m;
        lemma_fundamental_div_mod(n - 1, m);
        if (n - 1) % m == m - 1 {
            lemma_fundamental_div_mod_converse_mod(n, m, q + 1, 0);
        } else {
            lemma_fundamental_div_mod_converse_mod(n, m, q, (n - 1) % m + 1);
        }
    }
}

/// Acknowledging a line: a line of the secondary PIC (8 and up) sends the
/// end-of-interrupt command 0x20 to the secondary PIC's command port 0xA0
/// and then to the primary's port 0x20; a line of the primary PIC (0 to 7)
/// sends it to port 0x20 only.
pub proof fn lemma_eoi_acknowledges_serving_pics(irq: u8)
    ensures
        irq >= 8 ==> eoi_spec(irq) == seq![PortWrite { port: 0xA0, value: 0x20 }, PortWrite { port: 0x20, value: 0x20 }],
        irq < 8 ==> eoi_spec(irq) == seq![PortWrite { port: 0x20, value: 0x20 }],
{
}

/// The timer divisor, by frequency: any rate up to 18 Hz (0 taken as 1)
/// gets the largest divisor 0xFFFF, which the 16-bit counter can hold;
/// from 19 Hz on the divisor is the base clock 1 193 182 Hz over the rate.
pub proof fn lemma_pit_divisor_ranges(hz: u32)
    ensures
        hz <= 18 ==> pit_divisor_spec(hz) == 0xFFFF,
        hz >= 19 ==> pit_divisor_spec(hz) == 1_193_182int / (hz as int),
        hz >= 19 ==> pit_divisor_spec(hz) <= 62799,
{
    let h: int = if hz < 1 { 1 } else { hz as int };
    if hz <= 18 {
        lemma_div_is_ordered_by_denominator(1_193_182, h, 18);
        assert(1_193_182int / 18 == 66287);
    } else {
        lemma_div_is_ordered_by_denominator(1_193_182, 19, h);
        assert(1_193_182int / 19 == 62799);
    }
}

} // verus!
