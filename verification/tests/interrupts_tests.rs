use orbit::interrupts::{
    init_pit, irq_mask_port, pit_divisor, remap_pic, send_eoi, ticks, timer_handler, unmask_irq, PortWrite,
    TickCounter,
};
use orbit::tasks::Scheduler;

fn w(port: u16, value: u8) -> PortWrite {
    PortWrite { port, value }
}

#[test]
fn pic_remap_sequence() {
    assert_eq!(
        remap_pic(),
        vec![
            w(0x20, 0x11),
            w(0xA0, 0x11),
            w(0x21, 0x20),
            w(0xA1, 0x28),
            w(0x21, 0x04),
            w(0xA1, 0x02),
            w(0x21, 0x01),
            w(0xA1, 0x01),
            w(0x21, 0xFC),
            w(0xA1, 0xFF),
        ]
    );
}

#[test]
fn unmask_clears_only_the_line_bit() {
    assert_eq!(irq_mask_port(0), 0x21);
    assert_eq!(irq_mask_port(7), 0x21);
    assert_eq!(irq_mask_port(8), 0xA1);
    assert_eq!(unmask_irq(0, 0xFF), w(0x21, 0xFE));
    assert_eq!(unmask_irq(1, 0xFC), w(0x21, 0xFC));
    assert_eq!(unmask_irq(1, 0xFE), w(0x21, 0xFC));
    assert_eq!(unmask_irq(9, 0xFF), w(0xA1, 0xFD));
    assert_eq!(unmask_irq(15, 0x80), w(0xA1, 0x00));
}

#[test]
fn eoi_goes_to_the_secondary_pic_first() {
    assert_eq!(send_eoi(0), vec![w(0x20, 0x20)]);
    assert_eq!(send_eoi(7), vec![w(0x20, 0x20)]);
    assert_eq!(send_eoi(8), vec![w(0xA0, 0x20), w(0x20, 0x20)]);
}

#[test]
fn pit_divisor_values() {
    assert_eq!(pit_divisor(100), 11931);
    assert_eq!(pit_divisor(1000), 1193);
    assert_eq!(pit_divisor(0), 0xFFFF);
    assert_eq!(pit_divisor(1), 0xFFFF);
    assert_eq!(pit_divisor(18), 0xFFFF);
    assert_eq!(pit_divisor(19), 62799);
    assert_eq!(pit_divisor(u32::MAX), 0);
}

#[test]
fn pit_is_loaded_low_byte_first() {
    assert_eq!(init_pit(100), vec![w(0x43, 0x36), w(0x40, 0x9B), w(0x40, 0x2E)]);
}

#[test]
fn timer_interrupt_counts_schedules_and_acknowledges() {
    let mut counter = TickCounter::new();
    let mut scheduler = Scheduler::new();
    scheduler.spawn();
    let mut schedule_ticks = 0u64;
    assert_eq!(ticks(&counter), 0);
    let eoi = timer_handler(&mut counter, &mut scheduler, &mut schedule_ticks);
    assert_eq!(eoi, vec![w(0x20, 0x20)]);
    assert_eq!(ticks(&counter), 1);
    assert_eq!(schedule_ticks, 1);
    assert_eq!(scheduler.current(), 0);
}

#[test]
fn ticks_count_timer_interrupts() {
    let mut counter = TickCounter::new();
    let mut scheduler = Scheduler::new();
    let mut schedule_ticks = 0u64;
    for n in 1..=50u64 {
        timer_handler(&mut counter, &mut scheduler, &mut schedule_ticks);
        assert_eq!(ticks(&counter), n);
        assert_eq!(schedule_ticks, n);
    }
}
