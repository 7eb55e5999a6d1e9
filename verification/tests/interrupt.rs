use aegis_microkernel::interrupt::{
    classify, is_spurious, timer_config_offset, timer_config_value, timer_enable_mask,
    timer_period, timer_priority_offset, timer_priority_value, Interrupt,
};

#[test]
fn timer_acknowledge_counts_a_tick() {
    assert_eq!(classify(27, 2), (Interrupt::Timer { ticks: 3 }, 3));
    // the CPU-ID bits above the interrupt ID are ignored
    assert_eq!(classify(0x1c00 | 27, 0), (Interrupt::Timer { ticks: 1 }, 1));
    assert_eq!(classify(30, 5), (Interrupt::Unknown { id: 30 }, 5));
    assert_eq!(classify(0x3ff, 5), (Interrupt::Unknown { id: 0x3ff }, 5));
}

#[test]
fn gic_register_values_for_the_timer() {
    assert_eq!(timer_priority_offset(), 0x418);
    assert_eq!(timer_config_offset(), 0xc04);
    assert_eq!(timer_priority_value(0xffff_ffff), 0x00ff_ffff);
    assert_eq!(timer_config_value(0xffff_ffff), 0xffbf_ffff);
    assert_eq!(timer_config_value(0), 0x0080_0000);
    assert_eq!(timer_enable_mask(), 1 << 27);
    assert!(is_spurious(0x3ff));
    assert!(is_spurious(0x43ff));
    assert!(!is_spurious(27));
}

#[test]
fn timer_period_is_at_least_one() {
    assert_eq!(timer_period(62_500_000, 10), 6_250_000);
    assert_eq!(timer_period(5, 10), 1);
    assert_eq!(timer_period(0, 1), 1);
}
