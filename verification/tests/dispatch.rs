use aegis_microkernel::dispatch::{
    callee_saved_intact, kernel_irq_action, lower_irq_step, lower_sync_action, KernelIrqAction,
    LowerIrqAction, LowerSyncAction, PHASE_DONE, PHASE_FIRST_RUNNING, PHASE_SECOND_RUNNING,
};
use aegis_microkernel::interrupt::Interrupt;

fn svc(immediate: u64) -> u64 {
    (0x15 << 26) | immediate
}

#[test]
fn svc_immediates_select_the_demo_steps() {
    assert_eq!(lower_sync_action(svc(0)), LowerSyncAction::Yield);
    assert_eq!(lower_sync_action(svc(10)), LowerSyncAction::AppCall);
    assert_eq!(lower_sync_action(svc(11)), LowerSyncAction::ConsoleReply);
    assert_eq!(lower_sync_action(svc(12)), LowerSyncAction::RetryCall);
    assert_eq!(lower_sync_action(svc(2)), LowerSyncAction::Recovered);
    assert_eq!(lower_sync_action(svc(1)), LowerSyncAction::IgnoredSvc);
    assert_eq!(lower_sync_action(svc(0xffff)), LowerSyncAction::IgnoredSvc);
}

#[test]
fn only_the_svc_immediate_bits_are_read() {
    // Bits between the immediate and the exception class do not change the decision.
    assert_eq!(lower_sync_action(svc(10) | (1 << 25)), LowerSyncAction::AppCall);
    assert_eq!(lower_sync_action(svc(0x1_000a)), LowerSyncAction::AppCall);
}

#[test]
fn lower_data_aborts_are_denials_and_other_classes_are_fatal() {
    assert_eq!(lower_sync_action(0x24 << 26), LowerSyncAction::AccessDenied);
    assert_eq!(lower_sync_action((0x24 << 26) | 0x47), LowerSyncAction::AccessDenied);
    assert_eq!(lower_sync_action(0), LowerSyncAction::Fatal);
    assert_eq!(lower_sync_action(0x25 << 26), LowerSyncAction::Fatal);
    assert_eq!(lower_sync_action(u64::MAX), LowerSyncAction::Fatal);
}

#[test]
fn callee_saved_registers_must_hold_their_numbers() {
    assert!(callee_saved_intact(0x19, 0x20, 0x21));
    assert!(!callee_saved_intact(0x19, 0x20, 0x22));
    assert!(!callee_saved_intact(0, 0x20, 0x21));
}

#[test]
fn third_timer_tick_reports_delivery() {
    assert_eq!(kernel_irq_action(Interrupt::Timer { ticks: 1 }), KernelIrqAction::Continue);
    assert_eq!(kernel_irq_action(Interrupt::Timer { ticks: 2 }), KernelIrqAction::Continue);
    assert_eq!(kernel_irq_action(Interrupt::Timer { ticks: 3 }), KernelIrqAction::ReportDelivery);
    assert_eq!(kernel_irq_action(Interrupt::Timer { ticks: 4 }), KernelIrqAction::Continue);
    assert_eq!(
        kernel_irq_action(Interrupt::Unknown { id: 30 }),
        KernelIrqAction::Unexpected { id: 30 }
    );
}

#[test]
fn preemption_switches_away_once_and_back_once() {
    let tick = Interrupt::Timer { ticks: 7 };
    let (phase, action) = lower_irq_step(PHASE_FIRST_RUNNING, tick);
    assert_eq!((phase, action), (PHASE_SECOND_RUNNING, LowerIrqAction::SwitchToSecond));
    let (phase, action) = lower_irq_step(phase, tick);
    assert_eq!((phase, action), (PHASE_DONE, LowerIrqAction::RestoreFirst));
    let (phase, action) = lower_irq_step(phase, tick);
    assert_eq!((phase, action), (PHASE_DONE, LowerIrqAction::StopTimer));
    assert_eq!(
        lower_irq_step(PHASE_FIRST_RUNNING, Interrupt::Unknown { id: 1023 }),
        (PHASE_FIRST_RUNNING, LowerIrqAction::Unexpected { id: 1023 })
    );
}
