//! The decisions of the kernel's exception and interrupt handlers: from the syndrome or
//! the acknowledged interrupt (and the preemption phase) to what the handler does next.
//! The handlers themselves read the hardware and carry the decisions out.
use vstd::prelude::*;
use crate::interrupt::Interrupt;

verus! {

/// Exception class (`ESR_EL1.EC`) of an `SVC` executed in AArch64 state.
pub const EC_SVC64: u64 = 0x15;

/// Exception class of a data abort taken from a lower exception level.
pub const EC_DATA_ABORT_LOWER: u64 = 0x24;

/// `SVC` immediate of the sandbox's yield.
pub const SVC_YIELD: u64 = 0;

/// `SVC` immediate the sandbox raises after recovering from its denied UART access.
pub const SVC_RECOVERED: u64 = 2;

/// `SVC` immediate of the app's Call to the console server, its byte in `x0`.
pub const SVC_CALL: u64 = 10;

/// `SVC` immediate of the console server's Reply.
pub const SVC_REPLY: u64 = 11;

/// `SVC` immediate of the app's Call retried after revocation.
pub const SVC_RETRY: u64 = 12;

/// What the handler of a synchronous exception from EL0 does.
#[derive(Clone, Copy, Debug, PartialEq, Eq, Structural)]
pub enum LowerSyncAction {
    /// Report the yield round trip and check the callee-saved registers.
    Yield,
    /// Run the app's Call with the byte in `x0` and switch to the console server.
    AppCall,
    /// Run the console server's Reply, print the byte, revoke, and resume the app.
    ConsoleReply,
    /// Retry the app's Call after revocation; it must be denied.
    RetryCall,
    /// Report the sandbox's recovery and stop.
    Recovered,
    /// An `SVC` with no meaning here: return to the caller.
    IgnoredSvc,
    /// The stage-1 MMU denied an EL0 access: resume the sandbox at its recovery label.
    AccessDenied,
    /// Any other exception: report it and halt.
    Fatal,
}

/// The exception class of a syndrome value.
pub open spec fn exception_class(esr: u64) -> u64 {
    esr >> 26
}

/// The `SVC` immediate of a syndrome value.
pub open spec fn svc_immediate(esr: u64) -> u64 {
    esr & 0xffff
}

/// The action for a synchronous exception from EL0 with syndrome `esr`.
pub open spec fn lower_sync_spec(esr: u64) -> LowerSyncAction {
    if exception_class(esr) == EC_SVC64 {
        let immediate = svc_immediate(esr);
        if immediate == SVC_YIELD {
            LowerSyncAction::Yield
        } else if immediate == SVC_CALL {
            LowerSyncAction::AppCall
        } else if immediate == SVC_REPLY {
            LowerSyncAction::ConsoleReply
        } else if immediate == SVC_RETRY {
            LowerSyncAction::RetryCall
        } else if immediate == SVC_RECOVERED {
            LowerSyncAction::Recovered
        } else {
            LowerSyncAction::IgnoredSvc
        }
    } else if exception_class(esr) == EC_DATA_ABORT_LOWER {
        LowerSyncAction::AccessDenied
    } else {
        LowerSyncAction::Fatal
    }
}

/// Decode a synchronous exception from EL0 into the handler's action.
pub fn lower_sync_action(esr: u64) -> (r: LowerSyncAction)
    ensures
        r == lower_sync_spec(esr),
{
    let class = esr >> 26;
    if class == EC_SVC64 {
        let immediate = esr & 0xffff;
        if immediate == SVC_YIELD {
            LowerSyncAction::Yield
        } else if immediate == SVC_CALL {
            LowerSyncAction::AppCall
        } else if immediate == SVC_REPLY {
            LowerSyncAction::ConsoleReply
        } else if immediate == SVC_RETRY {
            LowerSyncAction::RetryCall
        } else if immediate == SVC_RECOVERED {
            LowerSyncAction::Recovered
        } else {
            LowerSyncAction::IgnoredSvc
        }
    } else if class == EC_DATA_ABORT_LOWER {
        LowerSyncAction::AccessDenied
    } else {
        LowerSyncAction::Fatal
    }
}

/// The sandbox loads `x19`, `x20` and `x21` with their own numbers before yielding; they
/// survived the exception round trip when they still hold them.
pub fn callee_saved_intact(x19: u64, x20: u64, x21: u64) -> (r: bool)
    ensures
        r == (x19 == 0x19 && x20 == 0x20 && x21 == 0x21),
{
    x19 == 0x19 && x20 == 0x20 && x21 == 0x21
}

/// What the EL1 interrupt handler does with an acknowledged interrupt.
#[derive(Clone, Copy, Debug, PartialEq, Eq, Structural)]
pub enum KernelIrqAction {
    /// The third timer tick arrived: stop the timer and report delivery.
    ReportDelivery,
    /// An earlier timer tick: nothing more to do.
    Continue,
    /// An interrupt nobody enabled: stop the timer and report its ID.
    Unexpected { id: u32 },
}

/// The timer tick at which the kernel's interrupt bring-up is proven.
pub const DELIVERY_TICKS: u64 = 3;

/// Decide the EL1 interrupt handler's action.
pub fn kernel_irq_action(interrupt: Interrupt) -> (r: KernelIrqAction)
    ensures
        r == match interrupt {
            Interrupt::Timer { ticks } => if ticks == DELIVERY_TICKS {
                KernelIrqAction::ReportDelivery
            } else {
                KernelIrqAction::Continue
            },
            Interrupt::Unknown { id } => KernelIrqAction::Unexpected { id },
        },
{
    match interrupt {
        Interrupt::Timer { ticks } => if ticks == DELIVERY_TICKS {
            KernelIrqAction::ReportDelivery
        } else {
            KernelIrqAction::Continue
        },
        Interrupt::Unknown { id } => KernelIrqAction::Unexpected { id },
    }
}

/// What the interrupt handler for EL0 does: the timer drives a two-step preemption demo.
#[derive(Clone, Copy, Debug, PartialEq, Eq, Structural)]
pub enum LowerIrqAction {
    /// Save the first task's frame and switch to the second task.
    SwitchToSecond,
    /// Restore the first task's frame, resume it, and stop the timer.
    RestoreFirst,
    /// The demo is over: stop the timer.
    StopTimer,
    /// An interrupt nobody enabled: stop the timer and report its ID.
    Unexpected { id: u32 },
}

/// The preemption phase before any timer tick from EL0.
pub const PHASE_FIRST_RUNNING: usize = 0;

/// The preemption phase while the second task runs.
pub const PHASE_SECOND_RUNNING: usize = 1;

/// The preemption phase once the first task is restored.
pub const PHASE_DONE: usize = 2;

/// The action and next phase for an interrupt taken from EL0 in preemption phase `phase`.
pub open spec fn lower_irq_spec(phase: usize, interrupt: Interrupt) -> (usize, LowerIrqAction) {
    match interrupt {
        Interrupt::Timer { .. } => if phase == PHASE_FIRST_RUNNING {
            (PHASE_SECOND_RUNNING, LowerIrqAction::SwitchToSecond)
        } else if phase == PHASE_SECOND_RUNNING {
            (PHASE_DONE, LowerIrqAction::RestoreFirst)
        } else {
            (phase, LowerIrqAction::StopTimer)
        },
        Interrupt::Unknown { id } => (phase, LowerIrqAction::Unexpected { id }),
    }
}

/// Decide the EL0 interrupt handler's action and the next preemption phase.
pub fn lower_irq_step(phase: usize, interrupt: Interrupt) -> (r: (usize, LowerIrqAction))
    ensures
        r == lower_irq_spec(phase, interrupt),
{
    match interrupt {
        Interrupt::Timer { .. } => if phase == PHASE_FIRST_RUNNING {
            (PHASE_SECOND_RUNNING, LowerIrqAction::SwitchToSecond)
        } else if phase == PHASE_SECOND_RUNNING {
            (PHASE_DONE, LowerIrqAction::RestoreFirst)
        } else {
            (phase, LowerIrqAction::StopTimer)
        },
        Interrupt::Unknown { id } => (phase, LowerIrqAction::Unexpected { id }),
    }
}

/// The preemption demo switches away from the first task exactly once and restores it
/// exactly once: from the first phase, two timer ticks switch to the second task and
/// back, and every later tick only stops the timer; the phase never moves backwards.
pub proof fn lemma_preemption_round_trip(phase: usize, i: Interrupt, j: Interrupt, k: Interrupt)
    requires
        i is Timer,
        j is Timer,
        k is Timer,
    ensures
        lower_irq_spec(phase, i).0 >= phase,
        phase == PHASE_FIRST_RUNNING ==> ({
            let (p1, a1) = lower_irq_spec(phase, i);
            let (p2, a2) = lower_irq_spec(p1, j);
            let (p3, a3) = lower_irq_spec(p2, k);
            &&& a1 == LowerIrqAction::SwitchToSecond
            &&& a2 == LowerIrqAction::RestoreFirst
            &&& a3 == LowerIrqAction::StopTimer
            &&& p3 == PHASE_DONE
        }),
{
}

} // verus!
