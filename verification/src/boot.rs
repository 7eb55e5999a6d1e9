//! The boot-time self-tests of the mechanism cores, whose verdicts the kernel prints in
//! its boot transcript.
use vstd::prelude::*;
use crate::memory::{
    FrameAllocator, PAGE_SIZE, lemma_allocate_is_first_fit, lemma_allocate_takes_lowest_free,
};
use crate::paging::{PagePermissions, page_descriptor};
use crate::capability::{
    CapabilitySystem, CapRef, Object, Rights, lemma_boot_authority,
};
use crate::ipc::{
    IpcOutcome, Message, RendezvousIpc, lemma_message_fields_determine,
    lemma_send_then_receive,
};
use crate::scheduler::{
    Scheduler, UserContext, lemma_schedule_takes_next_runnable, lemma_spawn_takes_first_unused,
};
use crate::syscall::authorize_endpoint;

verus! {

/// The verdict of each boot self-test.
#[derive(Clone, Copy, Debug, PartialEq, Eq, Structural)]
pub struct BootReport {
    /// A reserved range is skipped by the next allocation.
    pub frame_allocator_ok: bool,
    /// A user-data page gets a descriptor.
    pub descriptor_ok: bool,
    /// The console server holds a UART-write capability.
    pub console_has_uart: bool,
    /// The sandboxed app holds a UART-write capability.
    pub sandbox_has_uart: bool,
    /// A blocked sender's message reaches the receiver that arrives later.
    pub rendezvous_ok: bool,
    /// The app's endpoint slot authorizes an endpoint operation, its empty slot nothing.
    pub syscall_authorized: bool,
    /// Two spawned tasks are scheduled in turn.
    pub schedule_ok: bool,
}

/// Reserve the first two frames of an eight-frame region; the next allocation then takes
/// the third frame.
fn frame_allocator_check() -> (ok: bool)
    ensures
        ok,
{
    match FrameAllocator::<1>::new(0x4100_0000, 8 * PAGE_SIZE) {
        Err(_) => false,
        Ok(mut frames) => {
            let reserved = frames.reserve(0x4100_0000, 2);
            proof {
                let s = frames@;
                assert(s.used =~= seq![true, true, false, false, false, false, false, false]);
                assert(s.next_hint == 0 && s.frame_count == 8);
                assert(s.circular(0) == 0 && s.circular(1) == 1 && s.circular(2) == 2);
                assert forall|o: int| 0 <= o < 2 implies #[trigger] s.used[s.circular(o)] by {
                    if o == 0 {
                    } else {
                    }
                }
                assert(s.is_next_free(2));
                assert(s.lowest_free() == 2) by {
                    lemma_allocate_takes_lowest_free(s);
                    let l = s.lowest_free();
                    if l < 2 {
                        assert(s.used[l]);
                    }
                    if l > 2 {
                        assert(s.used[2]);
                    }
                }
                assert(s.chosen_frame_fits());
                lemma_allocate_is_first_fit(s, 2);
            }
            match frames.allocate() {
                Err(_) => false,
                Ok(frame) => reserved.is_ok() && frame.physical_address == 0x4100_2000,
            }
        },
    }
}

/// A page-aligned user-data page is writable but not executable, so it gets a descriptor.
fn descriptor_check() -> (ok: bool)
    ensures
        ok,
{
    page_descriptor(0x4100_2000, PagePermissions::user_data()).is_ok()
}

/// Grant the console demo's authority on a fresh system, then ask which tasks hold a
/// UART-write capability and whether the app's slots authorize endpoint operations: the
/// answers are (console has the UART, app has it, endpoint authorization behaves).
fn capability_checks(uart_base: u64) -> (r: (bool, bool, bool))
    ensures
        r == (true, false, true),
{
    let mut caps = CapabilitySystem::<4, 8, 16>::new();
    let uart = Object::Mmio { base: uart_base, pages: 1 };
    let endpoint = Object::Endpoint(0);
    proof {
        let c = caps@;
        assert(c.is_empty_system()) by {
            assert forall|t: int, j: int|
                0 <= t < c.spaces.len() && 0 <= j < c.spaces[t].len() implies (
                #[trigger] c.spaces[t][j]) is None by {
                assert(c.spaces[t] == Seq::new(8, |i: int| None::<CapRef>));
            }
        }
        assert forall|t: int| 0 <= t < c.spaces.len() implies (#[trigger] c.spaces[t]).len()
            >= 2 by {
            assert(c.spaces[t] == Seq::new(8, |i: int| None::<CapRef>));
        }
        lemma_boot_authority(c, uart, endpoint);
    }
    let granted = caps.create_root(0, 0, uart, Rights::all()).is_ok();
    let granted = caps.mint(0, 0, 1, 0, Rights::write()).is_ok() && granted;
    let granted = caps.create_root(0, 1, endpoint, Rights::all()).is_ok() && granted;
    let granted = caps.mint(0, 1, 2, 1, Rights::write()).is_ok() && granted;
    let console_has_uart = granted && caps.resolve(1, 0, Rights::write()).is_ok();
    let sandbox_has_uart = caps.resolve(2, 0, Rights::write()).is_ok();
    let endpoint_granted = match authorize_endpoint(&caps, 2, 1, Rights::write()) {
        Ok(e) => e == 0,
        Err(_) => false,
    };
    let syscall_authorized = endpoint_granted && authorize_endpoint(&caps, 2, 0, Rights::write()).is_err();
    (console_has_uart, sandbox_has_uart, syscall_authorized)
}

/// Two messages are equal exactly when their fields and registers agree.
fn same_message(a: &Message, b: &Message) -> (r: bool)
    ensures
        r == (*a == *b),
{
    let slots_agree = match (a.capability_slot, b.capability_slot) {
        (None, None) => true,
        (Some(x), Some(y)) => x == y,
        _ => false,
    };
    let r = a.label == b.label && a.length == b.length && a.registers[0] == b.registers[0]
        && a.registers[1] == b.registers[1] && a.registers[2] == b.registers[2]
        && a.registers[3] == b.registers[3] && slots_agree;
    proof {
        if r {
            assert(a.registers@ =~= b.registers@);
            lemma_message_fields_determine(*a, *b);
        }
    }
    r
}

/// The app sends to an endpoint no one waits on and blocks; the console then receives on
/// it, meets the app, and takes exactly the app's message.
fn rendezvous_check() -> (ok: bool)
    ensures
        ok,
{
    let mut ipc = RendezvousIpc::<4, 2>::new();
    let message = Message { label: 1, length: 1, registers: [0xae61, 0, 0, 0], capability_slot: None };
    proof {
        lemma_send_then_receive(ipc@, 2, 1, 0, message);
    }
    let sender_blocked = match ipc.send(2, 0, message) {
        Ok(IpcOutcome::Blocked) => true,
        _ => false,
    };
    let rendezvous = match ipc.receive(1, 0) {
        Ok(IpcOutcome::Delivered { peer }) => peer == 2,
        _ => false,
    };
    let delivered = match ipc.take_message(1) {
        Some(m) => same_message(&m, &message),
        None => false,
    };
    sender_blocked && rendezvous && delivered
}

/// Two tasks spawned into an empty scheduler run in turn: first, second, first.
fn schedule_check() -> (ok: bool)
    ensures
        ok,
{
    let mut scheduler = Scheduler::<4>::new();
    let context = UserContext::empty();
    proof {
        let s0 = scheduler@;
        assert(s0.is_first_unused(0));
        lemma_spawn_takes_first_unused(s0, context, 0);
        let s1 = s0.spawn(context).0;
        assert(s1.is_first_unused(1));
        lemma_spawn_takes_first_unused(s1, context, 1);
        let s2 = s1.spawn(context).0;
        assert(s2.current is None && s2.tasks.len() == 4);
        assert(s2.start() == 0);
        assert(s2.candidate(0) == 0);
        assert(s2.is_next_runnable(0));
        lemma_schedule_takes_next_runnable(s2, 0);
        let s3 = s2.schedule().0;
        assert(s3.current == Some(0usize) && s3.tasks.len() == 4);
        assert(s3.start() == 1);
        assert(s3.candidate(0) == 1);
        assert(s3.is_next_runnable(0));
        lemma_schedule_takes_next_runnable(s3, 0);
        let s4 = s3.schedule().0;
        assert(s4.current == Some(1usize) && s4.tasks.len() == 4);
        assert(s4.start() == 2);
        assert(s4.candidate(0) == 2);
        assert(s4.candidate(1) == 3);
        assert(s4.candidate(2) == 0);
        assert(s4.is_next_runnable(2));
        lemma_schedule_takes_next_runnable(s4, 2);
    }
    let first = scheduler.spawn(context);
    let second = scheduler.spawn(context);
    match (first, second) {
        (Ok(first), Ok(second)) => {
            let a = match scheduler.schedule() {
                Some(switch) => switch.next == first,
                None => false,
            };
            let b = match scheduler.schedule() {
                Some(switch) => switch.next == second,
                None => false,
            };
            let c = match scheduler.schedule() {
                Some(switch) => switch.next == first,
                None => false,
            };
            a && b && c
        },
        _ => false,
    }
}

/// Run every boot self-test on a kernel whose UART sits at `uart_base`. Each mechanism
/// behaves as designed, so every test passes and the app is denied the UART.
pub fn boot_self_test(uart_base: u64) -> (r: BootReport)
    ensures
        r == (BootReport {
            frame_allocator_ok: true,
            descriptor_ok: true,
            console_has_uart: true,
            sandbox_has_uart: false,
            rendezvous_ok: true,
            syscall_authorized: true,
            schedule_ok: true,
        }),
{
    let (console_has_uart, sandbox_has_uart, syscall_authorized) = capability_checks(uart_base);
    BootReport {
        frame_allocator_ok: frame_allocator_check(),
        descriptor_ok: descriptor_check(),
        console_has_uart,
        sandbox_has_uart,
        rendezvous_ok: rendezvous_check(),
        syscall_authorized,
        schedule_ok: schedule_check(),
    }
}

} // verus!
