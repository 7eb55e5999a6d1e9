//! Live single-core kernel state tying CSpaces to the EL0 demo contexts.
use vstd::prelude::*;
use crate::capability::{
    CapError,
    CapState,
    CapabilitySystem,
    Object,
    ResolvedCapability,
    Rights,
    lemma_boot_authority,
};
use crate::ipc::{
    IpcError,
    IpcOutcome,
    IpcState,
    Message,
    RendezvousIpc,
    ThreadState,
    empty_message,
    lemma_call_receive_reply,
    lemma_message_fields_determine,
};
use crate::syscall::{
    SyscallError,
    authorize_endpoint,
    authorize_mmio,
    authorized,
    endpoint_of,
    mmio_of,
};

verus! {

pub const ROOT_TASK: usize = 0;

pub const CONSOLE_TASK: usize = 1;

pub const APP_TASK: usize = 2;

pub const UART_SLOT: usize = 0;

pub const ENDPOINT_SLOT: usize = 1;

/// The physical base of the PL011 UART.
pub const UART_BASE: u64 = 0x0900_0000;

#[derive(Clone, Copy, Debug, PartialEq, Eq, Structural)]
pub enum RuntimeError {
    Capability(CapError),
    Syscall(SyscallError),
    WrongTask,
    Ipc(IpcError),
}

impl From<CapError> for RuntimeError {
    fn from(value: CapError) -> (r: RuntimeError) {
        RuntimeError::Capability(value)
    }
}

impl vstd::std_specs::convert::FromSpecImpl<CapError> for RuntimeError {
    open spec fn obeys_from_spec() -> bool {
        true
    }

    open spec fn from_spec(value: CapError) -> RuntimeError {
        RuntimeError::Capability(value)
    }
}

impl From<SyscallError> for RuntimeError {
    fn from(value: SyscallError) -> (r: RuntimeError) {
        RuntimeError::Syscall(value)
    }
}

impl vstd::std_specs::convert::FromSpecImpl<SyscallError> for RuntimeError {
    open spec fn obeys_from_spec() -> bool {
        true
    }

    open spec fn from_spec(value: SyscallError) -> RuntimeError {
        RuntimeError::Syscall(value)
    }
}

impl From<IpcError> for RuntimeError {
    fn from(value: IpcError) -> (r: RuntimeError) {
        RuntimeError::Ipc(value)
    }
}

impl vstd::std_specs::convert::FromSpecImpl<IpcError> for RuntimeError {
    open spec fn obeys_from_spec() -> bool {
        true
    }

    open spec fn from_spec(value: IpcError) -> RuntimeError {
        RuntimeError::Ipc(value)
    }
}

/// The request an app Call carries: label 1, one byte in the first message register.
pub open spec fn is_call_request(m: Message, byte: u8) -> bool {
    &&& m.label == 1
    &&& m.length == 1
    &&& m.registers@ == seq![byte as u64, 0u64, 0u64, 0u64]
    &&& m.capability_slot is None
}

pub open spec fn call_request(byte: u8) -> Message {
    choose|m: Message| is_call_request(m, byte)
}

/// The mathematical state of the runtime.
pub struct RuntimeState {
    pub capabilities: CapState,
    pub current_task: usize,
    pub pending_byte: u8,
    pub ipc: IpcState,
}

impl RuntimeState {
    /// The state of a runtime just created: no capabilities, every node free with
    /// generation 0, every thread runnable with nothing pending, the app's turn.
    pub open spec fn is_fresh(self) -> bool {
        &&& self.current_task == APP_TASK
        &&& self.pending_byte == 0
        &&& self.capabilities.spaces.len() == 4
        &&& forall|t: int|
            0 <= t < 4 ==> (#[trigger] self.capabilities.spaces[t]) == Seq::new(
                8,
                |i: int| None::<crate::capability::CapRef>,
            )
        &&& self.capabilities.nodes.len() == 16
        &&& forall|i: int|
            0 <= i < 16 ==> !(#[trigger] self.capabilities.nodes[i]).live
                && self.capabilities.nodes[i].generation == 0
                && self.capabilities.nodes[i].parent is None
                && self.capabilities.nodes[i].object == Object::Endpoint(0)
                && self.capabilities.nodes[i].rights == Rights::from_bits(0)
        &&& self.ipc.threads.len() == 4
        &&& self.ipc.senders.len() == 2
        &&& self.ipc.receivers.len() == 2
        &&& forall|t: int|
            0 <= t < 4 ==> (#[trigger] self.ipc.threads[t]).state == ThreadState::Runnable
                && self.ipc.threads[t].inbox is None && self.ipc.threads[t].reply_target is None
                && !self.ipc.threads[t].is_call && self.ipc.threads[t].outgoing == empty_message()
        &&& forall|e: int|
            0 <= e < 2 ==> (#[trigger] self.ipc.senders[e]).len() == 0 && self.ipc.receivers[e].len()
                == 0
    }

    pub open spec fn with_capabilities(self, capabilities: CapState) -> RuntimeState {
        RuntimeState { capabilities, ..self }
    }

    pub open spec fn with_ipc(self, ipc: IpcState) -> RuntimeState {
        RuntimeState { ipc, ..self }
    }

    /// Boot-time authority: root holds the UART and an endpoint with every right, the
    /// console holds a UART-write child, the app an endpoint-write child.
    pub open spec fn bootstrap(self) -> (RuntimeState, Result<(), RuntimeError>) {
        let c0 = self.capabilities;
        let (c1, r1) = c0.create_root(
            ROOT_TASK as int,
            UART_SLOT as int,
            Object::Mmio { base: UART_BASE, pages: 1 },
            Rights::from_bits(0x0f),
        );
        match r1 {
            Err(e) => (self.with_capabilities(c1), Err(RuntimeError::Capability(e))),
            Ok(_) => {
                let (c2, r2) = c1.mint(
                    ROOT_TASK as int,
                    UART_SLOT as int,
                    CONSOLE_TASK as int,
                    UART_SLOT as int,
                    Rights::from_bits(2),
                );
                match r2 {
                    Err(e) => (self.with_capabilities(c2), Err(RuntimeError::Capability(e))),
                    Ok(_) => {
                        let (c3, r3) = c2.create_root(
                            ROOT_TASK as int,
                            ENDPOINT_SLOT as int,
                            Object::Endpoint(0),
                            Rights::from_bits(0x0f),
                        );
                        match r3 {
                            Err(e) => (
                                self.with_capabilities(c3),
                                Err(RuntimeError::Capability(e)),
                            ),
                            Ok(_) => {
                                let (c4, r4) = c3.mint(
                                    ROOT_TASK as int,
                                    ENDPOINT_SLOT as int,
                                    APP_TASK as int,
                                    ENDPOINT_SLOT as int,
                                    Rights::from_bits(2),
                                );
                                match r4 {
                                    Err(e) => (
                                        self.with_capabilities(c4),
                                        Err(RuntimeError::Capability(e)),
                                    ),
                                    Ok(_) => (self.with_capabilities(c4), Ok(())),
                                }
                            },
                        }
                    },
                }
            },
        }
    }

    /// The app's Call: authorized by its endpoint-write capability, the request rendezvous
    /// with the console, which receives it; the byte waits for the console and the console
    /// becomes the current task.
    pub open spec fn app_call(self, byte: u8) -> (RuntimeState, Result<(), RuntimeError>) {
        if self.current_task != APP_TASK {
            (self, Err(RuntimeError::WrongTask))
        } else {
            match authorized(
                self.capabilities.resolve(
                    APP_TASK as int,
                    ENDPOINT_SLOT as int,
                    Rights::from_bits(2),
                ),
                |o: Object| endpoint_of(o),
            ) {
                Err(e) => (self, Err(RuntimeError::Syscall(e))),
                Ok(_) => {
                    let (i1, o1) = self.ipc.call(APP_TASK, 0, call_request(byte));
                    match o1 {
                        Err(e) => (self.with_ipc(i1), Err(RuntimeError::Ipc(e))),
                        Ok(o) => if o != IpcOutcome::Blocked {
                            (self.with_ipc(i1), Err(RuntimeError::WrongTask))
                        } else {
                            let (i2, o2) = i1.receive(CONSOLE_TASK, 0);
                            match o2 {
                                Err(e) => (self.with_ipc(i2), Err(RuntimeError::Ipc(e))),
                                Ok(o) => if o != (IpcOutcome::Delivered { peer: APP_TASK }) {
                                    (self.with_ipc(i2), Err(RuntimeError::WrongTask))
                                } else {
                                    let (i3, m) = i2.take_message(CONSOLE_TASK);
                                    match m {
                                        None => (self.with_ipc(i3), Err(RuntimeError::WrongTask)),
                                        Some(message) => (
                                            RuntimeState {
                                                ipc: i3,
                                                pending_byte: message.registers@[0] as u8,
                                                current_task: CONSOLE_TASK,
                                                ..self
                                            },
                                            Ok(()),
                                        ),
                                    }
                                },
                            }
                        },
                    }
                },
            }
        }
    }

    /// The console's turn: authorized by its UART-write capability, it replies to resume
    /// the app, which becomes the current task, and root then revokes its endpoint, with
    /// every capability derived from it. The result is the pending byte and how many
    /// nodes were revoked.
    pub open spec fn console_reply_and_revoke(self) -> (RuntimeState, Result<
        (u8, usize),
        RuntimeError,
    >) {
        if self.current_task != CONSOLE_TASK {
            (self, Err(RuntimeError::WrongTask))
        } else {
            match authorized(
                self.capabilities.resolve(
                    CONSOLE_TASK as int,
                    UART_SLOT as int,
                    Rights::from_bits(2),
                ),
                |o: Object| mmio_of(o),
            ) {
                Err(e) => (self, Err(RuntimeError::Syscall(e))),
                Ok(_) => {
                    let (i1, o1) = self.ipc.reply(CONSOLE_TASK, empty_message());
                    match o1 {
                        Err(e) => (self.with_ipc(i1), Err(RuntimeError::Ipc(e))),
                        Ok(_) => {
                            let s1 = RuntimeState { ipc: i1, current_task: APP_TASK, ..self };
                            let (c1, r) = self.capabilities.revoke(
                                ROOT_TASK as int,
                                ENDPOINT_SLOT as int,
                            );
                            match r {
                                Err(e) => (
                                    s1.with_capabilities(c1),
                                    Err(RuntimeError::Capability(e)),
                                ),
                                Ok(n) => (s1.with_capabilities(c1), Ok((self.pending_byte, n))),
                            }
                        },
                    }
                },
            }
        }
    }
}

/// The kernel's live state: the CSpaces of the root, console and app tasks, the task
/// whose turn it is, the byte the app handed to the console, and the IPC state.
pub struct Runtime {
    capabilities: CapabilitySystem<4, 8, 16>,
    current_task: usize,
    pending_byte: u8,
    ipc: RendezvousIpc<4, 2>,
}

impl View for Runtime {
    type V = RuntimeState;

    closed spec fn view(&self) -> RuntimeState {
        RuntimeState {
            capabilities: self.capabilities@,
            current_task: self.current_task,
            pending_byte: self.pending_byte,
            ipc: self.ipc@,
        }
    }
}

impl Runtime {
    /// The capability system and the IPC state are well formed.
    pub closed spec fn wf(&self) -> bool {
        &&& self.capabilities.wf()
        &&& self.ipc.wf()
    }

    /// The model holds four CSpaces of eight slots, sixteen nodes, four threads and two
    /// endpoints, and the internal invariant makes the capability model well formed and
    /// the IPC model well formed and consistent.
    pub proof fn lemma_view(&self)
        ensures
            self@.capabilities.spaces.len() == 4,
            forall|t: int| 0 <= t < 4 ==> (#[trigger] self@.capabilities.spaces[t]).len() == 8,
            self@.capabilities.nodes.len() == 16,
            self@.ipc.threads.len() == 4,
            self@.ipc.senders.len() == 2,
            self@.ipc.receivers.len() == 2,
            self.wf() ==> self@.capabilities.well_formed() && self@.ipc.well_formed()
                && self@.ipc.consistent(),
    {
        self.capabilities.lemma_view();
        self.ipc.lemma_view();
    }

    /// No capabilities, every thread runnable, the app's turn.
    pub fn empty() -> (r: Runtime)
        ensures
            r.wf(),
            r@.is_fresh(),
    {
        Runtime {
            capabilities: CapabilitySystem::new(),
            current_task: APP_TASK,
            pending_byte: 0,
            ipc: RendezvousIpc::new(),
        }
    }

    /// The IPC state, for inspection.
    pub fn ipc(&self) -> (r: &RendezvousIpc<4, 2>)
        requires
            self.wf(),
        ensures
            r@ == self@.ipc,
            r.wf(),
    {
        &self.ipc
    }

    pub fn bootstrap(&mut self) -> (r: Result<(), RuntimeError>)
        requires
            old(self).wf(),
        ensures
            final(self).wf(),
            final(self)@ == old(self)@.bootstrap().0,
            r == old(self)@.bootstrap().1,
    {
        match self.capabilities.create_root(
            ROOT_TASK,
            UART_SLOT,
            Object::Mmio { base: UART_BASE, pages: 1 },
            Rights::all(),
        ) {
            Err(e) => return Err(RuntimeError::Capability(e)),
            Ok(_) => {},
        }
        match self.capabilities.mint(ROOT_TASK, UART_SLOT, CONSOLE_TASK, UART_SLOT, Rights::write()) {
            Err(e) => return Err(RuntimeError::Capability(e)),
            Ok(_) => {},
        }
        match self.capabilities.create_root(
            ROOT_TASK,
            ENDPOINT_SLOT,
            Object::Endpoint(0),
            Rights::all(),
        ) {
            Err(e) => return Err(RuntimeError::Capability(e)),
            Ok(_) => {},
        }
        match self.capabilities.mint(
            ROOT_TASK,
            ENDPOINT_SLOT,
            APP_TASK,
            ENDPOINT_SLOT,
            Rights::write(),
        ) {
            Err(e) => return Err(RuntimeError::Capability(e)),
            Ok(_) => {},
        }
        Ok(())
    }

    pub fn app_call(&mut self, byte: u8) -> (r: Result<(), RuntimeError>)
        requires
            old(self).wf(),
        ensures
            final(self).wf(),
            final(self)@ == old(self)@.app_call(byte).0,
            r == old(self)@.app_call(byte).1,
    {
        if self.current_task != APP_TASK {
            return Err(RuntimeError::WrongTask);
        }
        match authorize_endpoint(&self.capabilities, APP_TASK, ENDPOINT_SLOT, Rights::write()) {
            Err(e) => return Err(RuntimeError::Syscall(e)),
            Ok(_) => {},
        }
        let request = Message {
            label: 1,
            length: 1,
            registers: [byte as u64, 0, 0, 0],
            capability_slot: None,
        };
        proof {
            assert(request.registers@ =~= seq![byte as u64, 0u64, 0u64, 0u64]);
            assert(is_call_request(request, byte));
            let c = call_request(byte);
            assert(is_call_request(c, byte));
            lemma_message_fields_determine(request, c);
        }
        match self.ipc.call(APP_TASK, 0, request) {
            Err(e) => return Err(RuntimeError::Ipc(e)),
            Ok(outcome) => {
                if outcome != IpcOutcome::Blocked {
                    return Err(RuntimeError::WrongTask);
                }
            },
        }
        match self.ipc.receive(CONSOLE_TASK, 0) {
            Err(e) => return Err(RuntimeError::Ipc(e)),
            Ok(outcome) => {
                if outcome != (IpcOutcome::Delivered { peer: APP_TASK }) {
                    return Err(RuntimeError::WrongTask);
                }
            },
        }
        let message = match self.ipc.take_message(CONSOLE_TASK) {
            None => return Err(RuntimeError::WrongTask),
            Some(m) => m,
        };
        self.pending_byte = message.registers[0] as u8;
        self.current_task = CONSOLE_TASK;
        Ok(())
    }

    pub fn console_reply_and_revoke(&mut self) -> (r: Result<(u8, usize), RuntimeError>)
        requires
            old(self).wf(),
        ensures
            final(self).wf(),
            final(self)@ == old(self)@.console_reply_and_revoke().0,
            r == old(self)@.console_reply_and_revoke().1,
    {
        if self.current_task != CONSOLE_TASK {
            return Err(RuntimeError::WrongTask);
        }
        match authorize_mmio(&self.capabilities, CONSOLE_TASK, UART_SLOT, Rights::write()) {
            Err(e) => return Err(RuntimeError::Syscall(e)),
            Ok(_) => {},
        }
        let byte = self.pending_byte;
        match self.ipc.reply(CONSOLE_TASK, Message::default()) {
            Err(e) => return Err(RuntimeError::Ipc(e)),
            Ok(_) => {},
        }
        self.current_task = APP_TASK;
        let revoked = match self.capabilities.revoke(ROOT_TASK, ENDPOINT_SLOT) {
            Err(e) => return Err(RuntimeError::Capability(e)),
            Ok(n) => n,
        };
        Ok((byte, revoked))
    }
}

/// Start the kernel's live state afresh and install the boot-time capabilities, which
/// always succeeds on a fresh state.
pub fn initialize(runtime: &mut Runtime) -> (r: Result<(), RuntimeError>)
    ensures
        final(runtime).wf(),
        exists|fresh: RuntimeState|
            fresh.is_fresh() && final(runtime)@ == fresh.bootstrap().0 && r == fresh.bootstrap().1,
        r == Ok::<(), RuntimeError>(()),
{
    *runtime = Runtime::empty();
    proof {
        lemma_console_demo(runtime@, 0, 0);
    }
    runtime.bootstrap()
}

/// The app's Call on the live state.
pub fn app_call(runtime: &mut Runtime, byte: u8) -> (r: Result<(), RuntimeError>)
    requires
        old(runtime).wf(),
    ensures
        final(runtime).wf(),
        final(runtime)@ == old(runtime)@.app_call(byte).0,
        r == old(runtime)@.app_call(byte).1,
{
    runtime.app_call(byte)
}

/// The console's reply and root's revocation on the live state.
pub fn console_reply_and_revoke(runtime: &mut Runtime) -> (r: Result<(u8, usize), RuntimeError>)
    requires
        old(runtime).wf(),
    ensures
        final(runtime).wf(),
        final(runtime)@ == old(runtime)@.console_reply_and_revoke().0,
        r == old(runtime)@.console_reply_and_revoke().1,
{
    runtime.console_reply_and_revoke()
}

/// Every byte has its call request.
proof fn lemma_call_request_exists(byte: u8)
    ensures
        is_call_request(call_request(byte), byte),
{
    let m = Message { label: 1, length: 1, registers: [byte as u64, 0, 0, 0], capability_slot: None };
    assert(m.registers@ =~= seq![byte as u64, 0u64, 0u64, 0u64]);
    assert(is_call_request(m, byte));
}

/// A successful app Call hands exactly the app's byte to the console: the byte waits for
/// the console, whose turn it now is, while the app waits for the console's reply.
pub proof fn lemma_app_call_hands_byte_to_console(s: RuntimeState, byte: u8)
    requires
        s.ipc.well_formed(),
        s.app_call(byte).1 is Ok,
    ensures
        s.app_call(byte).0.pending_byte == byte,
        s.app_call(byte).0.current_task == CONSOLE_TASK,
        s.app_call(byte).0.ipc.threads[APP_TASK as int].state == (ThreadState::ReplyBlocked {
            server: CONSOLE_TASK,
        }),
        s.app_call(byte).0.ipc.threads[CONSOLE_TASK as int].reply_target == Some(APP_TASK),
        s.app_call(byte).0.capabilities == s.capabilities,
{
    lemma_call_request_exists(byte);
    let request = call_request(byte);
    let (i1, o1) = s.ipc.call(APP_TASK, 0, request);
    assert(i1.threads[APP_TASK as int].outgoing == request);
    assert(i1.threads[APP_TASK as int].is_call);
    let (i2, o2) = i1.receive(CONSOLE_TASK, 0);
    assert(i2.threads[CONSOLE_TASK as int].inbox == Some(request));
    assert(request.registers@[0] == byte as u64);
    assert((byte as u64) as u8 == byte) by (bit_vector);
}

/// The console demo from a fresh runtime: boot grants succeed; the app's Call hands its
/// byte to the console and leaves the app waiting; the console's turn writes that byte,
/// resumes the app with the empty reply and revokes root's endpoint, freeing exactly two
/// nodes; the app's retry is then denied because its endpoint slot is empty.
pub proof fn lemma_console_demo(s: RuntimeState, first: u8, retry: u8)
    requires
        s.is_fresh(),
    ensures
        ({
            let (s1, r1) = s.bootstrap();
            let (s2, r2) = s1.app_call(first);
            let (s3, r3) = s2.console_reply_and_revoke();
            let (s4, r4) = s3.app_call(retry);
            &&& r1 == Ok::<(), RuntimeError>(())
            &&& r2 == Ok::<(), RuntimeError>(())
            &&& s2.ipc.threads[APP_TASK as int].state == (ThreadState::ReplyBlocked {
                server: CONSOLE_TASK,
            })
            &&& r3 == Ok::<(u8, usize), RuntimeError>((first, 2))
            &&& s3.ipc.threads[APP_TASK as int].state == ThreadState::Runnable
            &&& s3.ipc.threads[APP_TASK as int].inbox == Some(empty_message())
            &&& r4 == Err::<(), RuntimeError>(
                RuntimeError::Syscall(SyscallError::Capability(CapError::EmptySlot)),
            )
        }),
{
    let uart = Object::Mmio { base: UART_BASE, pages: 1 };
    let endpoint = Object::Endpoint(0);
    let all = Rights::from_bits(0x0f);
    let write = Rights::from_bits(2);
    let c = s.capabilities;
    assert(c.is_empty_system()) by {
        assert forall|t: int, j: int| 0 <= t < c.spaces.len() && 0 <= j < c.spaces[t].len() implies (#[trigger] c.spaces[t][j]) is None by {
            assert(c.spaces[t] == Seq::new(8, |i: int| None::<crate::capability::CapRef>));
        }
    }
    assert forall|t: int| 0 <= t < c.spaces.len() implies (#[trigger] c.spaces[t]).len() >= 2 by {
        assert(c.spaces[t] == Seq::new(8, |i: int| None::<crate::capability::CapRef>));
    }
    lemma_boot_authority(c, uart, endpoint);
    let c1 = c.create_root(0, 0, uart, all).0;
    let c2 = c1.mint(0, 0, 1, 0, write).0;
    let c3 = c2.create_root(0, 1, endpoint, all).0;
    let c4 = c3.mint(0, 1, 2, 1, write).0;
    let c5 = c4.revoke(0, 1).0;
    let s1 = s.bootstrap().0;
    assert(s1 == s.with_capabilities(c4));
    // the app's Call
    lemma_call_request_exists(first);
    let request = call_request(first);
    assert(c4.resolve(2, 1, write) == Ok::<ResolvedCapability, CapError>(
        ResolvedCapability { object: endpoint, rights: write },
    ));
    let i0 = s.ipc;
    assert forall|e: int| 0 <= e < 2 implies (#[trigger] i0.senders[e]).len() == 0
        && i0.receivers[e].len() == 0 by {}
    assert forall|e: int| 0 <= e < 2 implies (#[trigger] i0.receivers[e]).len() == 0 by {
        assert(i0.senders[e].len() == 0);
    }
    assert forall|t: int| 0 <= t < 4 implies (#[trigger] i0.threads[t]).reply_target is None by {}
    assert(i0.well_formed());
    lemma_call_receive_reply(i0, APP_TASK, CONSOLE_TASK, 0, request, empty_message(), empty_message());
    let (i1, o1) = i0.call(APP_TASK, 0, request);
    let (i2, o2) = i1.receive(CONSOLE_TASK, 0);
    let (i3, m3) = i2.take_message(CONSOLE_TASK);
    assert(m3 == Some(request));
    assert(request.registers@[0] == first as u64);
    assert((first as u64) as u8 == first) by (bit_vector);
    let s2 = s1.app_call(first).0;
    assert(s2 == (RuntimeState { ipc: i3, pending_byte: first, current_task: CONSOLE_TASK, ..s1 }));
    // the console's turn
    assert(c4.resolve(1, 0, write) == Ok::<ResolvedCapability, CapError>(
        ResolvedCapability { object: uart, rights: write },
    ));
    assert(i3.threads[CONSOLE_TASK as int].state == ThreadState::Runnable);
    assert(i3.threads[CONSOLE_TASK as int].reply_target == Some(APP_TASK));
    assert(i3.threads[APP_TASK as int].state == (ThreadState::ReplyBlocked { server: CONSOLE_TASK }));
    let (i4, o4) = i3.reply(CONSOLE_TASK, empty_message());
    assert(o4 == Ok::<IpcOutcome, IpcError>(IpcOutcome::Delivered { peer: APP_TASK }));
    let s3 = s2.console_reply_and_revoke().0;
    assert(s3 == (RuntimeState { ipc: i4, current_task: APP_TASK, ..s2 }).with_capabilities(c5));
    // the retry
    assert(c5.resolve(2, 1, write) == Err::<ResolvedCapability, CapError>(CapError::EmptySlot));
}

} // verus!
