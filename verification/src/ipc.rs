//! Synchronous, zero-kernel-buffer rendezvous IPC model.
use vstd::prelude::*;

verus! {

pub type ThreadId = usize;

#[derive(Clone, Copy, Debug, PartialEq, Eq)]
pub struct Message {
    pub label: u16,
    pub length: u8,
    pub registers: [u64; 4],
    /// Optional sender CSpace slot to mint into a receiver-selected slot.
    pub capability_slot: Option<u16>,
}

impl Message {
    /// The all-zero message with no capability slot.
    pub open spec fn is_empty_message(self) -> bool {
        &&& self.label == 0
        &&& self.length == 0
        &&& self.registers@ == seq![0u64, 0u64, 0u64, 0u64]
        &&& self.capability_slot is None
    }
}

/// The all-zero message.
pub open spec fn empty_message() -> Message {
    choose|m: Message| m.is_empty_message()
}

/// Messages agree when their fields and register contents agree.
pub proof fn lemma_message_fields_determine(a: Message, b: Message)
    requires
        a.label == b.label,
        a.length == b.length,
        a.registers@ == b.registers@,
        a.capability_slot == b.capability_slot,
    ensures
        a == b,
{
    broadcast use vstd::array::axiom_array_ext_equal;

    assert(a.registers@[0] == b.registers@[0]);
    assert(a.registers =~= b.registers);
}

impl Default for Message {
    fn default() -> (m: Message)
        ensures
            m.is_empty_message(),
            m == empty_message(),
    {
        let m = Message { label: 0, length: 0, registers: [0; 4], capability_slot: None };
        assert(m.registers@ =~= seq![0u64, 0u64, 0u64, 0u64]);
        proof {
            assert(m.is_empty_message());
            let c = empty_message();
            assert(c.is_empty_message());
            lemma_message_fields_determine(m, c);
        }
        m
    }
}

#[derive(Clone, Copy, Debug, PartialEq, Eq, Structural)]
pub enum ThreadState {
    Runnable,
    Sending { endpoint: usize },
    Receiving { endpoint: usize },
    ReplyBlocked { server: ThreadId },
}

/// A thread control block: the message registers stay here while the thread is blocked.
#[derive(Clone, Copy)]
pub struct Thread {
    pub state: ThreadState,
    pub outgoing: Message,
    pub inbox: Option<Message>,
    pub is_call: bool,
    pub reply_target: Option<ThreadId>,
}

fn empty_thread() -> (t: Thread)
    ensures
        t.state == ThreadState::Runnable,
        t.inbox is None,
        !t.is_call,
        t.reply_target is None,
        t.outgoing == empty_message(),
{
    Thread {
        state: ThreadState::Runnable,
        outgoing: Message::default(),
        inbox: None,
        is_call: false,
        reply_target: None,
    }
}

#[derive(Clone, Copy, Debug, PartialEq, Eq, Structural)]
pub enum IpcOutcome {
    Blocked,
    Delivered { peer: ThreadId },
}

#[derive(Clone, Copy, Debug, PartialEq, Eq, Structural)]
pub enum IpcError {
    BadThread,
    BadEndpoint,
    ThreadNotRunnable,
    QueueFull,
    NoReplyTarget,
}

/// `(h + k) % n` for `h < n` and `k < n`, without division.
pub(crate) proof fn lemma_wrap(h: int, k: int, n: int)
    requires
        0 <= h < n,
        0 <= k < n,
    ensures
        (h + k) % n == if h + k < n {
            h + k
        } else {
            h + k - n
        },
{
    if h + k < n {
        vstd::arithmetic::div_mod::lemma_small_mod((h + k) as nat, n as nat);
    } else {
        vstd::arithmetic::div_mod::lemma_small_mod((h + k - n) as nat, n as nat);
        vstd::arithmetic::div_mod::lemma_mod_add_multiples_vanish(h + k - n, n);
    }
}

/// A fixed-capacity ring of thread ids.
#[derive(Clone, Copy)]
struct Queue<const THREADS: usize> {
    entries: [Option<ThreadId>; THREADS],
    head: usize,
    len: usize,
}

impl<const THREADS: usize> Queue<THREADS> {
    /// The queued ids, oldest first.
    closed spec fn view(&self) -> Seq<ThreadId> {
        Seq::new(self.len as nat, |k: int| self.entries@[(self.head + k) % (THREADS as int)].unwrap())
    }

    /// The ring's window lies inside the array and every slot in it holds an id.
    closed spec fn wf(&self) -> bool {
        &&& self.len <= THREADS
        &&& THREADS > 0 ==> self.head < THREADS
        &&& forall|k: int|
            0 <= k < self.len ==> (#[trigger] self.entries@[(self.head + k) % (THREADS as int)]) is Some
    }

    fn new() -> (q: Self)
        ensures
            q.wf(),
            q.view() == Seq::<ThreadId>::empty(),
    {
        let q = Queue { entries: [None; THREADS], head: 0, len: 0 };
        assert(q.view() =~= Seq::<ThreadId>::empty());
        q
    }

    fn push(&mut self, thread: ThreadId) -> (r: Result<(), IpcError>)
        requires
            old(self).wf(),
        ensures
            final(self).wf(),
            old(self).view().len() == THREADS ==> r == Err::<(), IpcError>(IpcError::QueueFull)
                && final(self).view() == old(self).view(),
            old(self).view().len() < THREADS ==> r is Ok && final(self).view() == old(
                self,
            ).view().push(thread),
    {
        if self.len == THREADS {
            return Err(IpcError::QueueFull);
        }
        // (head + len) % THREADS, computed without an intermediate sum that could overflow
        let room = THREADS - self.len;
        let tail = if self.head < room {
            self.head + self.len
        } else {
            self.head - room
        };
        proof {
            lemma_wrap(self.head as int, self.len as int, THREADS as int);
        }
        assert(tail == (self.head + self.len) % (THREADS as int));
        let ghost old_q = *self;
        self.entries[tail] = Some(thread);
        self.len += 1;
        proof {
            assert forall|k: int| 0 <= k < self.len implies (#[trigger] self.entries@[(self.head
                + k) % (THREADS as int)]) is Some by {
                lemma_wrap(self.head as int, k, THREADS as int);
                if k < old_q.len {
                    assert(old_q.entries@[(self.head + k) % (THREADS as int)] is Some);
                }
            }
            assert forall|k: int| 0 <= k < self.len implies #[trigger] self.view()[k]
                == old_q.view().push(thread)[k] by {
                lemma_wrap(self.head as int, k, THREADS as int);
            }
            assert(self.view() =~= old_q.view().push(thread));
        }
        Ok(())
    }

    fn pop(&mut self) -> (r: Option<ThreadId>)
        requires
            old(self).wf(),
        ensures
            final(self).wf(),
            old(self).view().len() == 0 ==> r is None && final(self).view() == old(self).view(),
            old(self).view().len() > 0 ==> r == Some(old(self).view()[0]) && final(self).view()
                == old(self).view().drop_first(),
    {
        if self.len == 0 {
            return None;
        }
        let ghost old_q = *self;
        proof {
            lemma_wrap(self.head as int, 0, THREADS as int);
            assert(self.entries@[(self.head + 0) % (THREADS as int)] is Some);
        }
        let value = self.entries[self.head];
        self.entries[self.head] = None;
        self.head = (self.head + 1) % THREADS;
        self.len -= 1;
        proof {
            assert forall|k: int| 0 <= k < self.len implies (#[trigger] self.entries@[(self.head
                + k) % (THREADS as int)]) is Some by {
                lemma_wrap(old_q.head as int, 1, THREADS as int);
                lemma_wrap(self.head as int, k, THREADS as int);
                lemma_wrap(old_q.head as int, 1 + k, THREADS as int);
                assert(old_q.entries@[(old_q.head + (1 + k)) % (THREADS as int)] is Some);
            }
            assert(self.view() =~= old_q.view().drop_first()) by {
                assert forall|k: int| 0 <= k < self.len implies #[trigger] self.view()[k]
                    == old_q.view()[k + 1] by {
                    lemma_wrap(old_q.head as int, 1, THREADS as int);
                    lemma_wrap(self.head as int, k, THREADS as int);
                    lemma_wrap(old_q.head as int, 1 + k, THREADS as int);
                    assert(old_q.head + (k + 1) == old_q.head + 1 + k);
                }
            }
        }
        value
    }
}

#[derive(Clone, Copy)]
struct Endpoint<const THREADS: usize> {
    senders: Queue<THREADS>,
    receivers: Queue<THREADS>,
}

impl<const THREADS: usize> Endpoint<THREADS> {
    fn new() -> (e: Self)
        ensures
            e.senders.wf(),
            e.receivers.wf(),
            e.senders.view() == Seq::<ThreadId>::empty(),
            e.receivers.view() == Seq::<ThreadId>::empty(),
    {
        Endpoint { senders: Queue::new(), receivers: Queue::new() }
    }
}

/// The mathematical state of the IPC system: the thread control blocks and, per
/// endpoint, the ids of the threads waiting to send and to receive.
#[verifier::ext_equal]
pub struct IpcState {
    pub threads: Seq<Thread>,
    pub senders: Seq<Seq<ThreadId>>,
    pub receivers: Seq<Seq<ThreadId>>,
}

impl IpcState {
    /// The state with one thread control block replaced.
    pub open spec fn with_thread(self, t: ThreadId, thread: Thread) -> IpcState {
        IpcState { threads: self.threads.update(t as int, thread), ..self }
    }

    /// The thread exists and may start an operation, or why it may not.
    pub open spec fn runnable(self, t: ThreadId) -> Result<(), IpcError> {
        if t >= self.threads.len() {
            Err(IpcError::BadThread)
        } else if self.threads[t as int].state != ThreadState::Runnable {
            Err(IpcError::ThreadNotRunnable)
        } else {
            Ok(())
        }
    }

    /// Queue `t` behind the senders of `endpoint`, failing when the queue is at capacity.
    pub open spec fn enqueue_sender(self, endpoint: usize, t: ThreadId) -> (IpcState, Result<
        IpcOutcome,
        IpcError,
    >) {
        if self.senders[endpoint as int].len() >= self.threads.len() {
            (self, Err(IpcError::QueueFull))
        } else {
            (
                IpcState {
                    senders: self.senders.update(
                        endpoint as int,
                        self.senders[endpoint as int].push(t),
                    ),
                    ..self
                },
                Ok(IpcOutcome::Blocked),
            )
        }
    }

    /// Queue `t` behind the receivers of `endpoint`, failing when the queue is at capacity.
    pub open spec fn enqueue_receiver(self, endpoint: usize, t: ThreadId) -> (IpcState, Result<
        IpcOutcome,
        IpcError,
    >) {
        if self.receivers[endpoint as int].len() >= self.threads.len() {
            (self, Err(IpcError::QueueFull))
        } else {
            (
                IpcState {
                    receivers: self.receivers.update(
                        endpoint as int,
                        self.receivers[endpoint as int].push(t),
                    ),
                    ..self
                },
                Ok(IpcOutcome::Blocked),
            )
        }
    }

    /// A one-way send: delivered straight into the first waiting receiver, or the sender
    /// blocks with its message kept in its own control block.
    pub open spec fn send(self, sender: ThreadId, endpoint: usize, message: Message) -> (
        IpcState,
        Result<IpcOutcome, IpcError>,
    ) {
        match self.runnable(sender) {
            Err(e) => (self, Err(e)),
            Ok(_) => {
                let s1 = self.with_thread(
                    sender,
                    Thread { is_call: false, ..self.threads[sender as int] },
                );
                if endpoint >= self.senders.len() {
                    (s1, Err(IpcError::BadEndpoint))
                } else if s1.receivers[endpoint as int].len() > 0 {
                    let r = s1.receivers[endpoint as int][0];
                    let s2 = IpcState {
                        receivers: s1.receivers.update(
                            endpoint as int,
                            s1.receivers[endpoint as int].drop_first(),
                        ),
                        ..s1
                    };
                    (
                        s2.with_thread(
                            r,
                            Thread {
                                inbox: Some(message),
                                state: ThreadState::Runnable,
                                ..s2.threads[r as int]
                            },
                        ),
                        Ok(IpcOutcome::Delivered { peer: r }),
                    )
                } else {
                    s1.with_thread(
                        sender,
                        Thread {
                            outgoing: message,
                            state: ThreadState::Sending { endpoint },
                            ..s1.threads[sender as int]
                        },
                    ).enqueue_sender(endpoint, sender)
                }
            },
        }
    }

    /// A call: like a send, but the caller then waits for the receiver's one-shot reply.
    pub open spec fn call(self, caller: ThreadId, endpoint: usize, message: Message) -> (
        IpcState,
        Result<IpcOutcome, IpcError>,
    ) {
        match self.runnable(caller) {
            Err(e) => (self, Err(e)),
            Ok(_) => {
                let s1 = self.with_thread(
                    caller,
                    Thread { is_call: true, ..self.threads[caller as int] },
                );
                if endpoint >= self.senders.len() {
                    (s1, Err(IpcError::BadEndpoint))
                } else if s1.receivers[endpoint as int].len() > 0 {
                    let r = s1.receivers[endpoint as int][0];
                    let s2 = IpcState {
                        receivers: s1.receivers.update(
                            endpoint as int,
                            s1.receivers[endpoint as int].drop_first(),
                        ),
                        ..s1
                    };
                    let s3 = s2.with_thread(
                        r,
                        Thread {
                            inbox: Some(message),
                            reply_target: Some(caller),
                            state: ThreadState::Runnable,
                            ..s2.threads[r as int]
                        },
                    );
                    (
                        s3.with_thread(
                            caller,
                            Thread {
                                state: ThreadState::ReplyBlocked { server: r },
                                ..s3.threads[caller as int]
                            },
                        ),
                        Ok(IpcOutcome::Delivered { peer: r }),
                    )
                } else {
                    s1.with_thread(
                        caller,
                        Thread {
                            outgoing: message,
                            state: ThreadState::Sending { endpoint },
                            ..s1.threads[caller as int]
                        },
                    ).enqueue_sender(endpoint, caller)
                }
            },
        }
    }

    /// A receive: takes the message of the first waiting sender (a caller then waits for
    /// this receiver's reply), or the receiver blocks.
    pub open spec fn receive(self, receiver: ThreadId, endpoint: usize) -> (IpcState, Result<
        IpcOutcome,
        IpcError,
    >) {
        match self.runnable(receiver) {
            Err(e) => (self, Err(e)),
            Ok(_) => if endpoint >= self.senders.len() {
                (self, Err(IpcError::BadEndpoint))
            } else if self.senders[endpoint as int].len() > 0 {
                let s = self.senders[endpoint as int][0];
                let s1 = IpcState {
                    senders: self.senders.update(
                        endpoint as int,
                        self.senders[endpoint as int].drop_first(),
                    ),
                    ..self
                };
                let message = s1.threads[s as int].outgoing;
                let s2 = if s1.threads[s as int].is_call {
                    let s3 = s1.with_thread(
                        s,
                        Thread {
                            state: ThreadState::ReplyBlocked { server: receiver },
                            ..s1.threads[s as int]
                        },
                    );
                    s3.with_thread(
                        receiver,
                        Thread { reply_target: Some(s), ..s3.threads[receiver as int] },
                    )
                } else {
                    s1.with_thread(
                        s,
                        Thread { state: ThreadState::Runnable, ..s1.threads[s as int] },
                    )
                };
                (
                    s2.with_thread(
                        receiver,
                        Thread { inbox: Some(message), ..s2.threads[receiver as int] },
                    ),
                    Ok(IpcOutcome::Delivered { peer: s }),
                )
            } else {
                self.with_thread(
                    receiver,
                    Thread {
                        state: ThreadState::Receiving { endpoint },
                        ..self.threads[receiver as int]
                    },
                ).enqueue_receiver(endpoint, receiver)
            },
        }
    }

    /// A reply: consumes the server's one-shot reply authority and resumes the caller
    /// that waits for this server.
    pub open spec fn reply(self, server: ThreadId, message: Message) -> (IpcState, Result<
        IpcOutcome,
        IpcError,
    >) {
        match self.runnable(server) {
            Err(e) => (self, Err(e)),
            Ok(_) => match self.threads[server as int].reply_target {
                None => (self, Err(IpcError::NoReplyTarget)),
                Some(client) => {
                    let s1 = self.with_thread(
                        server,
                        Thread { reply_target: None, ..self.threads[server as int] },
                    );
                    if s1.threads[client as int].state != (ThreadState::ReplyBlocked { server }) {
                        (s1, Err(IpcError::NoReplyTarget))
                    } else {
                        (
                            s1.with_thread(
                                client,
                                Thread {
                                    inbox: Some(message),
                                    state: ThreadState::Runnable,
                                    ..s1.threads[client as int]
                                },
                            ),
                            Ok(IpcOutcome::Delivered { peer: client }),
                        )
                    }
                },
            },
        }
    }

    /// Take the delivered message out of a thread's inbox.
    pub open spec fn take_message(self, thread: ThreadId) -> (IpcState, Option<Message>) {
        if thread >= self.threads.len() {
            (self, None)
        } else {
            (
                self.with_thread(thread, Thread { inbox: None, ..self.threads[thread as int] }),
                self.threads[thread as int].inbox,
            )
        }
    }

    /// The queues and the thread states agree in both directions: a thread is queued on an
    /// endpoint exactly when it is blocked there in the matching direction, and no queue
    /// holds a thread twice.
    pub open spec fn consistent(self) -> bool {
        &&& self.queues_match_states()
        &&& self.waiting_threads_queued()
    }

    /// Every thread blocked sending to or receiving from an endpoint waits in that
    /// endpoint's matching queue.
    pub open spec fn waiting_threads_queued(self) -> bool {
        forall|t: int|
            0 <= t < self.threads.len() ==> match (#[trigger] self.threads[t]).state {
                ThreadState::Sending { endpoint } => endpoint < self.senders.len()
                    && self.senders[endpoint as int].contains(t as ThreadId),
                ThreadState::Receiving { endpoint } => endpoint < self.receivers.len()
                    && self.receivers[endpoint as int].contains(t as ThreadId),
                _ => true,
            }
    }

    /// Every thread waiting in a queue is blocked on that endpoint in the matching
    /// direction, and no queue holds a thread twice.
    pub open spec fn queues_match_states(self) -> bool {
        &&& self.well_formed()
        &&& forall|e: int, k: int|
            0 <= e < self.senders.len() && 0 <= k < self.senders[e].len() ==> self.threads[#[trigger] self.senders[e][k] as int].state
                == (ThreadState::Sending { endpoint: e as usize })
        &&& forall|e: int, k: int|
            0 <= e < self.receivers.len() && 0 <= k < self.receivers[e].len()
                ==> self.threads[#[trigger] self.receivers[e][k] as int].state == (
            ThreadState::Receiving { endpoint: e as usize })
        &&& forall|e: int|
            0 <= e < self.senders.len() ==> (#[trigger] self.senders[e]).no_duplicates()
                && self.receivers[e].no_duplicates()
    }

    /// Every queued id and every reply target names an existing thread, and no queue holds
    /// more ids than there are threads.
    pub open spec fn well_formed(self) -> bool {
        &&& self.senders.len() == self.receivers.len()
        &&& self.senders.len() <= usize::MAX
        &&& self.threads.len() <= usize::MAX
        &&& forall|e: int|
            0 <= e < self.senders.len() ==> (#[trigger] self.senders[e]).len() <= self.threads.len()
        &&& forall|e: int|
            0 <= e < self.receivers.len() ==> (#[trigger] self.receivers[e]).len()
                <= self.threads.len()
        &&& forall|e: int, k: int|
            0 <= e < self.senders.len() && 0 <= k < self.senders[e].len() ==> #[trigger] self.senders[e][k]
                < self.threads.len()
        &&& forall|e: int, k: int|
            0 <= e < self.receivers.len() && 0 <= k < self.receivers[e].len()
                ==> #[trigger] self.receivers[e][k] < self.threads.len()
        &&& forall|t: int|
            0 <= t < self.threads.len() && (#[trigger] self.threads[t]).reply_target is Some
                ==> self.threads[t].reply_target.unwrap() < self.threads.len()
    }
}

pub struct RendezvousIpc<const THREADS: usize, const ENDPOINTS: usize> {
    threads: [Thread; THREADS],
    endpoints: [Endpoint<THREADS>; ENDPOINTS],
}

impl<const THREADS: usize, const ENDPOINTS: usize> View for RendezvousIpc<THREADS, ENDPOINTS> {
    type V = IpcState;

    closed spec fn view(&self) -> IpcState {
        IpcState {
            threads: self.threads@,
            senders: Seq::new(ENDPOINTS as nat, |e: int| self.endpoints@[e].senders.view()),
            receivers: Seq::new(ENDPOINTS as nat, |e: int| self.endpoints@[e].receivers.view()),
        }
    }
}

impl<const THREADS: usize, const ENDPOINTS: usize> RendezvousIpc<THREADS, ENDPOINTS> {
    /// Every endpoint queue is a well-formed ring, and the state is well formed and
    /// consistent.
    pub closed spec fn wf(&self) -> bool {
        &&& forall|e: int|
            0 <= e < ENDPOINTS ==> (#[trigger] self.endpoints@[e]).senders.wf()
                && self.endpoints@[e].receivers.wf()
        &&& self@.well_formed()
        &&& self@.consistent()
    }

    /// The model has `THREADS` control blocks and `ENDPOINTS` pairs of queues, and the
    /// internal invariant makes the model well formed and consistent.
    pub proof fn lemma_view(&self)
        ensures
            self@.threads.len() == THREADS,
            self@.senders.len() == ENDPOINTS,
            self@.receivers.len() == ENDPOINTS,
            self.wf() ==> self@.well_formed() && self@.consistent(),
    {
    }

    /// Every thread runnable with nothing delivered, every endpoint empty.
    pub fn new() -> (s: Self)
        ensures
            s.wf(),
            s@.consistent(),
            s@.threads.len() == THREADS,
            s@.senders.len() == ENDPOINTS,
            s@.receivers.len() == ENDPOINTS,
            forall|t: int|
                0 <= t < THREADS ==> (#[trigger] s@.threads[t]).state == ThreadState::Runnable
                    && s@.threads[t].inbox is None && s@.threads[t].reply_target is None
                    && !s@.threads[t].is_call && s@.threads[t].outgoing == empty_message(),
            forall|e: int|
                0 <= e < ENDPOINTS ==> (#[trigger] s@.senders[e]) == Seq::<ThreadId>::empty()
                    && s@.receivers[e] == Seq::<ThreadId>::empty(),
    {
        let s = Self { threads: [empty_thread(); THREADS], endpoints: [Endpoint::new(); ENDPOINTS] };
        s
    }

    fn set_thread(&mut self, t: ThreadId, thread: Thread)
        requires
            t < THREADS,
        ensures
            final(self)@ == old(self)@.with_thread(t, thread),
            final(self).endpoints == old(self).endpoints,
    {
        self.threads[t] = thread;
        proof {
            assert(self@ =~= old(self)@.with_thread(t, thread));
        }
    }

    pub fn send(&mut self, sender: ThreadId, endpoint: usize, message: Message) -> (r: Result<
        IpcOutcome,
        IpcError,
    >)
        requires
            old(self).wf(),
        ensures
            final(self).wf(),
            final(self)@ == old(self)@.send(sender, endpoint, message).0,
            r == old(self)@.send(sender, endpoint, message).1,
    {
        proof {
            lemma_send_keeps_consistent(self@, sender, endpoint, message);
        }
        match self.ensure_runnable(sender) {
            Err(e) => return Err(e),
            Ok(_) => {},
        }
        let mut th = self.threads[sender];
        th.is_call = false;
        self.set_thread(sender, th);
        if endpoint >= ENDPOINTS {
            return Err(IpcError::BadEndpoint);
        }
        let ghost s1 = self@;
        let mut ep = self.endpoints[endpoint];
        match ep.receivers.pop() {
            Some(receiver) => {
                self.endpoints[endpoint] = ep;
                let ghost s2 = self@;
                assert(s2 =~= (IpcState {
                    receivers: s1.receivers.update(
                        endpoint as int,
                        s1.receivers[endpoint as int].drop_first(),
                    ),
                    ..s1
                }));
                let mut rt = self.threads[receiver];
                rt.inbox = Some(message);
                rt.state = ThreadState::Runnable;
                self.set_thread(receiver, rt);
                Ok(IpcOutcome::Delivered { peer: receiver })
            },
            None => {
                let mut st = self.threads[sender];
                st.outgoing = message;
                st.state = ThreadState::Sending { endpoint };
                self.set_thread(sender, st);
                let ghost s2 = self@;
                let pushed = ep.senders.push(sender);
                self.endpoints[endpoint] = ep;
                match pushed {
                    Err(e) => {
                        assert(self@ =~= s2);
                        Err(e)
                    },
                    Ok(_) => {
                        assert(self@ =~= s2.enqueue_sender(endpoint, sender).0);
                        Ok(IpcOutcome::Blocked)
                    },
                }
            },
        }
    }

    pub fn call(&mut self, caller: ThreadId, endpoint: usize, message: Message) -> (r: Result<
        IpcOutcome,
        IpcError,
    >)
        requires
            old(self).wf(),
        ensures
            final(self).wf(),
            final(self)@ == old(self)@.call(caller, endpoint, message).0,
            r == old(self)@.call(caller, endpoint, message).1,
    {
        proof {
            lemma_call_keeps_consistent(self@, caller, endpoint, message);
        }
        match self.ensure_runnable(caller) {
            Err(e) => return Err(e),
            Ok(_) => {},
        }
        let mut th = self.threads[caller];
        th.is_call = true;
        self.set_thread(caller, th);
        if endpoint >= ENDPOINTS {
            return Err(IpcError::BadEndpoint);
        }
        let ghost s1 = self@;
        let mut ep = self.endpoints[endpoint];
        match ep.receivers.pop() {
            Some(receiver) => {
                self.endpoints[endpoint] = ep;
                let ghost s2 = self@;
                assert(s2 =~= (IpcState {
                    receivers: s1.receivers.update(
                        endpoint as int,
                        s1.receivers[endpoint as int].drop_first(),
                    ),
                    ..s1
                }));
                let mut rt = self.threads[receiver];
                rt.inbox = Some(message);
                rt.reply_target = Some(caller);
                rt.state = ThreadState::Runnable;
                self.set_thread(receiver, rt);
                let mut ct = self.threads[caller];
                ct.state = ThreadState::ReplyBlocked { server: receiver };
                self.set_thread(caller, ct);
                Ok(IpcOutcome::Delivered { peer: receiver })
            },
            None => {
                let mut ct = self.threads[caller];
                ct.outgoing = message;
                ct.state = ThreadState::Sending { endpoint };
                self.set_thread(caller, ct);
                let ghost s2 = self@;
                let pushed = ep.senders.push(caller);
                self.endpoints[endpoint] = ep;
                match pushed {
                    Err(e) => {
                        assert(self@ =~= s2);
                        Err(e)
                    },
                    Ok(_) => {
                        assert(self@ =~= s2.enqueue_sender(endpoint, caller).0);
                        Ok(IpcOutcome::Blocked)
                    },
                }
            },
        }
    }

    pub fn receive(&mut self, receiver: ThreadId, endpoint: usize) -> (r: Result<
        IpcOutcome,
        IpcError,
    >)
        requires
            old(self).wf(),
        ensures
            final(self).wf(),
            final(self)@ == old(self)@.receive(receiver, endpoint).0,
            r == old(self)@.receive(receiver, endpoint).1,
    {
        proof {
            lemma_receive_keeps_consistent(self@, receiver, endpoint);
        }
        match self.ensure_runnable(receiver) {
            Err(e) => return Err(e),
            Ok(_) => {},
        }
        if endpoint >= ENDPOINTS {
            return Err(IpcError::BadEndpoint);
        }
        let ghost s0 = self@;
        let mut ep = self.endpoints[endpoint];
        match ep.senders.pop() {
            Some(sender) => {
                self.endpoints[endpoint] = ep;
                let ghost s1 = self@;
                assert(s1 =~= (IpcState {
                    senders: s0.senders.update(
                        endpoint as int,
                        s0.senders[endpoint as int].drop_first(),
                    ),
                    ..s0
                }));
                let message = self.threads[sender].outgoing;
                if self.threads[sender].is_call {
                    let mut st = self.threads[sender];
                    st.state = ThreadState::ReplyBlocked { server: receiver };
                    self.set_thread(sender, st);
                    let mut rt = self.threads[receiver];
                    rt.reply_target = Some(sender);
                    self.set_thread(receiver, rt);
                } else {
                    let mut st = self.threads[sender];
                    st.state = ThreadState::Runnable;
                    self.set_thread(sender, st);
                }
                let mut rt = self.threads[receiver];
                rt.inbox = Some(message);
                self.set_thread(receiver, rt);
                Ok(IpcOutcome::Delivered { peer: sender })
            },
            None => {
                let mut rt = self.threads[receiver];
                rt.state = ThreadState::Receiving { endpoint };
                self.set_thread(receiver, rt);
                let ghost s2 = self@;
                let pushed = ep.receivers.push(receiver);
                self.endpoints[endpoint] = ep;
                match pushed {
                    Err(e) => {
                        assert(self@ =~= s2);
                        Err(e)
                    },
                    Ok(_) => {
                        assert(self@ =~= s2.enqueue_receiver(endpoint, receiver).0);
                        Ok(IpcOutcome::Blocked)
                    },
                }
            },
        }
    }

    pub fn reply(&mut self, server: ThreadId, message: Message) -> (r: Result<
        IpcOutcome,
        IpcError,
    >)
        requires
            old(self).wf(),
        ensures
            final(self).wf(),
            final(self)@ == old(self)@.reply(server, message).0,
            r == old(self)@.reply(server, message).1,
    {
        proof {
            lemma_reply_and_take_keep_consistent(self@, server, message);
        }
        match self.ensure_runnable(server) {
            Err(e) => return Err(e),
            Ok(_) => {},
        }
        let mut sv = self.threads[server];
        let client = match sv.reply_target {
            Some(c) => c,
            None => return Err(IpcError::NoReplyTarget),
        };
        sv.reply_target = None;
        self.set_thread(server, sv);
        if self.threads[client].state != (ThreadState::ReplyBlocked { server }) {
            return Err(IpcError::NoReplyTarget);
        }
        let mut ct = self.threads[client];
        ct.inbox = Some(message);
        ct.state = ThreadState::Runnable;
        self.set_thread(client, ct);
        Ok(IpcOutcome::Delivered { peer: client })
    }

    pub fn take_message(&mut self, thread: ThreadId) -> (r: Option<Message>)
        requires
            old(self).wf(),
        ensures
            final(self).wf(),
            final(self)@ == old(self)@.take_message(thread).0,
            r == old(self)@.take_message(thread).1,
    {
        if thread >= THREADS {
            return None;
        }
        let mut th = self.threads[thread];
        let message = th.inbox;
        th.inbox = None;
        self.set_thread(thread, th);
        message
    }

    pub fn state(&self, thread: ThreadId) -> (r: Option<ThreadState>)
        ensures
            r == if thread < self@.threads.len() {
                Some(self@.threads[thread as int].state)
            } else {
                None
            },
    {
        if thread < THREADS {
            Some(self.threads[thread].state)
        } else {
            None
        }
    }

    fn ensure_runnable(&self, thread: ThreadId) -> (r: Result<(), IpcError>)
        ensures
            r == self@.runnable(thread),
    {
        if thread >= THREADS {
            return Err(IpcError::BadThread);
        }
        if self.threads[thread].state == ThreadState::Runnable {
            Ok(())
        } else {
            Err(IpcError::ThreadNotRunnable)
        }
    }
}

/// Rendezvous, sender first: a send to an endpoint with no waiting receiver blocks the
/// sender with its message kept in its own control block; a later receive on that endpoint
/// takes exactly that message and makes the sender runnable again.
pub proof fn lemma_send_then_receive(
    s: IpcState,
    sender: ThreadId,
    receiver: ThreadId,
    endpoint: usize,
    message: Message,
)
    requires
        s.well_formed(),
        sender < s.threads.len(),
        receiver < s.threads.len(),
        sender != receiver,
        s.threads[sender as int].state == ThreadState::Runnable,
        s.threads[receiver as int].state == ThreadState::Runnable,
        endpoint < s.senders.len(),
        s.senders[endpoint as int].len() == 0,
        s.receivers[endpoint as int].len() == 0,
    ensures
        s.send(sender, endpoint, message).1 == Ok::<IpcOutcome, IpcError>(IpcOutcome::Blocked),
        s.send(sender, endpoint, message).0.threads[sender as int].state == (ThreadState::Sending {
            endpoint,
        }),
        ({
            let s1 = s.send(sender, endpoint, message).0;
            let (s2, o2) = s1.receive(receiver, endpoint);
            &&& o2 == Ok::<IpcOutcome, IpcError>(IpcOutcome::Delivered { peer: sender })
            &&& s2.threads[receiver as int].inbox == Some(message)
            &&& s2.threads[sender as int].state == ThreadState::Runnable
            &&& s2.senders[endpoint as int].len() == 0
        }),
{
    let s1 = s.send(sender, endpoint, message).0;
    assert(s1.senders[endpoint as int] =~= seq![sender]);
    assert(s1.senders[endpoint as int].drop_first() =~= Seq::<ThreadId>::empty());
}

/// Rendezvous, receiver first: a receive on an endpoint with no waiting sender blocks the
/// receiver; a later send delivers the message straight into the receiver and resumes it.
pub proof fn lemma_receive_then_send(
    s: IpcState,
    sender: ThreadId,
    receiver: ThreadId,
    endpoint: usize,
    message: Message,
)
    requires
        s.well_formed(),
        sender < s.threads.len(),
        receiver < s.threads.len(),
        sender != receiver,
        s.threads[sender as int].state == ThreadState::Runnable,
        s.threads[receiver as int].state == ThreadState::Runnable,
        endpoint < s.senders.len(),
        s.senders[endpoint as int].len() == 0,
        s.receivers[endpoint as int].len() == 0,
    ensures
        s.receive(receiver, endpoint).1 == Ok::<IpcOutcome, IpcError>(IpcOutcome::Blocked),
        ({
            let s1 = s.receive(receiver, endpoint).0;
            let (s2, o2) = s1.send(sender, endpoint, message);
            &&& o2 == Ok::<IpcOutcome, IpcError>(IpcOutcome::Delivered { peer: receiver })
            &&& s2.threads[receiver as int].inbox == Some(message)
            &&& s2.threads[receiver as int].state == ThreadState::Runnable
            &&& s2.threads[sender as int].state == ThreadState::Runnable
            &&& s2.receivers[endpoint as int].len() == 0
        }),
{
    let s1 = s.receive(receiver, endpoint).0;
    assert(s1.receivers[endpoint as int] =~= seq![receiver]);
    assert(s1.receivers[endpoint as int].drop_first() =~= Seq::<ThreadId>::empty());
}

/// A call blocks the caller until the server's one-shot reply: the server receives the
/// request, the caller waits on that server, the reply resumes the caller with the reply
/// message, and the reply authority is then spent.
pub proof fn lemma_call_receive_reply(
    s: IpcState,
    caller: ThreadId,
    server: ThreadId,
    endpoint: usize,
    request: Message,
    answer: Message,
    second: Message,
)
    requires
        s.well_formed(),
        caller < s.threads.len(),
        server < s.threads.len(),
        caller != server,
        s.threads[caller as int].state == ThreadState::Runnable,
        s.threads[server as int].state == ThreadState::Runnable,
        endpoint < s.senders.len(),
        s.senders[endpoint as int].len() == 0,
        s.receivers[endpoint as int].len() == 0,
    ensures
        ({
            let (s1, o1) = s.call(caller, endpoint, request);
            let (s2, o2) = s1.receive(server, endpoint);
            let (s3, o3) = s2.reply(server, answer);
            let (s4, o4) = s3.reply(server, second);
            &&& o1 == Ok::<IpcOutcome, IpcError>(IpcOutcome::Blocked)
            &&& o2 == Ok::<IpcOutcome, IpcError>(IpcOutcome::Delivered { peer: caller })
            &&& s2.threads[caller as int].state == (ThreadState::ReplyBlocked { server })
            &&& s2.threads[server as int].inbox == Some(request)
            &&& o3 == Ok::<IpcOutcome, IpcError>(IpcOutcome::Delivered { peer: caller })
            &&& s3.threads[caller as int].state == ThreadState::Runnable
            &&& s3.threads[caller as int].inbox == Some(answer)
            &&& o4 == Err::<IpcOutcome, IpcError>(IpcError::NoReplyTarget)
        }),
{
    let s1 = s.call(caller, endpoint, request).0;
    assert(s1.senders[endpoint as int] =~= seq![caller]);
}

/// A queue of distinct thread ids that leaves out one existing thread is shorter than the
/// number of threads.
proof fn lemma_distinct_ids_leave_room(q: Seq<ThreadId>, n: nat, t: ThreadId)
    requires
        q.no_duplicates(),
        forall|k: int| 0 <= k < q.len() ==> #[trigger] q[k] < n,
        forall|k: int| 0 <= k < q.len() ==> #[trigger] q[k] != t,
        t < n,
    ensures
        q.len() < n,
{
    let qi = q.map_values(|x: ThreadId| x as int);
    assert(qi.no_duplicates()) by {
        assert forall|a: int, b: int| 0 <= a < qi.len() && 0 <= b < qi.len() && a != b implies qi[a]
            != qi[b] by {
            assert(q[a] != q[b]);
        }
    }
    qi.unique_seq_to_set();
    let range = vstd::set_lib::set_int_range(0, n as int).remove(t as int);
    vstd::set_lib::lemma_int_range(0, n as int);
    assert(qi.to_set().subset_of(range)) by {
        assert forall|x: int| qi.to_set().contains(x) implies range.contains(x) by {
            let k = choose|k: int| 0 <= k < qi.len() && qi[k] == x;
            assert(q[k] < n && q[k] != t);
        }
    }
    vstd::set_lib::lemma_len_subset(qi.to_set(), range);
}

/// A runnable thread waits in no queue.
proof fn lemma_runnable_not_queued(s: IpcState, t: ThreadId)
    requires
        s.consistent(),
        t < s.threads.len(),
        s.threads[t as int].state == ThreadState::Runnable,
    ensures
        forall|e: int, k: int|
            0 <= e < s.senders.len() && 0 <= k < s.senders[e].len() ==> #[trigger] s.senders[e][k]
                != t,
        forall|e: int, k: int|
            0 <= e < s.receivers.len() && 0 <= k < s.receivers[e].len()
                ==> #[trigger] s.receivers[e][k] != t,
{
    assert forall|e: int, k: int|
        0 <= e < s.senders.len() && 0 <= k < s.senders[e].len() implies #[trigger] s.senders[e][k] != t by {
        assert(s.threads[s.senders[e][k] as int].state == (ThreadState::Sending { endpoint: e as usize }));
    }
    assert forall|e: int, k: int|
        0 <= e < s.receivers.len() && 0 <= k < s.receivers[e].len() implies #[trigger] s.receivers[e][k] != t by {
        assert(s.threads[s.receivers[e][k] as int].state == (ThreadState::Receiving { endpoint: e as usize }));
    }
}

/// In a consistent state a runnable thread always finds room in a queue.
proof fn lemma_room_for_runnable(s: IpcState, t: ThreadId, e: int)
    requires
        s.consistent(),
        t < s.threads.len(),
        s.threads[t as int].state == ThreadState::Runnable,
        0 <= e < s.senders.len(),
    ensures
        s.senders[e].len() < s.threads.len(),
        s.receivers[e].len() < s.threads.len(),
{
    lemma_runnable_not_queued(s, t);
    assert forall|k: int| 0 <= k < s.senders[e].len() implies #[trigger] s.senders[e][k] < s.threads.len() && s.senders[e][k] != t by {}
    lemma_distinct_ids_leave_room(s.senders[e], s.threads.len(), t);
    assert forall|k: int| 0 <= k < s.receivers[e].len() implies #[trigger] s.receivers[e][k] < s.threads.len() && s.receivers[e][k] != t by {}
    lemma_distinct_ids_leave_room(s.receivers[e], s.threads.len(), t);
}

/// Sending keeps every queued thread blocked in its queue, and never finds a queue full.
#[verifier::spinoff_prover]
#[verifier::rlimit(40)]
proof fn lemma_send_keeps_queues(s: IpcState, sender: ThreadId, endpoint: usize, message: Message)
    requires
        s.consistent(),
    ensures
        s.send(sender, endpoint, message).0.queues_match_states(),
        s.send(sender, endpoint, message).1 != Err::<IpcOutcome, IpcError>(IpcError::QueueFull),
{
    if s.runnable(sender) is Ok && endpoint < s.senders.len() {
        lemma_runnable_not_queued(s, sender);
        lemma_room_for_runnable(s, sender, endpoint as int);
        let s1 = s.with_thread(sender, Thread { is_call: false, ..s.threads[sender as int] });
        let n = s.send(sender, endpoint, message).0;
        if s1.receivers[endpoint as int].len() > 0 {
            let r = s1.receivers[endpoint as int][0];
            assert(s.threads[r as int].state == (ThreadState::Receiving { endpoint }));
            assert forall|e: int, k: int|
                0 <= e < n.senders.len() && 0 <= k < n.senders[e].len() implies n.threads[#[trigger] n.senders[e][k] as int].state
                == (ThreadState::Sending { endpoint: e as usize }) by {
                assert(s.threads[s.senders[e][k] as int].state == (ThreadState::Sending { endpoint: e as usize }));
            }
            assert forall|e: int, k: int|
                0 <= e < n.receivers.len() && 0 <= k < n.receivers[e].len() implies n.threads[#[trigger] n.receivers[e][k] as int].state
                == (ThreadState::Receiving { endpoint: e as usize }) by {
                if e == endpoint {
                    assert(n.receivers[e][k] == s.receivers[e][k + 1]);
                    assert(s.receivers[e][k + 1] != s.receivers[e][0]);
                    assert(s.threads[s.receivers[e][k + 1] as int].state == (ThreadState::Receiving { endpoint: e as usize }));
                } else {
                    assert(s.threads[s.receivers[e][k] as int].state == (ThreadState::Receiving { endpoint: e as usize }));
                    assert(s.receivers[e][k] != r);
                }
            }
            assert forall|e: int| 0 <= e < n.senders.len() implies (#[trigger] n.senders[e]).no_duplicates()
                && n.receivers[e].no_duplicates() by {
                if e == endpoint {
                    assert(s.receivers[e].no_duplicates());
                }
            }
        } else {
            let s2 = s1.with_thread(
                sender,
                Thread { outgoing: message, state: ThreadState::Sending { endpoint }, ..s1.threads[sender as int] },
            );
            assert forall|e: int, k: int|
                0 <= e < n.senders.len() && 0 <= k < n.senders[e].len() implies n.threads[#[trigger] n.senders[e][k] as int].state
                == (ThreadState::Sending { endpoint: e as usize }) by {
                if e == endpoint && k == s.senders[e].len() {
                } else {
                    assert(n.senders[e][k] == s.senders[e][k]);
                    assert(s.threads[s.senders[e][k] as int].state == (ThreadState::Sending { endpoint: e as usize }));
                }
            }
            assert forall|e: int, k: int|
                0 <= e < n.receivers.len() && 0 <= k < n.receivers[e].len() implies n.threads[#[trigger] n.receivers[e][k] as int].state
                == (ThreadState::Receiving { endpoint: e as usize }) by {
                assert(s.threads[s.receivers[e][k] as int].state == (ThreadState::Receiving { endpoint: e as usize }));
            }
            assert forall|e: int| 0 <= e < n.senders.len() implies (#[trigger] n.senders[e]).no_duplicates()
                && n.receivers[e].no_duplicates() by {
                assert(s.senders[e].no_duplicates());
                if e == endpoint {
                    assert forall|a: int, b: int| 0 <= a < n.senders[e].len() && 0 <= b < n.senders[e].len() && a != b implies n.senders[e][a] != n.senders[e][b] by {
                        if a < s.senders[e].len() && b < s.senders[e].len() {
                        } else if a < s.senders[e].len() {
                            assert(s.senders[e][a] != sender);
                        } else {
                            assert(s.senders[e][b] != sender);
                        }
                    }
                }
            }
        }
    }
}

/// Calling keeps every queued thread blocked in its queue, and never finds a queue full.
#[verifier::spinoff_prover]
#[verifier::rlimit(40)]
proof fn lemma_call_keeps_queues(s: IpcState, caller: ThreadId, endpoint: usize, message: Message)
    requires
        s.consistent(),
    ensures
        s.call(caller, endpoint, message).0.queues_match_states(),
        s.call(caller, endpoint, message).1 != Err::<IpcOutcome, IpcError>(IpcError::QueueFull),
{
    if s.runnable(caller) is Ok && endpoint < s.senders.len() {
        lemma_runnable_not_queued(s, caller);
        lemma_room_for_runnable(s, caller, endpoint as int);
        let s1 = s.with_thread(caller, Thread { is_call: true, ..s.threads[caller as int] });
        let n = s.call(caller, endpoint, message).0;
        if s1.receivers[endpoint as int].len() > 0 {
            let r = s1.receivers[endpoint as int][0];
            assert(s.threads[r as int].state == (ThreadState::Receiving { endpoint }));
            assert forall|e: int, k: int|
                0 <= e < n.senders.len() && 0 <= k < n.senders[e].len() implies n.threads[#[trigger] n.senders[e][k] as int].state
                == (ThreadState::Sending { endpoint: e as usize }) by {
                assert(s.threads[s.senders[e][k] as int].state == (ThreadState::Sending { endpoint: e as usize }));
            }
            assert forall|e: int, k: int|
                0 <= e < n.receivers.len() && 0 <= k < n.receivers[e].len() implies n.threads[#[trigger] n.receivers[e][k] as int].state
                == (ThreadState::Receiving { endpoint: e as usize }) by {
                if e == endpoint {
                    assert(n.receivers[e][k] == s.receivers[e][k + 1]);
                    assert(s.receivers[e][k + 1] != s.receivers[e][0]);
                    assert(s.threads[s.receivers[e][k + 1] as int].state == (ThreadState::Receiving { endpoint: e as usize }));
                } else {
                    assert(s.threads[s.receivers[e][k] as int].state == (ThreadState::Receiving { endpoint: e as usize }));
                    assert(s.receivers[e][k] != r);
                }
            }
            assert forall|e: int| 0 <= e < n.senders.len() implies (#[trigger] n.senders[e]).no_duplicates()
                && n.receivers[e].no_duplicates() by {
                assert(s.senders[e].no_duplicates());
            }
        } else {
            assert forall|e: int, k: int|
                0 <= e < n.senders.len() && 0 <= k < n.senders[e].len() implies n.threads[#[trigger] n.senders[e][k] as int].state
                == (ThreadState::Sending { endpoint: e as usize }) by {
                if e == endpoint && k == s.senders[e].len() {
                } else {
                    assert(n.senders[e][k] == s.senders[e][k]);
                    assert(s.threads[s.senders[e][k] as int].state == (ThreadState::Sending { endpoint: e as usize }));
                }
            }
            assert forall|e: int, k: int|
                0 <= e < n.receivers.len() && 0 <= k < n.receivers[e].len() implies n.threads[#[trigger] n.receivers[e][k] as int].state
                == (ThreadState::Receiving { endpoint: e as usize }) by {
                assert(s.threads[s.receivers[e][k] as int].state == (ThreadState::Receiving { endpoint: e as usize }));
            }
            assert forall|e: int| 0 <= e < n.senders.len() implies (#[trigger] n.senders[e]).no_duplicates()
                && n.receivers[e].no_duplicates() by {
                assert(s.senders[e].no_duplicates());
                if e == endpoint {
                    assert forall|a: int, b: int| 0 <= a < n.senders[e].len() && 0 <= b < n.senders[e].len() && a != b implies n.senders[e][a] != n.senders[e][b] by {
                        if a < s.senders[e].len() && b < s.senders[e].len() {
                        } else if a < s.senders[e].len() {
                            assert(s.senders[e][a] != caller);
                        } else {
                            assert(s.senders[e][b] != caller);
                        }
                    }
                }
            }
        }
    }
}

/// Receiving keeps every queued thread blocked in its queue, and never finds a queue full.
#[verifier::spinoff_prover]
#[verifier::rlimit(40)]
proof fn lemma_receive_keeps_queues(s: IpcState, receiver: ThreadId, endpoint: usize)
    requires
        s.consistent(),
    ensures
        s.receive(receiver, endpoint).0.queues_match_states(),
        s.receive(receiver, endpoint).1 != Err::<IpcOutcome, IpcError>(IpcError::QueueFull),
{
    if s.runnable(receiver) is Ok && endpoint < s.senders.len() {
        lemma_runnable_not_queued(s, receiver);
        lemma_room_for_runnable(s, receiver, endpoint as int);
        let n = s.receive(receiver, endpoint).0;
        if s.senders[endpoint as int].len() > 0 {
            let snd = s.senders[endpoint as int][0];
            assert(s.threads[snd as int].state == (ThreadState::Sending { endpoint }));
            assert forall|e: int, k: int|
                0 <= e < n.senders.len() && 0 <= k < n.senders[e].len() implies n.threads[#[trigger] n.senders[e][k] as int].state
                == (ThreadState::Sending { endpoint: e as usize }) by {
                if e == endpoint {
                    assert(n.senders[e][k] == s.senders[e][k + 1]);
                    assert(s.senders[e][k + 1] != s.senders[e][0]);
                    assert(s.threads[s.senders[e][k + 1] as int].state == (ThreadState::Sending { endpoint: e as usize }));
                } else {
                    assert(s.threads[s.senders[e][k] as int].state == (ThreadState::Sending { endpoint: e as usize }));
                    assert(s.senders[e][k] != snd);
                }
            }
            assert forall|e: int, k: int|
                0 <= e < n.receivers.len() && 0 <= k < n.receivers[e].len() implies n.threads[#[trigger] n.receivers[e][k] as int].state
                == (ThreadState::Receiving { endpoint: e as usize }) by {
                assert(s.threads[s.receivers[e][k] as int].state == (ThreadState::Receiving { endpoint: e as usize }));
            }
            assert forall|e: int| 0 <= e < n.senders.len() implies (#[trigger] n.senders[e]).no_duplicates()
                && n.receivers[e].no_duplicates() by {
                assert(s.senders[e].no_duplicates());
            }
            assert(n.well_formed());
        } else {
            assert forall|e: int, k: int|
                0 <= e < n.senders.len() && 0 <= k < n.senders[e].len() implies n.threads[#[trigger] n.senders[e][k] as int].state
                == (ThreadState::Sending { endpoint: e as usize }) by {
                assert(s.threads[s.senders[e][k] as int].state == (ThreadState::Sending { endpoint: e as usize }));
            }
            assert forall|e: int, k: int|
                0 <= e < n.receivers.len() && 0 <= k < n.receivers[e].len() implies n.threads[#[trigger] n.receivers[e][k] as int].state
                == (ThreadState::Receiving { endpoint: e as usize }) by {
                if e == endpoint && k == s.receivers[e].len() {
                } else {
                    assert(n.receivers[e][k] == s.receivers[e][k]);
                    assert(s.threads[s.receivers[e][k] as int].state == (ThreadState::Receiving { endpoint: e as usize }));
                }
            }
            assert forall|e: int| 0 <= e < n.senders.len() implies (#[trigger] n.senders[e]).no_duplicates()
                && n.receivers[e].no_duplicates() by {
                assert(s.senders[e].no_duplicates());
                if e == endpoint {
                    assert forall|a: int, b: int| 0 <= a < n.receivers[e].len() && 0 <= b < n.receivers[e].len() && a != b implies n.receivers[e][a] != n.receivers[e][b] by {
                        if a < s.receivers[e].len() && b < s.receivers[e].len() {
                        } else if a < s.receivers[e].len() {
                            assert(s.receivers[e][a] != receiver);
                        } else {
                            assert(s.receivers[e][b] != receiver);
                        }
                    }
                }
            }
            assert(n.well_formed());
        }
    }
}

/// Replying and taking a message keep every queued thread blocked in its queue.
#[verifier::spinoff_prover]
#[verifier::rlimit(40)]
proof fn lemma_reply_and_take_keep_queues(s: IpcState, thread: ThreadId, message: Message)
    requires
        s.consistent(),
    ensures
        s.reply(thread, message).0.queues_match_states(),
        s.take_message(thread).0.queues_match_states(),
{
    if s.runnable(thread) is Ok && s.threads[thread as int].reply_target is Some {
        let client = s.threads[thread as int].reply_target.unwrap();
        let n = s.reply(thread, message).0;
        if s.threads[client as int].state == (ThreadState::ReplyBlocked { server: thread }) {
            assert forall|e: int, k: int|
                0 <= e < n.senders.len() && 0 <= k < n.senders[e].len() implies n.threads[#[trigger] n.senders[e][k] as int].state
                == (ThreadState::Sending { endpoint: e as usize }) by {
                assert(s.threads[s.senders[e][k] as int].state == (ThreadState::Sending { endpoint: e as usize }));
            }
            assert forall|e: int, k: int|
                0 <= e < n.receivers.len() && 0 <= k < n.receivers[e].len() implies n.threads[#[trigger] n.receivers[e][k] as int].state
                == (ThreadState::Receiving { endpoint: e as usize }) by {
                assert(s.threads[s.receivers[e][k] as int].state == (ThreadState::Receiving { endpoint: e as usize }));
            }
        }
        assert forall|e: int| 0 <= e < n.senders.len() implies (#[trigger] n.senders[e]).no_duplicates()
            && n.receivers[e].no_duplicates() by {
            assert(s.senders[e].no_duplicates());
        }
    }
    let n = s.take_message(thread).0;
    assert forall|e: int| 0 <= e < n.senders.len() implies (#[trigger] n.senders[e]).no_duplicates()
        && n.receivers[e].no_duplicates() by {
        assert(s.senders[e].no_duplicates());
    }
}

proof fn lemma_contains_after_drop_first(q: Seq<ThreadId>, t: ThreadId)
    requires
        q.contains(t),
        q[0] != t,
    ensures
        q.drop_first().contains(t),
{
    let k = choose|k: int| 0 <= k < q.len() && q[k] == t;
    assert(q.drop_first()[k - 1] == t);
}

proof fn lemma_contains_after_push(q: Seq<ThreadId>, t: ThreadId, x: ThreadId)
    requires
        q.contains(t) || t == x,
    ensures
        q.push(x).contains(t),
{
    if t == x {
        assert(q.push(x)[q.len() as int] == t);
    } else {
        let k = choose|k: int| 0 <= k < q.len() && q[k] == t;
        assert(q.push(x)[k] == t);
    }
}

/// After a delivery that pops the head of one queue and makes the head and the acting
/// thread runnable (or waiting for a reply), every other blocked thread is still queued.
proof fn lemma_waiting_after_delivery(
    s: IpcState,
    n: IpcState,
    actor: ThreadId,
    peer: ThreadId,
    endpoint: usize,
    from_senders: bool,
)
    requires
        s.waiting_threads_queued(),
        s.threads.len() <= usize::MAX,
        endpoint < s.senders.len(),
        s.senders.len() == s.receivers.len(),
        n.threads.len() == s.threads.len(),
        n.senders.len() == s.senders.len(),
        n.receivers.len() == s.receivers.len(),
        actor < s.threads.len(),
        peer < s.threads.len(),
        from_senders ==> s.senders[endpoint as int].len() > 0 && s.senders[endpoint as int][0] == peer,
        !from_senders ==> s.receivers[endpoint as int].len() > 0 && s.receivers[endpoint as int][0]
            == peer,
        from_senders ==> n.senders == s.senders.update(
            endpoint as int,
            s.senders[endpoint as int].drop_first(),
        ) && n.receivers == s.receivers,
        !from_senders ==> n.receivers == s.receivers.update(
            endpoint as int,
            s.receivers[endpoint as int].drop_first(),
        ) && n.senders == s.senders,
        !(n.threads[actor as int].state is Sending) && !(n.threads[actor as int].state is Receiving),
        !(n.threads[peer as int].state is Sending) && !(n.threads[peer as int].state is Receiving),
        forall|t: int|
            0 <= t < s.threads.len() && t != actor && t != peer ==> (#[trigger] n.threads[t]).state
                == s.threads[t].state,
    ensures
        n.waiting_threads_queued(),
{
    assert forall|t: int| 0 <= t < n.threads.len() implies match (#[trigger] n.threads[t]).state {
        ThreadState::Sending { endpoint } => endpoint < n.senders.len()
            && n.senders[endpoint as int].contains(t as ThreadId),
        ThreadState::Receiving { endpoint } => endpoint < n.receivers.len()
            && n.receivers[endpoint as int].contains(t as ThreadId),
        _ => true,
    } by {
        if t != actor && t != peer {
            assert(n.threads[t].state == s.threads[t].state);
            assert(s.threads[t].state == s.threads[t].state);
            match s.threads[t].state {
                ThreadState::Sending { endpoint: e } => {
                    if from_senders && e == endpoint {
                        lemma_contains_after_drop_first(s.senders[e as int], t as ThreadId);
                    }
                },
                ThreadState::Receiving { endpoint: e } => {
                    if !from_senders && e == endpoint {
                        lemma_contains_after_drop_first(s.receivers[e as int], t as ThreadId);
                    }
                },
                _ => {},
            }
        }
    }
}

/// After a thread blocks and joins the tail of one queue, every blocked thread is queued.
proof fn lemma_waiting_after_block(
    s: IpcState,
    n: IpcState,
    actor: ThreadId,
    endpoint: usize,
    to_senders: bool,
)
    requires
        s.waiting_threads_queued(),
        s.threads.len() <= usize::MAX,
        endpoint < s.senders.len(),
        s.senders.len() == s.receivers.len(),
        n.threads.len() == s.threads.len(),
        actor < s.threads.len(),
        to_senders ==> n.senders == s.senders.update(
            endpoint as int,
            s.senders[endpoint as int].push(actor),
        ) && n.receivers == s.receivers,
        !to_senders ==> n.receivers == s.receivers.update(
            endpoint as int,
            s.receivers[endpoint as int].push(actor),
        ) && n.senders == s.senders,
        to_senders ==> n.threads[actor as int].state == (ThreadState::Sending { endpoint }),
        !to_senders ==> n.threads[actor as int].state == (ThreadState::Receiving { endpoint }),
        forall|t: int|
            0 <= t < s.threads.len() && t != actor ==> (#[trigger] n.threads[t]).state
                == s.threads[t].state,
    ensures
        n.waiting_threads_queued(),
{
    assert forall|t: int| 0 <= t < n.threads.len() implies match (#[trigger] n.threads[t]).state {
        ThreadState::Sending { endpoint } => endpoint < n.senders.len()
            && n.senders[endpoint as int].contains(t as ThreadId),
        ThreadState::Receiving { endpoint } => endpoint < n.receivers.len()
            && n.receivers[endpoint as int].contains(t as ThreadId),
        _ => true,
    } by {
        if t == actor {
            if to_senders {
                lemma_contains_after_push(s.senders[endpoint as int], actor, actor);
            } else {
                lemma_contains_after_push(s.receivers[endpoint as int], actor, actor);
            }
        } else {
            assert(n.threads[t].state == s.threads[t].state);
            assert(s.threads[t].state == s.threads[t].state);
            match s.threads[t].state {
                ThreadState::Sending { endpoint: e } => {
                    if to_senders && e == endpoint {
                        lemma_contains_after_push(s.senders[e as int], t as ThreadId, actor);
                    }
                },
                ThreadState::Receiving { endpoint: e } => {
                    if !to_senders && e == endpoint {
                        lemma_contains_after_push(s.receivers[e as int], t as ThreadId, actor);
                    }
                },
                _ => {},
            }
        }
    }
}

/// When no thread changes state and no queue changes, every blocked thread stays queued.
proof fn lemma_waiting_after_no_wait_change(s: IpcState, n: IpcState)
    requires
        s.waiting_threads_queued(),
        n.threads.len() == s.threads.len(),
        n.senders == s.senders,
        n.receivers == s.receivers,
        forall|t: int|
            0 <= t < s.threads.len() ==> (#[trigger] n.threads[t]).state == s.threads[t].state
                || n.threads[t].state == ThreadState::Runnable,
    ensures
        n.waiting_threads_queued(),
{
    assert forall|t: int| 0 <= t < n.threads.len() implies match (#[trigger] n.threads[t]).state {
        ThreadState::Sending { endpoint } => endpoint < n.senders.len()
            && n.senders[endpoint as int].contains(t as ThreadId),
        ThreadState::Receiving { endpoint } => endpoint < n.receivers.len()
            && n.receivers[endpoint as int].contains(t as ThreadId),
        _ => true,
    } by {
        assert(s.threads[t].state == s.threads[t].state);
    }
}

/// Sending keeps the IPC state consistent, and never finds a queue full.
pub proof fn lemma_send_keeps_consistent(s: IpcState, sender: ThreadId, endpoint: usize, message: Message)
    requires
        s.consistent(),
    ensures
        s.send(sender, endpoint, message).0.consistent(),
        s.send(sender, endpoint, message).1 != Err::<IpcOutcome, IpcError>(IpcError::QueueFull),
{
    lemma_send_keeps_queues(s, sender, endpoint, message);
    let n = s.send(sender, endpoint, message).0;
    if s.runnable(sender) is Ok {
        if endpoint >= s.senders.len() {
            lemma_waiting_after_no_wait_change(s, n);
        } else if s.receivers[endpoint as int].len() > 0 {
            let r = s.receivers[endpoint as int][0];
            assert(s.threads[r as int].state == (ThreadState::Receiving { endpoint }));
            lemma_waiting_after_delivery(s, n, sender, r, endpoint, false);
        } else {
            lemma_room_for_runnable(s, sender, endpoint as int);
            lemma_waiting_after_block(s, n, sender, endpoint, true);
        }
    }
}

/// Calling keeps the IPC state consistent, and never finds a queue full.
pub proof fn lemma_call_keeps_consistent(s: IpcState, caller: ThreadId, endpoint: usize, message: Message)
    requires
        s.consistent(),
    ensures
        s.call(caller, endpoint, message).0.consistent(),
        s.call(caller, endpoint, message).1 != Err::<IpcOutcome, IpcError>(IpcError::QueueFull),
{
    lemma_call_keeps_queues(s, caller, endpoint, message);
    let n = s.call(caller, endpoint, message).0;
    if s.runnable(caller) is Ok {
        if endpoint >= s.senders.len() {
            lemma_waiting_after_no_wait_change(s, n);
        } else if s.receivers[endpoint as int].len() > 0 {
            let r = s.receivers[endpoint as int][0];
            assert(s.threads[r as int].state == (ThreadState::Receiving { endpoint }));
            lemma_waiting_after_delivery(s, n, caller, r, endpoint, false);
        } else {
            lemma_room_for_runnable(s, caller, endpoint as int);
            lemma_waiting_after_block(s, n, caller, endpoint, true);
        }
    }
}

/// Receiving keeps the IPC state consistent, and never finds a queue full.
pub proof fn lemma_receive_keeps_consistent(s: IpcState, receiver: ThreadId, endpoint: usize)
    requires
        s.consistent(),
    ensures
        s.receive(receiver, endpoint).0.consistent(),
        s.receive(receiver, endpoint).1 != Err::<IpcOutcome, IpcError>(IpcError::QueueFull),
{
    lemma_receive_keeps_queues(s, receiver, endpoint);
    let n = s.receive(receiver, endpoint).0;
    if s.runnable(receiver) is Ok && endpoint < s.senders.len() {
        if s.senders[endpoint as int].len() > 0 {
            let snd = s.senders[endpoint as int][0];
            assert(s.threads[snd as int].state == (ThreadState::Sending { endpoint }));
            lemma_waiting_after_delivery(s, n, receiver, snd, endpoint, true);
        } else {
            lemma_room_for_runnable(s, receiver, endpoint as int);
            lemma_waiting_after_block(s, n, receiver, endpoint, false);
        }
    }
}

/// Replying and taking a message keep the IPC state consistent.
pub proof fn lemma_reply_and_take_keep_consistent(s: IpcState, thread: ThreadId, message: Message)
    requires
        s.consistent(),
    ensures
        s.reply(thread, message).0.consistent(),
        s.take_message(thread).0.consistent(),
{
    lemma_reply_and_take_keep_queues(s, thread, message);
    lemma_waiting_after_no_wait_change(s, s.reply(thread, message).0);
    lemma_waiting_after_no_wait_change(s, s.take_message(thread).0);
}

/// In a consistent state the queues of an endpoint are exactly its blocked threads: a
/// thread waits in an endpoint's sender queue exactly when it is blocked sending there, and
/// in its receiver queue exactly when it is blocked receiving there.
pub proof fn lemma_queues_are_the_waiting_threads(s: IpcState, endpoint: usize, t: ThreadId)
    requires
        s.consistent(),
        endpoint < s.senders.len(),
        t < s.threads.len(),
    ensures
        s.threads[t as int].state == (ThreadState::Sending { endpoint }) <==> s.senders[endpoint as int].contains(t),
        s.threads[t as int].state == (ThreadState::Receiving { endpoint }) <==> s.receivers[endpoint as int].contains(t),
{
    assert(s.threads[t as int].state == s.threads[t as int].state);
    if s.senders[endpoint as int].contains(t) {
        let k = choose|k: int| 0 <= k < s.senders[endpoint as int].len() && s.senders[endpoint as int][k] == t;
        assert(s.threads[s.senders[endpoint as int][k] as int].state == (ThreadState::Sending { endpoint }));
    }
    if s.receivers[endpoint as int].contains(t) {
        let k = choose|k: int| 0 <= k < s.receivers[endpoint as int].len() && s.receivers[endpoint as int][k] == t;
        assert(s.threads[s.receivers[endpoint as int][k] as int].state == (ThreadState::Receiving { endpoint }));
    }
}

/// A send or a call to an endpoint on which some thread is blocked receiving meets the
/// receiver that has waited longest: the message lands in that receiver, which becomes
/// runnable; a sender stays runnable, a caller waits for that receiver's reply, and the
/// receiver holds the one-shot right to reply to the caller.
pub proof fn lemma_waiting_receiver_is_met(
    s: IpcState,
    sender: ThreadId,
    endpoint: usize,
    message: Message,
    waiting: ThreadId,
)
    requires
        s.consistent(),
        sender < s.threads.len(),
        s.threads[sender as int].state == ThreadState::Runnable,
        endpoint < s.senders.len(),
        waiting < s.threads.len(),
        s.threads[waiting as int].state == (ThreadState::Receiving { endpoint }),
    ensures
        s.receivers[endpoint as int].len() > 0,
        ({
            let q = s.receivers[endpoint as int][0];
            let (n, r) = s.send(sender, endpoint, message);
            let (c, rc) = s.call(sender, endpoint, message);
            &&& q < s.threads.len()
            &&& q != sender
            &&& s.threads[q as int].state == (ThreadState::Receiving { endpoint })
            &&& r == Ok::<IpcOutcome, IpcError>(IpcOutcome::Delivered { peer: q })
            &&& n.threads[q as int].state == ThreadState::Runnable
            &&& n.threads[q as int].inbox == Some(message)
            &&& n.threads[sender as int].state == ThreadState::Runnable
            &&& rc == Ok::<IpcOutcome, IpcError>(IpcOutcome::Delivered { peer: q })
            &&& c.threads[q as int].state == ThreadState::Runnable
            &&& c.threads[q as int].inbox == Some(message)
            &&& c.threads[q as int].reply_target == Some(sender)
            &&& c.threads[sender as int].state == (ThreadState::ReplyBlocked { server: q })
        }),
{
    assert(s.threads[waiting as int].state == s.threads[waiting as int].state);
    let q = s.receivers[endpoint as int][0];
    assert(s.threads[q as int].state == (ThreadState::Receiving { endpoint }));
}

/// A delivered message is taken once: taking it empties the inbox, so taking again gives
/// nothing until another delivery; no thread changes state; a thread that does not exist
/// has nothing to take.
pub proof fn lemma_take_message_consumes(s: IpcState, thread: ThreadId)
    ensures
        s.take_message(thread).0.take_message(thread).1 is None,
        s.take_message(thread).0.threads.len() == s.threads.len(),
        forall|t: int|
            0 <= t < s.threads.len() ==> (#[trigger] s.take_message(thread).0.threads[t]).state
                == s.threads[t].state,
        thread >= s.threads.len() ==> s.take_message(thread).1 is None,
{
}

/// Senders are served in arrival order: when two threads block on an endpoint with no
/// sender queued before them, a receive takes the first one's message; the first is
/// released (runnable after a send, waiting for this receiver's reply after a call), and
/// the second stays blocked, alone at the head of the queue for the next receive.
pub proof fn lemma_senders_served_in_order(
    s: IpcState,
    endpoint: usize,
    first: ThreadId,
    first_calls: bool,
    first_message: Message,
    second: ThreadId,
    second_calls: bool,
    second_message: Message,
    receiver: ThreadId,
)
    requires
        s.consistent(),
        endpoint < s.senders.len(),
        s.senders[endpoint as int].len() == 0,
        first < s.threads.len(),
        second < s.threads.len(),
        receiver < s.threads.len(),
        first != second,
        receiver != first,
        receiver != second,
        s.threads[receiver as int].state == ThreadState::Runnable,
        ({
            let (a, ra) = if first_calls {
                s.call(first, endpoint, first_message)
            } else {
                s.send(first, endpoint, first_message)
            };
            let (b, rb) = if second_calls {
                a.call(second, endpoint, second_message)
            } else {
                a.send(second, endpoint, second_message)
            };
            ra == Ok::<IpcOutcome, IpcError>(IpcOutcome::Blocked) && rb == Ok::<IpcOutcome, IpcError>(
                IpcOutcome::Blocked,
            )
        }),
    ensures
        ({
            let a = if first_calls {
                s.call(first, endpoint, first_message).0
            } else {
                s.send(first, endpoint, first_message).0
            };
            let b = if second_calls {
                a.call(second, endpoint, second_message).0
            } else {
                a.send(second, endpoint, second_message).0
            };
            let (c, rc) = b.receive(receiver, endpoint);
            &&& rc == Ok::<IpcOutcome, IpcError>(IpcOutcome::Delivered { peer: first })
            &&& c.threads[receiver as int].inbox == Some(first_message)
            &&& c.threads[first as int].state == if first_calls {
                ThreadState::ReplyBlocked { server: receiver }
            } else {
                ThreadState::Runnable
            }
            &&& c.threads[second as int].state == (ThreadState::Sending { endpoint })
            &&& c.senders[endpoint as int] == seq![second]
        }),
{
    let a = if first_calls {
        s.call(first, endpoint, first_message).0
    } else {
        s.send(first, endpoint, first_message).0
    };
    let b = if second_calls {
        a.call(second, endpoint, second_message).0
    } else {
        a.send(second, endpoint, second_message).0
    };
    assert(a.senders[endpoint as int] =~= seq![first]);
    assert(b.senders[endpoint as int] =~= seq![first, second]);
    assert(b.senders[endpoint as int].drop_first() =~= seq![second]);
}

/// The one-shot reply right comes only from receiving a call: after a receive, the
/// receiver's reply target names the sender it met if that sender called, and is what it
/// was before in every other case (a plain send delivered, the receiver blocked, or the
/// receive refused).
pub proof fn lemma_receive_grants_reply_only_for_calls(s: IpcState, receiver: ThreadId, endpoint: usize)
    requires
        s.consistent(),
        receiver < s.threads.len(),
    ensures
        ({
            let (n, r) = s.receive(receiver, endpoint);
            n.threads[receiver as int].reply_target == match r {
                Ok(IpcOutcome::Delivered { peer }) => if s.threads[peer as int].is_call {
                    Some(peer)
                } else {
                    s.threads[receiver as int].reply_target
                },
                _ => s.threads[receiver as int].reply_target,
            }
        }),
        ({
            let (n, r) = s.receive(receiver, endpoint);
            r is Ok ==> n.threads[receiver as int].state == if r == Ok::<IpcOutcome, IpcError>(
                IpcOutcome::Blocked,
            ) {
                ThreadState::Receiving { endpoint }
            } else {
                s.threads[receiver as int].state
            }
        }),
{
    if s.runnable(receiver) is Ok && endpoint < s.senders.len() && s.senders[endpoint as int].len() > 0 {
        let snd = s.senders[endpoint as int][0];
        assert(s.threads[snd as int].state == (ThreadState::Sending { endpoint }));
        assert(snd != receiver);
    }
}

/// A successful reply changes nothing but the server's spent reply right and the client's
/// inbox and state: the client, named by the server's reply target, gets the reply and
/// becomes runnable, keeping its own reply target, outgoing message and call flag; every
/// other thread and every queue is untouched. A refused reply changes at most the
/// server's reply target, which it consumes.
pub proof fn lemma_reply_touches_only_server_and_client(s: IpcState, server: ThreadId, message: Message)
    requires
        s.well_formed(),
        server < s.threads.len(),
    ensures
        ({
            let (n, r) = s.reply(server, message);
            &&& n.threads.len() == s.threads.len()
            &&& n.senders == s.senders
            &&& n.receivers == s.receivers
            &&& r is Ok ==> {
                let client = s.threads[server as int].reply_target.unwrap();
                &&& s.threads[server as int].reply_target is Some
                &&& r == Ok::<IpcOutcome, IpcError>(IpcOutcome::Delivered { peer: client })
                &&& client != server
                &&& s.threads[client as int].state == (ThreadState::ReplyBlocked { server })
                &&& n.threads[client as int].inbox == Some(message)
                &&& n.threads[client as int].state == ThreadState::Runnable
                &&& n.threads[client as int].reply_target == s.threads[client as int].reply_target
                &&& n.threads[client as int].outgoing == s.threads[client as int].outgoing
                &&& n.threads[client as int].is_call == s.threads[client as int].is_call
                &&& n.threads[server as int].reply_target is None
                &&& n.threads[server as int].state == s.threads[server as int].state
                &&& n.threads[server as int].inbox == s.threads[server as int].inbox
                &&& forall|t: int|
                    0 <= t < s.threads.len() && t != client && t != server ==> n.threads[t]
                        == s.threads[t]
            }
            &&& r is Err ==> forall|t: int|
                0 <= t < s.threads.len() && t != server ==> n.threads[t] == s.threads[t]
        }),
{
    if s.runnable(server) is Ok && s.threads[server as int].reply_target is Some {
        let client = s.threads[server as int].reply_target.unwrap();
        assert(client < s.threads.len());
    }
}

impl<const THREADS: usize, const ENDPOINTS: usize> Default for RendezvousIpc<THREADS, ENDPOINTS> {
    fn default() -> (s: Self)
        ensures
            s.wf(),
            s@.consistent(),
            s@.threads.len() == THREADS,
            s@.senders.len() == ENDPOINTS,
            s@.receivers.len() == ENDPOINTS,
            forall|t: int|
                0 <= t < THREADS ==> (#[trigger] s@.threads[t]).state == ThreadState::Runnable
                    && s@.threads[t].inbox is None && s@.threads[t].reply_target is None
                    && !s@.threads[t].is_call && s@.threads[t].outgoing == empty_message(),
            forall|e: int|
                0 <= e < ENDPOINTS ==> (#[trigger] s@.senders[e]) == Seq::<ThreadId>::empty()
                    && s@.receivers[e] == Seq::<ThreadId>::empty(),
    {
        Self::new()
    }
}

} // verus!
