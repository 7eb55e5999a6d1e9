//! Fixed-priority-free round-robin scheduling policy and saved task context.
use vstd::prelude::*;
use crate::ipc::lemma_wrap;

verus! {

pub type TaskId = usize;

/// The user-mode register state saved for a task.
#[derive(Clone, Copy, Debug, PartialEq, Eq)]
pub struct UserContext {
    pub x: [u64; 31],
    pub sp_el0: u64,
    pub elr_el1: u64,
    pub spsr_el1: u64,
    pub ttbr0_el1: u64,
}

impl UserContext {
    /// Every register zero.
    pub open spec fn is_zero(self) -> bool {
        &&& self.x@ == Seq::new(31, |i: int| 0u64)
        &&& self.sp_el0 == 0
        &&& self.elr_el1 == 0
        &&& self.spsr_el1 == 0
        &&& self.ttbr0_el1 == 0
    }

    pub fn empty() -> (c: Self)
        ensures
            c.is_zero(),
    {
        let c = Self { x: [0; 31], sp_el0: 0, elr_el1: 0, spsr_el1: 0, ttbr0_el1: 0 };
        assert(c.x@ =~= Seq::new(31, |i: int| 0u64));
        c
    }
}

#[derive(Clone, Copy, Debug, PartialEq, Eq, Structural)]
pub enum TaskState {
    Unused,
    Runnable,
    Blocked,
    Faulted,
}

/// A task slot: its state, its saved context, and how many scheduling decisions it has
/// run through.
#[derive(Clone, Copy)]
pub struct Task {
    pub state: TaskState,
    pub context: UserContext,
    pub runtime_ticks: u64,
}

fn empty_task() -> (t: Task)
    ensures
        t.state == TaskState::Unused,
        t.context.is_zero(),
        t.runtime_ticks == 0,
{
    Task { state: TaskState::Unused, context: UserContext::empty(), runtime_ticks: 0 }
}

#[derive(Clone, Copy, Debug, PartialEq, Eq, Structural)]
pub enum ScheduleError {
    NoTaskSlot,
    BadTask,
    NotRunnable,
}

#[derive(Clone, Copy, Debug, PartialEq, Eq, Structural)]
pub struct Switch {
    pub previous: Option<TaskId>,
    pub next: TaskId,
}

/// The mathematical state of the scheduler: the task slots and the running task.
#[verifier::ext_equal]
pub struct SchedState {
    pub tasks: Seq<Task>,
    pub current: Option<TaskId>,
}

impl SchedState {
    /// `i` is the first unused slot.
    pub open spec fn is_first_unused(self, i: int) -> bool {
        &&& 0 <= i < self.tasks.len()
        &&& self.tasks[i].state == TaskState::Unused
        &&& forall|j: int| 0 <= j < i ==> (#[trigger] self.tasks[j]).state != TaskState::Unused
    }

    pub open spec fn has_unused(self) -> bool {
        exists|i: int| 0 <= i < self.tasks.len() && (#[trigger] self.tasks[i]).state == TaskState::Unused
    }

    /// A new runnable task with `context` in the first unused slot.
    pub open spec fn spawn(self, context: UserContext) -> (SchedState, Result<TaskId, ScheduleError>) {
        if self.has_unused() {
            let i = choose|i: int| self.is_first_unused(i);
            (
                SchedState {
                    tasks: self.tasks.update(
                        i,
                        Task { state: TaskState::Runnable, context, runtime_ticks: 0 },
                    ),
                    ..self
                },
                Ok(i as usize),
            )
        } else {
            (self, Err(ScheduleError::NoTaskSlot))
        }
    }

    /// Where the round-robin search starts: just after the running task, or at slot 0.
    pub open spec fn start(self) -> int {
        match self.current {
            None => 0,
            Some(c) => (c + 1) % (self.tasks.len() as int),
        }
    }

    /// The slot `offset` positions after the search start, wrapping around.
    pub open spec fn candidate(self, offset: int) -> int {
        (self.start() + offset) % (self.tasks.len() as int)
    }

    pub open spec fn is_runnable(self, i: int) -> bool {
        self.tasks[i].state == TaskState::Runnable
    }

    /// `offset` is the first position, from the search start, of a runnable task.
    pub open spec fn is_next_runnable(self, offset: int) -> bool {
        &&& 0 <= offset < self.tasks.len()
        &&& self.is_runnable(self.candidate(offset))
        &&& forall|o: int| 0 <= o < offset ==> !#[trigger] self.is_runnable(self.candidate(o))
    }

    pub open spec fn has_runnable(self) -> bool {
        exists|i: int| 0 <= i < self.tasks.len() && #[trigger] self.is_runnable(i)
    }

    /// The running task is charged one tick if it is still runnable.
    pub open spec fn charged(self) -> SchedState {
        match self.current {
            Some(c) => if self.is_runnable(c as int) {
                SchedState {
                    tasks: self.tasks.update(
                        c as int,
                        Task {
                            runtime_ticks: (self.tasks[c as int].runtime_ticks + 1) as u64,
                            ..self.tasks[c as int]
                        },
                    ),
                    ..self
                }
            } else {
                self
            },
            None => self,
        }
    }

    /// Round robin: charge the running task, then switch to the first runnable task after
    /// it, wrapping around (it may be the running task itself); idle when none is runnable.
    pub open spec fn schedule(self) -> (SchedState, Option<Switch>) {
        let s1 = self.charged();
        if self.has_runnable() {
            let next = self.candidate(choose|o: int| self.is_next_runnable(o));
            (
                SchedState { current: Some(next as usize), ..s1 },
                Some(Switch { previous: self.current, next: next as usize }),
            )
        } else {
            (SchedState { current: None, ..s1 }, None)
        }
    }

    /// Set the state of a spawned task.
    pub open spec fn set_state(self, task: TaskId, state: TaskState) -> (SchedState, Result<
        (),
        ScheduleError,
    >) {
        if task >= self.tasks.len() || self.tasks[task as int].state == TaskState::Unused {
            (self, Err(ScheduleError::BadTask))
        } else {
            (
                SchedState {
                    tasks: self.tasks.update(task as int, Task { state, ..self.tasks[task as int] }),
                    ..self
                },
                Ok(()),
            )
        }
    }

    /// The state after `k` consecutive scheduling decisions.
    pub open spec fn after_schedules(self, k: nat) -> SchedState
        decreases k,
    {
        if k == 0 {
            self
        } else {
            self.schedule().0.after_schedules((k - 1) as nat)
        }
    }

    /// The running task, if any, names a slot, and slots are numbered by `usize`.
    pub open spec fn well_formed(self) -> bool {
        &&& self.tasks.len() <= usize::MAX
        &&& self.current is Some ==> self.current.unwrap() < self.tasks.len()
    }

    /// Charging the running task cannot overflow its tick counter.
    pub open spec fn can_charge(self) -> bool {
        match self.current {
            Some(c) => self.is_runnable(c as int) ==> self.tasks[c as int].runtime_ticks < u64::MAX,
            None => true,
        }
    }
}

proof fn lemma_first_unused_unique(s: SchedState, i: int)
    requires
        s.is_first_unused(i),
    ensures
        s.has_unused(),
        (choose|k: int| s.is_first_unused(k)) == i,
{
    assert(s.tasks[i].state == TaskState::Unused);
    let k = choose|k: int| s.is_first_unused(k);
    assert(s.is_first_unused(k));
    if k < i {
        assert(s.tasks[k].state != TaskState::Unused);
    }
    if i < k {
        assert(s.tasks[i].state != TaskState::Unused);
    }
}

proof fn lemma_next_runnable_unique(s: SchedState, o: int)
    requires
        s.is_next_runnable(o),
        s.tasks.len() > 0,
    ensures
        s.has_runnable(),
        (choose|p: int| s.is_next_runnable(p)) == o,
{
    vstd::arithmetic::div_mod::lemma_mod_bound(s.start() + o, s.tasks.len() as int);
    assert(s.is_runnable(s.candidate(o)));
    let p = choose|p: int| s.is_next_runnable(p);
    assert(s.is_next_runnable(p));
    if p < o {
        assert(!s.is_runnable(s.candidate(p)));
    }
    if o < p {
        assert(!s.is_runnable(s.candidate(o)));
    }
}

/// The search start lies inside the table.
proof fn lemma_start_in_range(s: SchedState)
    requires
        s.well_formed(),
        s.tasks.len() > 0,
    ensures
        0 <= s.start() < s.tasks.len(),
{
    if let Some(c) = s.current {
        if s.tasks.len() > 1 {
            lemma_wrap(c as int, 1, s.tasks.len() as int);
        } else {
            vstd::arithmetic::div_mod::lemma_mod_bound(c + 1, 1);
        }
    }
}

/// Every slot is a candidate at some offset.
proof fn lemma_candidate_covers(s: SchedState, i: int)
    requires
        s.well_formed(),
        0 <= i < s.tasks.len(),
    ensures
        ({
            let o = if i >= s.start() {
                i - s.start()
            } else {
                i + s.tasks.len() - s.start()
            };
            0 <= o < s.tasks.len() && s.candidate(o) == i
        }),
{
    lemma_start_in_range(s);
    let o = if i >= s.start() {
        i - s.start()
    } else {
        i + s.tasks.len() - s.start()
    };
    lemma_wrap(s.start(), o, s.tasks.len() as int);
}

pub struct Scheduler<const TASKS: usize> {
    tasks: [Task; TASKS],
    current: Option<TaskId>,
}

impl<const TASKS: usize> View for Scheduler<TASKS> {
    type V = SchedState;

    closed spec fn view(&self) -> SchedState {
        SchedState { tasks: self.tasks@, current: self.current }
    }
}

impl<const TASKS: usize> Scheduler<TASKS> {
    /// The state is well formed.
    pub closed spec fn wf(&self) -> bool {
        self@.well_formed()
    }

    /// The model has `TASKS` slots, and the internal invariant is exactly the model's
    /// well-formedness.
    pub proof fn lemma_view(&self)
        ensures
            self@.tasks.len() == TASKS,
            self.wf() == self@.well_formed(),
    {
    }

    /// Every slot unused, nothing running.
    pub fn new() -> (s: Self)
        ensures
            s.wf(),
            s@.tasks.len() == TASKS,
            s@.current is None,
            forall|i: int|
                0 <= i < TASKS ==> (#[trigger] s@.tasks[i]).state == TaskState::Unused
                    && s@.tasks[i].runtime_ticks == 0,
    {
        Self { tasks: [empty_task(); TASKS], current: None }
    }

    pub fn spawn(&mut self, context: UserContext) -> (r: Result<TaskId, ScheduleError>)
        requires
            old(self).wf(),
        ensures
            final(self).wf(),
            final(self)@ == old(self)@.spawn(context).0,
            r == old(self)@.spawn(context).1,
    {
        let mut id: usize = 0;
        while id < TASKS
            invariant
                id <= TASKS,
                self == old(self),
                old(self).wf(),
                forall|j: int| 0 <= j < id ==> (#[trigger] self@.tasks[j]).state != TaskState::Unused,
            decreases TASKS - id,
        {
            if self.tasks[id].state == TaskState::Unused {
                proof {
                    lemma_first_unused_unique(self@, id as int);
                }
                self.tasks[id] = Task { state: TaskState::Runnable, context, runtime_ticks: 0 };
                proof {
                    assert(self@ =~= old(self)@.spawn(context).0);
                }
                return Ok(id);
            }
            id += 1;
        }
        Err(ScheduleError::NoTaskSlot)
    }

    pub fn schedule(&mut self) -> (r: Option<Switch>)
        requires
            old(self).wf(),
            old(self)@.can_charge(),
        ensures
            final(self).wf(),
            final(self)@ == old(self)@.schedule().0,
            r == old(self)@.schedule().1,
    {
        if let Some(current) = self.current {
            if self.tasks[current].state == TaskState::Runnable {
                let mut task = self.tasks[current];
                task.runtime_ticks = task.runtime_ticks + 1;
                self.tasks[current] = task;
            }
        }
        proof {
            assert(self@.tasks =~= old(self)@.charged().tasks);
        }
        let ghost s0 = old(self)@;
        let start = match self.current {
            None => 0,
            Some(id) => (id + 1) % TASKS,
        };
        assert(start == s0.start());
        let mut offset: usize = 0;
        while offset < TASKS
            invariant
                offset <= TASKS,
                s0 == old(self)@,
                s0.well_formed(),
                s0.tasks.len() == TASKS,
                self@.tasks == s0.charged().tasks,
                self.current == s0.current,
                start == s0.start(),
                forall|o: int| 0 <= o < offset ==> !#[trigger] s0.is_runnable(s0.candidate(o)),
            decreases TASKS - offset,
        {
            proof {
                lemma_start_in_range(s0);
                lemma_wrap(start as int, offset as int, TASKS as int);
            }
            // (start + offset) % TASKS, computed without an intermediate sum that could
            // overflow
            let room = TASKS - offset;
            let candidate = if start < room {
                start + offset
            } else {
                start - room
            };
            assert(candidate == s0.candidate(offset as int));
            assert(self@.tasks[candidate as int].state == s0.tasks[candidate as int].state);
            if self.tasks[candidate].state == TaskState::Runnable {
                proof {
                    lemma_next_runnable_unique(s0, offset as int);
                }
                let switch = Switch { previous: self.current, next: candidate };
                self.current = Some(candidate);
                proof {
                    assert(self@ =~= s0.schedule().0);
                }
                return Some(switch);
            }
            offset += 1;
        }
        proof {
            assert forall|i: int| 0 <= i < TASKS implies !#[trigger] s0.is_runnable(i) by {
                lemma_candidate_covers(s0, i);
                let o = if i >= s0.start() {
                    i - s0.start()
                } else {
                    i + TASKS - s0.start()
                };
                assert(!s0.is_runnable(s0.candidate(o)));
            }
        }
        self.current = None;
        proof {
            assert(self@ =~= s0.schedule().0);
        }
        None
    }

    pub fn block(&mut self, task: TaskId) -> (r: Result<(), ScheduleError>)
        requires
            old(self).wf(),
        ensures
            final(self).wf(),
            final(self)@ == old(self)@.set_state(task, TaskState::Blocked).0,
            r == old(self)@.set_state(task, TaskState::Blocked).1,
    {
        self.set_state(task, TaskState::Blocked)
    }

    pub fn wake(&mut self, task: TaskId) -> (r: Result<(), ScheduleError>)
        requires
            old(self).wf(),
        ensures
            final(self).wf(),
            final(self)@ == old(self)@.set_state(task, TaskState::Runnable).0,
            r == old(self)@.set_state(task, TaskState::Runnable).1,
    {
        if task >= TASKS || self.tasks[task].state == TaskState::Unused {
            return Err(ScheduleError::BadTask);
        }
        let mut entry = self.tasks[task];
        entry.state = TaskState::Runnable;
        self.tasks[task] = entry;
        proof {
            assert(self@ =~= old(self)@.set_state(task, TaskState::Runnable).0);
        }
        Ok(())
    }

    pub fn fault(&mut self, task: TaskId) -> (r: Result<(), ScheduleError>)
        requires
            old(self).wf(),
        ensures
            final(self).wf(),
            final(self)@ == old(self)@.set_state(task, TaskState::Faulted).0,
            r == old(self)@.set_state(task, TaskState::Faulted).1,
    {
        self.set_state(task, TaskState::Faulted)
    }

    pub fn state(&self, task: TaskId) -> (r: Option<TaskState>)
        ensures
            r == if task < self@.tasks.len() {
                Some(self@.tasks[task as int].state)
            } else {
                None
            },
    {
        if task < TASKS {
            Some(self.tasks[task].state)
        } else {
            None
        }
    }

    pub fn runtime_ticks(&self, task: TaskId) -> (r: Option<u64>)
        ensures
            r == if task < self@.tasks.len() {
                Some(self@.tasks[task as int].runtime_ticks)
            } else {
                None
            },
    {
        if task < TASKS {
            Some(self.tasks[task].runtime_ticks)
        } else {
            None
        }
    }

    pub fn context(&self, task: TaskId) -> (r: Option<&UserContext>)
        ensures
            r == if task < self@.tasks.len() {
                Some(&self@.tasks[task as int].context)
            } else {
                None
            },
    {
        if task < TASKS {
            Some(&self.tasks[task].context)
        } else {
            None
        }
    }

    fn set_state(&mut self, task: TaskId, state: TaskState) -> (r: Result<(), ScheduleError>)
        requires
            old(self).wf(),
        ensures
            final(self).wf(),
            final(self)@ == old(self)@.set_state(task, state).0,
            r == old(self)@.set_state(task, state).1,
    {
        if task >= TASKS || self.tasks[task].state == TaskState::Unused {
            return Err(ScheduleError::BadTask);
        }
        let mut entry = self.tasks[task];
        entry.state = state;
        self.tasks[task] = entry;
        proof {
            assert(self@ =~= old(self)@.set_state(task, state).0);
        }
        Ok(())
    }
}

proof fn lemma_next_runnable_exists(s: SchedState, o: int)
    requires
        s.well_formed(),
        0 <= o < s.tasks.len(),
        s.is_runnable(s.candidate(o)),
    ensures
        s.is_next_runnable(choose|p: int| s.is_next_runnable(p)),
        (choose|p: int| s.is_next_runnable(p)) <= o,
    decreases o,
{
    if forall|p: int| 0 <= p < o ==> !#[trigger] s.is_runnable(s.candidate(p)) {
        assert(s.is_next_runnable(o));
        lemma_next_runnable_unique(s, o);
    } else {
        let p = choose|p: int| 0 <= p < o && #[trigger] s.is_runnable(s.candidate(p));
        lemma_next_runnable_exists(s, p);
    }
}

/// A scheduling decision picks a runnable task, changes no task's state, and idles
/// exactly when no task is runnable.
pub proof fn lemma_schedule_picks_runnable(s: SchedState)
    requires
        s.well_formed(),
    ensures
        s.schedule().1 is None <==> !s.has_runnable(),
        s.schedule().1 is Some ==> ({
            let next = s.schedule().1.unwrap().next;
            &&& next < s.tasks.len()
            &&& s.is_runnable(next as int)
            &&& s.schedule().0.current == Some(next)
            &&& s.schedule().1.unwrap().previous == s.current
        }),
        s.schedule().0.tasks.len() == s.tasks.len(),
        s.schedule().0.well_formed(),
        forall|i: int|
            0 <= i < s.tasks.len() ==> (#[trigger] s.schedule().0.tasks[i]).state == s.tasks[i].state,
{
    if s.has_runnable() {
        let i = choose|i: int| 0 <= i < s.tasks.len() && #[trigger] s.is_runnable(i);
        lemma_candidate_covers(s, i);
        let o = if i >= s.start() {
            i - s.start()
        } else {
            i + s.tasks.len() - s.start()
        };
        lemma_next_runnable_exists(s, o);
        let p = choose|p: int| s.is_next_runnable(p);
        lemma_start_in_range(s);
        vstd::arithmetic::div_mod::lemma_mod_bound(s.start() + p, s.tasks.len() as int);
    }
}

/// Spawning fills the first unused slot with a runnable task that has run for no ticks,
/// and answers that slot's number.
pub proof fn lemma_spawn_takes_first_unused(s: SchedState, context: UserContext, i: int)
    requires
        s.is_first_unused(i),
    ensures
        s.spawn(context).1 == Ok::<TaskId, ScheduleError>(i as usize),
        s.spawn(context).0 == (SchedState {
            tasks: s.tasks.update(i, Task { state: TaskState::Runnable, context, runtime_ticks: 0 }),
            ..s
        }),
{
    lemma_first_unused_unique(s, i);
}

/// A scheduling decision switches to the first runnable task in round-robin order after
/// the running one, after charging the running task.
pub proof fn lemma_schedule_takes_next_runnable(s: SchedState, offset: int)
    requires
        s.is_next_runnable(offset),
    ensures
        s.schedule().1 == Some(Switch { previous: s.current, next: s.candidate(offset) as usize }),
        s.schedule().0 == (SchedState { current: Some(s.candidate(offset) as usize), ..s.charged() }),
{
    lemma_next_runnable_unique(s, offset);
}

/// A scheduling decision moves the search start to just after the chosen task: the
/// candidates of the next decision are those of this one that follow offset `p`.
proof fn lemma_candidates_after_schedule(s: SchedState, p: int, j: int)
    requires
        s.well_formed(),
        s.is_next_runnable(p),
        0 <= j,
        p + 1 + j < s.tasks.len(),
    ensures
        s.schedule().0.candidate(j) == s.candidate(p + 1 + j),
        s.schedule().0.well_formed(),
{
    let n = s.tasks.len() as int;
    lemma_start_in_range(s);
    lemma_schedule_takes_next_runnable(s, p);
    let s1 = s.schedule().0;
    let a = s.start() + p;
    vstd::arithmetic::div_mod::lemma_mod_bound(a, n);
    assert(s1.current == Some((a % n) as usize));
    assert(s1.start() == (a % n + 1) % n);
    vstd::arithmetic::div_mod::lemma_add_mod_noop(a % n + 1, j, n);
    vstd::arithmetic::div_mod::lemma_small_mod(j as nat, n as nat);
    vstd::arithmetic::div_mod::lemma_mod_bound(a % n + 1, n);
    vstd::arithmetic::div_mod::lemma_small_mod((a % n) as nat, n as nat);
    assert((a % n) % n == a % n);
    vstd::arithmetic::div_mod::lemma_add_mod_noop(a % n, 1 + j, n);
    vstd::arithmetic::div_mod::lemma_add_mod_noop(a, 1 + j, n);
    vstd::arithmetic::div_mod::lemma_small_mod((1 + j) as nat, n as nat);
}

/// How many of the candidates at offsets `lo..hi` are runnable.
pub open spec fn runnable_offsets(s: SchedState, lo: int, hi: int) -> nat
    decreases hi - lo,
{
    if hi <= lo {
        0
    } else {
        runnable_offsets(s, lo, hi - 1) + if s.is_runnable(s.candidate(hi - 1)) {
            1nat
        } else {
            0nat
        }
    }
}

/// How many of the slots `lo..hi` hold a runnable task.
pub open spec fn runnable_slots(s: SchedState, lo: int, hi: int) -> nat
    decreases hi - lo,
{
    if hi <= lo {
        0
    } else {
        runnable_slots(s, lo, hi - 1) + if s.is_runnable(hi - 1) {
            1nat
        } else {
            0nat
        }
    }
}

impl SchedState {
    /// The number of runnable tasks.
    pub open spec fn runnable_count(self) -> nat {
        runnable_slots(self, 0, self.tasks.len() as int)
    }
}

proof fn lemma_offsets_split(s: SchedState, lo: int, mid: int, hi: int)
    requires
        lo <= mid <= hi,
    ensures
        runnable_offsets(s, lo, hi) == runnable_offsets(s, lo, mid) + runnable_offsets(s, mid, hi),
    decreases hi - mid,
{
    if hi > mid {
        lemma_offsets_split(s, lo, mid, hi - 1);
    }
}

proof fn lemma_slots_split(s: SchedState, lo: int, mid: int, hi: int)
    requires
        lo <= mid <= hi,
    ensures
        runnable_slots(s, lo, hi) == runnable_slots(s, lo, mid) + runnable_slots(s, mid, hi),
    decreases hi - mid,
{
    if hi > mid {
        lemma_slots_split(s, lo, mid, hi - 1);
    }
}

/// Offsets whose candidates are the slots shifted by `d` count the same runnable tasks.
proof fn lemma_offsets_are_shifted_slots(s: SchedState, lo: int, hi: int, d: int)
    requires
        forall|j: int| lo <= j < hi ==> #[trigger] s.candidate(j) == j + d,
    ensures
        runnable_offsets(s, lo, hi) == runnable_slots(s, lo + d, hi + d),
    decreases hi - lo,
{
    if hi > lo {
        lemma_offsets_are_shifted_slots(s, lo, hi - 1, d);
        assert(s.candidate(hi - 1) == hi - 1 + d);
    }
}

/// Offsets of one state whose candidates are those of another, shifted by `d`, with the
/// same tasks runnable, count the same runnable tasks.
proof fn lemma_offsets_shift(s: SchedState, s1: SchedState, lo: int, hi: int, d: int)
    requires
        forall|j: int|
            lo <= j < hi ==> #[trigger] s1.is_runnable(s1.candidate(j)) == s.is_runnable(
                s.candidate(j + d),
            ),
    ensures
        runnable_offsets(s1, lo, hi) == runnable_offsets(s, lo + d, hi + d),
    decreases hi - lo,
{
    if hi > lo {
        lemma_offsets_shift(s, s1, lo, hi - 1, d);
        assert(s1.is_runnable(s1.candidate(hi - 1)) == s.is_runnable(s.candidate(hi - 1 + d)));
    }
}

/// The candidates at offsets `0..n` are all the slots, so they count every runnable task.
proof fn lemma_offsets_cover_slots(s: SchedState)
    requires
        s.well_formed(),
        s.tasks.len() > 0,
    ensures
        runnable_offsets(s, 0, s.tasks.len() as int) == s.runnable_count(),
{
    let n = s.tasks.len() as int;
    let st = s.start();
    lemma_start_in_range(s);
    assert forall|j: int| 0 <= j < n - st implies #[trigger] s.candidate(j) == j + st by {
        vstd::arithmetic::div_mod::lemma_small_mod((st + j) as nat, n as nat);
    }
    assert forall|j: int| n - st <= j < n implies #[trigger] s.candidate(j) == j + st - n by {
        vstd::arithmetic::div_mod::lemma_small_mod((st + j - n) as nat, n as nat);
        vstd::arithmetic::div_mod::lemma_mod_sub_multiples_vanish(st + j, n);
    }
    lemma_offsets_split(s, 0, n - st, n);
    lemma_offsets_are_shifted_slots(s, 0, n - st, st);
    lemma_offsets_are_shifted_slots(s, n - st, n, st - n);
    lemma_slots_split(s, 0, st, n);
}

/// No runnable candidate before the first runnable one, which counts once.
proof fn lemma_offsets_to_first_runnable(s: SchedState, p: int, k: int)
    requires
        s.is_next_runnable(p),
        0 <= k <= p,
    ensures
        runnable_offsets(s, 0, k) == 0,
        k == p ==> runnable_offsets(s, 0, p + 1) == 1,
    decreases k,
{
    if k > 0 {
        lemma_offsets_to_first_runnable(s, p, k - 1);
        assert(!s.is_runnable(s.candidate(k - 1)));
    }
    if k == p {
        assert(runnable_offsets(s, 0, p + 1) == runnable_offsets(s, 0, p) + 1);
    }
}

/// Distinct offsets below the table size name distinct slots.
proof fn lemma_candidates_distinct(s: SchedState, p: int, o: int)
    requires
        s.well_formed(),
        0 <= p < o < s.tasks.len(),
    ensures
        s.candidate(p) != s.candidate(o),
{
    let n = s.tasks.len() as int;
    let st = s.start();
    lemma_start_in_range(s);
    if p < n - st {
        vstd::arithmetic::div_mod::lemma_small_mod((st + p) as nat, n as nat);
    } else {
        vstd::arithmetic::div_mod::lemma_small_mod((st + p - n) as nat, n as nat);
        vstd::arithmetic::div_mod::lemma_mod_sub_multiples_vanish(st + p, n);
    }
    if o < n - st {
        vstd::arithmetic::div_mod::lemma_small_mod((st + o) as nat, n as nat);
    } else {
        vstd::arithmetic::div_mod::lemma_small_mod((st + o - n) as nat, n as nat);
        vstd::arithmetic::div_mod::lemma_mod_sub_multiples_vanish(st + o, n);
    }
}

/// `a + b` decisions are `a` decisions followed by `b` more.
proof fn lemma_after_schedules_split(s: SchedState, a: nat, b: nat)
    ensures
        s.after_schedules(a + b) == s.after_schedules(a).after_schedules(b),
    decreases a,
{
    if a > 0 {
        lemma_after_schedules_split(s.schedule().0, (a - 1) as nat, b);
        assert((a + b - 1) as nat == ((a - 1) as nat + b));
    }
}

/// Scheduling decisions keep the state well formed and change no task's state.
proof fn lemma_after_schedules_keep_states(s: SchedState, k: nat)
    requires
        s.well_formed(),
    ensures
        s.after_schedules(k).well_formed(),
        s.after_schedules(k).tasks.len() == s.tasks.len(),
        forall|i: int|
            0 <= i < s.tasks.len() ==> (#[trigger] s.after_schedules(k).tasks[i]).state
                == s.tasks[i].state,
    decreases k,
{
    if k > 0 {
        lemma_schedule_picks_runnable(s);
        lemma_after_schedules_keep_states(s.schedule().0, (k - 1) as nat);
    }
}

/// States whose tasks are in the same states have the same runnable slots.
proof fn lemma_runnable_slots_same(s: SchedState, s1: SchedState, lo: int, hi: int)
    requires
        0 <= lo,
        hi <= s.tasks.len(),
        forall|i: int| 0 <= i < s.tasks.len() ==> (#[trigger] s1.tasks[i]).state == s.tasks[i].state,
    ensures
        runnable_slots(s1, lo, hi) == runnable_slots(s, lo, hi),
    decreases hi - lo,
{
    if hi > lo {
        lemma_runnable_slots_same(s, s1, lo, hi - 1);
        assert(s1.tasks[hi - 1].state == s.tasks[hi - 1].state);
    }
}

/// A runnable task at offset `o` is first chosen by decision number
/// `1 + runnable_offsets(s, 0, o)`: each runnable task at a smaller offset is chosen once
/// before it, in order.
proof fn lemma_fair_from_offset(s: SchedState, t: int, o: int)
    requires
        s.well_formed(),
        0 <= o < s.tasks.len(),
        s.candidate(o) == t,
        s.is_runnable(t),
    ensures
        s.after_schedules((1 + runnable_offsets(s, 0, o)) as nat).current == Some(t as usize),
        forall|j: nat|
            1 <= j < 1 + runnable_offsets(s, 0, o) ==> (#[trigger] s.after_schedules(j)).current
                != Some(t as usize),
    decreases o,
{
    lemma_start_in_range(s);
    lemma_next_runnable_exists(s, o);
    lemma_schedule_picks_runnable(s);
    let p = choose|q: int| s.is_next_runnable(q);
    let s1 = s.schedule().0;
    lemma_schedule_takes_next_runnable(s, p);
    assert(s.after_schedules(1) == s1.after_schedules(0));
    lemma_offsets_to_first_runnable(s, p, p);
    if p == o {
        assert(s.after_schedules(1).current == Some(t as usize));
    } else {
        let q = o - p - 1;
        assert forall|j: int| 0 <= j < q implies #[trigger] s1.is_runnable(s1.candidate(j))
            == s.is_runnable(s.candidate(j + (p + 1))) by {
            lemma_candidates_after_schedule(s, p, j);
            let c = s.candidate(j + (p + 1));
            vstd::arithmetic::div_mod::lemma_mod_bound(s.start() + j + p + 1, s.tasks.len() as int);
            assert(s1.tasks[c].state == s.tasks[c].state);
        }
        lemma_candidates_after_schedule(s, p, q);
        assert(s1.candidate(q) == t);
        assert(s1.is_runnable(t));
        lemma_fair_from_offset(s1, t, q);
        let k1 = (1 + runnable_offsets(s1, 0, q)) as nat;
        assert(s.after_schedules(k1 + 1) == s1.after_schedules(k1));
        lemma_offsets_shift(s, s1, 0, q, p + 1);
        lemma_offsets_split(s, 0, p + 1, o);
        assert(1 + runnable_offsets(s, 0, o) == k1 + 1);
        lemma_candidates_distinct(s, p, o);
        assert forall|j: nat|
            1 <= j < 1 + runnable_offsets(s, 0, o) implies (#[trigger] s.after_schedules(j)).current
            != Some(t as usize) by {
            if j == 1 {
                assert(s.after_schedules(1).current == Some(s.candidate(p) as usize));
                vstd::arithmetic::div_mod::lemma_mod_bound(s.start() + p, s.tasks.len() as int);
                vstd::arithmetic::div_mod::lemma_mod_bound(s.start() + o, s.tasks.len() as int);
            } else {
                assert(s.after_schedules(j) == s1.after_schedules((j - 1) as nat));
                assert(s1.after_schedules((j - 1) as nat).current != Some(t as usize));
            }
        }
    }
}

/// Round robin is fair: with no task blocked or woken in between, every runnable task is
/// chosen exactly once in the next round of as many scheduling decisions as there are
/// runnable tasks.
pub proof fn lemma_round_robin_is_fair(s: SchedState, t: int)
    requires
        s.well_formed(),
        0 <= t < s.tasks.len(),
        s.is_runnable(t),
    ensures
        exists|k: nat|
            1 <= k <= s.runnable_count() && #[trigger] s.after_schedules(k).current == Some(
                t as usize,
            ),
        forall|k1: nat, k2: nat|
            1 <= k1 <= s.runnable_count() && 1 <= k2 <= s.runnable_count() && (#[trigger] s.after_schedules(k1)).current
                == Some(t as usize) && (#[trigger] s.after_schedules(k2)).current == Some(
                t as usize,
            ) ==> k1 == k2,
        s.runnable_count() <= s.tasks.len(),
{
    lemma_candidate_covers(s, t);
    let n = s.tasks.len() as int;
    let o = if t >= s.start() {
        t - s.start()
    } else {
        t + n - s.start()
    };
    lemma_fair_from_offset(s, t, o);
    lemma_offsets_cover_slots(s);
    lemma_offsets_split(s, 0, o, n);
    lemma_offsets_split(s, o, o + 1, n);
    lemma_runnable_slots_bound(s, 0, n);
    let k0 = (1 + runnable_offsets(s, 0, o)) as nat;
    assert(s.after_schedules(k0).current == Some(t as usize));
    // from the state just after t is chosen, t is chosen again only a full round later
    let s2 = s.after_schedules(k0);
    lemma_after_schedules_keep_states(s, k0);
    lemma_runnable_slots_same(s, s2, 0, n);
    assert(s2.start() == (t + 1) % n);
    if t + 1 < n {
        vstd::arithmetic::div_mod::lemma_small_mod((t + 1) as nat, n as nat);
        vstd::arithmetic::div_mod::lemma_mod_sub_multiples_vanish(t + 1 + n - 1, n);
        vstd::arithmetic::div_mod::lemma_small_mod(t as nat, n as nat);
    } else {
        vstd::arithmetic::div_mod::lemma_mod_self_0(n);
        vstd::arithmetic::div_mod::lemma_small_mod((n - 1) as nat, n as nat);
    }
    assert(s2.candidate(n - 1) == t);
    assert(s2.is_runnable(t));
    lemma_fair_from_offset(s2, t, n - 1);
    lemma_offsets_cover_slots(s2);
    lemma_offsets_split(s2, 0, n - 1, n);
    assert(runnable_offsets(s2, n - 1, n) == 1);
    assert(1 + runnable_offsets(s2, 0, n - 1) == s.runnable_count());
    assert forall|k1: nat, k2: nat|
        1 <= k1 <= s.runnable_count() && 1 <= k2 <= s.runnable_count() && (#[trigger] s.after_schedules(k1)).current
            == Some(t as usize) && (#[trigger] s.after_schedules(k2)).current == Some(t as usize)
        implies k1 == k2 by {
        assert forall|k: nat|
            1 <= k <= s.runnable_count() && s.after_schedules(k).current == Some(t as usize)
            implies k == k0 by {
            if k > k0 {
                let m = (k - k0) as nat;
                lemma_after_schedules_split(s, k0, m);
                assert(s.after_schedules(k) == s2.after_schedules(m));
                assert(s2.after_schedules(m).current != Some(t as usize));
            }
        }
    }
}

/// With no task blocked or woken in between, every scheduling decision while some task is
/// runnable switches to a runnable task: blocked, faulted and unused slots are never
/// chosen. Together with fairness, a round of as many decisions as there are runnable
/// tasks chooses exactly the runnable tasks, each once.
pub proof fn lemma_every_decision_picks_runnable(s: SchedState, k: nat)
    requires
        s.well_formed(),
        s.has_runnable(),
        k >= 1,
    ensures
        s.after_schedules(k).current is Some,
        s.after_schedules(k).current.unwrap() < s.tasks.len(),
        s.is_runnable(s.after_schedules(k).current.unwrap() as int),
{
    let prev = s.after_schedules((k - 1) as nat);
    lemma_after_schedules_keep_states(s, (k - 1) as nat);
    lemma_after_schedules_split(s, (k - 1) as nat, 1);
    assert((k - 1) as nat + 1 == k);
    assert(prev.after_schedules(1) == prev.schedule().0.after_schedules(0));
    let i = choose|i: int| 0 <= i < s.tasks.len() && #[trigger] s.is_runnable(i);
    assert(prev.tasks[i].state == s.tasks[i].state);
    assert(prev.is_runnable(i));
    lemma_schedule_picks_runnable(prev);
    let c = prev.schedule().1.unwrap().next as int;
    assert(prev.tasks[c].state == s.tasks[c].state);
}

/// Blocking, waking or faulting a spawned task always succeeds, whether or not it is the
/// running task: it sets exactly that task's state and leaves the running task, the other
/// tasks and the task's context and ticks alone. Only a task that does not exist or was
/// never spawned is refused, with `BadTask`, and nothing changes.
pub proof fn lemma_set_state_succeeds_on_spawned_tasks(s: SchedState, task: TaskId, state: TaskState)
    ensures
        ({
            let (n, r) = s.set_state(task, state);
            if task < s.tasks.len() && s.tasks[task as int].state != TaskState::Unused {
                &&& r == Ok::<(), ScheduleError>(())
                &&& n.current == s.current
                &&& n.tasks.len() == s.tasks.len()
                &&& n.tasks[task as int].state == state
                &&& n.tasks[task as int].context == s.tasks[task as int].context
                &&& n.tasks[task as int].runtime_ticks == s.tasks[task as int].runtime_ticks
                &&& forall|i: int| 0 <= i < s.tasks.len() && i != task ==> n.tasks[i] == s.tasks[i]
            } else {
                r == Err::<(), ScheduleError>(ScheduleError::BadTask) && n == s
            }
        }),
{
}

proof fn lemma_runnable_slots_bound(s: SchedState, lo: int, hi: int)
    requires
        lo <= hi,
    ensures
        runnable_slots(s, lo, hi) <= hi - lo,
    decreases hi - lo,
{
    if hi > lo {
        lemma_runnable_slots_bound(s, lo, hi - 1);
    }
}

impl<const TASKS: usize> Default for Scheduler<TASKS> {
    fn default() -> (s: Self)
        ensures
            s.wf(),
            s@.tasks.len() == TASKS,
            s@.current is None,
            forall|i: int|
                0 <= i < TASKS ==> (#[trigger] s@.tasks[i]).state == TaskState::Unused
                    && s@.tasks[i].runtime_ticks == 0,
    {
        Self::new()
    }
}

} // verus!
