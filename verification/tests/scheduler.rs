use aegis_microkernel::scheduler::{ScheduleError, Scheduler, Switch, TaskState, UserContext};

#[test]
fn round_robin_is_fair_and_skips_blocked_tasks() {
    let mut scheduler = Scheduler::<4>::new();
    let a = scheduler.spawn(UserContext::empty()).unwrap();
    let b = scheduler.spawn(UserContext::empty()).unwrap();
    let c = scheduler.spawn(UserContext::empty()).unwrap();
    assert_eq!(scheduler.schedule().unwrap().next, a);
    assert_eq!(scheduler.schedule().unwrap().next, b);
    scheduler.block(c).unwrap();
    assert_eq!(scheduler.schedule().unwrap().next, a);
    assert_eq!(scheduler.schedule().unwrap().next, b);
    scheduler.wake(c).unwrap();
    assert_eq!(scheduler.schedule().unwrap().next, c);
}

#[test]
fn no_runnable_task_returns_idle() {
    let mut scheduler = Scheduler::<1>::new();
    let task = scheduler.spawn(UserContext::empty()).unwrap();
    scheduler.block(task).unwrap();
    assert_eq!(scheduler.schedule(), None);
}

#[test]
fn spawn_fills_slots_then_reports_none_left() {
    let mut scheduler = Scheduler::<2>::new();
    let mut context = UserContext::empty();
    context.x[0] = 7;
    context.sp_el0 = 0x8000;
    assert_eq!(scheduler.spawn(context), Ok(0));
    assert_eq!(scheduler.spawn(UserContext::empty()), Ok(1));
    assert_eq!(
        scheduler.spawn(UserContext::empty()),
        Err(ScheduleError::NoTaskSlot)
    );
    assert_eq!(scheduler.context(0), Some(&context));
    assert_eq!(scheduler.context(2), None);
    assert_eq!(scheduler.state(1), Some(TaskState::Runnable));
    assert_eq!(scheduler.state(2), None);
}

#[test]
fn switches_report_previous_task_and_ticks_are_charged() {
    let mut scheduler = Scheduler::<3>::new();
    let a = scheduler.spawn(UserContext::empty()).unwrap();
    let b = scheduler.spawn(UserContext::empty()).unwrap();
    assert_eq!(
        scheduler.schedule(),
        Some(Switch {
            previous: None,
            next: a
        })
    );
    assert_eq!(
        scheduler.schedule(),
        Some(Switch {
            previous: Some(a),
            next: b
        })
    );
    assert_eq!(scheduler.runtime_ticks(a), Some(1));
    assert_eq!(scheduler.runtime_ticks(b), Some(0));
    scheduler.fault(a).unwrap();
    assert_eq!(
        scheduler.schedule(),
        Some(Switch {
            previous: Some(b),
            next: b
        })
    );
    assert_eq!(scheduler.runtime_ticks(b), Some(1));
    assert_eq!(scheduler.state(a), Some(TaskState::Faulted));
    assert_eq!(scheduler.runtime_ticks(5), None);
}

#[test]
fn state_changes_need_a_spawned_task() {
    let mut scheduler = Scheduler::<2>::new();
    assert_eq!(scheduler.block(0), Err(ScheduleError::BadTask));
    assert_eq!(scheduler.wake(0), Err(ScheduleError::BadTask));
    assert_eq!(scheduler.fault(3), Err(ScheduleError::BadTask));
    let t = scheduler.spawn(UserContext::empty()).unwrap();
    scheduler.fault(t).unwrap();
    scheduler.wake(t).unwrap();
    assert_eq!(scheduler.state(t), Some(TaskState::Runnable));
}

#[test]
fn every_runnable_task_is_reached_within_one_round() {
    let mut scheduler = Scheduler::<4>::new();
    for _ in 0..4 {
        scheduler.spawn(UserContext::empty()).unwrap();
    }
    scheduler.block(1).unwrap();
    let mut seen = [false; 4];
    for _ in 0..4 {
        seen[scheduler.schedule().unwrap().next] = true;
    }
    assert_eq!(seen, [true, false, true, true]);
}

#[test]
fn empty_context_is_all_zero() {
    let context = UserContext::empty();
    assert_eq!(context.x, [0; 31]);
    assert_eq!(context.sp_el0, 0);
    assert_eq!(context.elr_el1, 0);
    assert_eq!(context.spsr_el1, 0);
    assert_eq!(context.ttbr0_el1, 0);
}

#[test]
fn runnable_tasks_each_run_once_per_round_of_runnable_tasks() {
    let mut scheduler = Scheduler::<4>::new();
    for _ in 0..4 {
        scheduler.spawn(UserContext::empty()).unwrap();
    }
    scheduler.block(0).unwrap();
    scheduler.block(2).unwrap();
    // two runnable tasks: each is chosen within any two consecutive decisions
    let picks: Vec<usize> = (0..4).map(|_| scheduler.schedule().unwrap().next).collect();
    assert_eq!(picks, vec![1, 3, 1, 3]);
}
