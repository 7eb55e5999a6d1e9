use aegis_microkernel::capability::CapError;
use aegis_microkernel::ipc::{IpcError, ThreadState};
use aegis_microkernel::runtime::{
    app_call, console_reply_and_revoke, initialize, Runtime, RuntimeError, APP_TASK, CONSOLE_TASK,
};
use aegis_microkernel::syscall::SyscallError;

#[test]
fn live_call_succeeds_then_root_revocation_blocks_retry() {
    let mut runtime = Runtime::empty();
    runtime.bootstrap().unwrap();
    runtime.app_call(b'A').unwrap();
    assert_eq!(
        runtime.ipc().state(APP_TASK),
        Some(ThreadState::ReplyBlocked {
            server: CONSOLE_TASK
        })
    );
    assert_eq!(runtime.console_reply_and_revoke(), Ok((b'A', 2)));
    assert_eq!(runtime.ipc().state(APP_TASK), Some(ThreadState::Runnable));
    assert!(matches!(
        runtime.app_call(b'B'),
        Err(RuntimeError::Syscall(SyscallError::Capability(
            CapError::EmptySlot
        )))
    ));
}

#[test]
fn turns_are_enforced() {
    let mut runtime = Runtime::empty();
    initialize(&mut runtime).unwrap();
    assert_eq!(
        console_reply_and_revoke(&mut runtime),
        Err(RuntimeError::WrongTask)
    );
    app_call(&mut runtime, b'x').unwrap();
    assert_eq!(app_call(&mut runtime, b'y'), Err(RuntimeError::WrongTask));
    assert_eq!(console_reply_and_revoke(&mut runtime), Ok((b'x', 2)));
}

#[test]
fn bootstrap_twice_finds_occupied_slots() {
    let mut runtime = Runtime::empty();
    runtime.bootstrap().unwrap();
    assert_eq!(
        runtime.bootstrap(),
        Err(RuntimeError::Capability(CapError::DestinationOccupied))
    );
    // initialize starts afresh
    assert_eq!(initialize(&mut runtime), Ok(()));
}

#[test]
fn calls_without_capabilities_are_denied() {
    let mut runtime = Runtime::empty();
    assert_eq!(
        runtime.app_call(b'z'),
        Err(RuntimeError::Syscall(SyscallError::Capability(
            CapError::EmptySlot
        )))
    );
}

#[test]
fn runtime_errors_convert_from_component_errors() {
    assert_eq!(
        RuntimeError::from(IpcError::QueueFull),
        RuntimeError::Ipc(IpcError::QueueFull)
    );
    assert_eq!(
        RuntimeError::from(CapError::OutOfNodes),
        RuntimeError::Capability(CapError::OutOfNodes)
    );
    assert_eq!(
        RuntimeError::from(SyscallError::Unknown),
        RuntimeError::Syscall(SyscallError::Unknown)
    );
}
