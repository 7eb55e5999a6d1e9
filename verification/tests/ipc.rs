use aegis_microkernel::ipc::{IpcError, IpcOutcome, Message, RendezvousIpc, ThreadState};

#[test]
fn sender_blocks_until_receiver_rendezvous() {
    let mut ipc = RendezvousIpc::<4, 2>::new();
    let message = Message {
        label: 9,
        length: 1,
        registers: [0xcafe, 0, 0, 0],
        capability_slot: None,
    };
    assert_eq!(ipc.send(0, 1, message), Ok(IpcOutcome::Blocked));
    assert_eq!(ipc.state(0), Some(ThreadState::Sending { endpoint: 1 }));
    assert_eq!(ipc.receive(1, 1), Ok(IpcOutcome::Delivered { peer: 0 }));
    assert_eq!(ipc.take_message(1), Some(message));
    assert_eq!(ipc.state(0), Some(ThreadState::Runnable));
}

#[test]
fn receiver_can_wait_first() {
    let mut ipc = RendezvousIpc::<4, 1>::new();
    let message = Message {
        label: 1,
        length: 0,
        registers: [0; 4],
        capability_slot: Some(3),
    };
    assert_eq!(ipc.receive(2, 0), Ok(IpcOutcome::Blocked));
    assert_eq!(
        ipc.send(3, 0, message),
        Ok(IpcOutcome::Delivered { peer: 2 })
    );
    assert_eq!(ipc.take_message(2), Some(message));
}

#[test]
fn call_blocks_until_one_shot_reply() {
    let mut ipc = RendezvousIpc::<3, 1>::new();
    let request = Message {
        label: 7,
        length: 1,
        registers: [42, 0, 0, 0],
        capability_slot: None,
    };
    let reply = Message {
        label: 8,
        length: 1,
        registers: [0, 0, 0, 0],
        capability_slot: None,
    };
    assert_eq!(ipc.call(2, 0, request), Ok(IpcOutcome::Blocked));
    assert_eq!(ipc.receive(1, 0), Ok(IpcOutcome::Delivered { peer: 2 }));
    assert_eq!(ipc.state(2), Some(ThreadState::ReplyBlocked { server: 1 }));
    assert_eq!(ipc.take_message(1), Some(request));
    assert_eq!(ipc.reply(1, reply), Ok(IpcOutcome::Delivered { peer: 2 }));
    assert_eq!(ipc.state(2), Some(ThreadState::Runnable));
    assert_eq!(ipc.take_message(2), Some(reply));
    assert_eq!(ipc.reply(1, reply), Err(IpcError::NoReplyTarget));
}

#[test]
fn blocked_threads_and_bad_arguments_are_refused() {
    let mut ipc = RendezvousIpc::<2, 1>::new();
    let message = Message::default();
    assert_eq!(ipc.send(2, 0, message), Err(IpcError::BadThread));
    assert_eq!(ipc.send(0, 1, message), Err(IpcError::BadEndpoint));
    assert_eq!(ipc.receive(0, 5), Err(IpcError::BadEndpoint));
    assert_eq!(ipc.send(0, 0, message), Ok(IpcOutcome::Blocked));
    assert_eq!(ipc.send(0, 0, message), Err(IpcError::ThreadNotRunnable));
    assert_eq!(ipc.reply(1, message), Err(IpcError::NoReplyTarget));
    assert_eq!(ipc.take_message(7), None);
    assert_eq!(ipc.state(7), None);
    assert_eq!(ipc.take_message(1), None);
}

#[test]
fn senders_are_served_in_arrival_order() {
    let mut ipc = RendezvousIpc::<3, 1>::new();
    let first = Message {
        label: 1,
        length: 1,
        registers: [1, 0, 0, 0],
        capability_slot: None,
    };
    let second = Message {
        label: 2,
        length: 1,
        registers: [2, 0, 0, 0],
        capability_slot: None,
    };
    assert_eq!(ipc.send(1, 0, first), Ok(IpcOutcome::Blocked));
    assert_eq!(ipc.send(2, 0, second), Ok(IpcOutcome::Blocked));
    assert_eq!(ipc.receive(0, 0), Ok(IpcOutcome::Delivered { peer: 1 }));
    assert_eq!(ipc.take_message(0), Some(first));
    assert_eq!(ipc.receive(0, 0), Ok(IpcOutcome::Delivered { peer: 2 }));
    assert_eq!(ipc.take_message(0), Some(second));
    assert_eq!(ipc.receive(0, 0), Ok(IpcOutcome::Blocked));
    assert_eq!(ipc.state(0), Some(ThreadState::Receiving { endpoint: 0 }));
}

#[test]
fn call_to_a_waiting_server_is_delivered_at_once() {
    let mut ipc = RendezvousIpc::<2, 1>::new();
    let request = Message {
        label: 3,
        length: 1,
        registers: [7, 0, 0, 0],
        capability_slot: None,
    };
    assert_eq!(ipc.receive(0, 0), Ok(IpcOutcome::Blocked));
    assert_eq!(ipc.call(1, 0, request), Ok(IpcOutcome::Delivered { peer: 0 }));
    assert_eq!(ipc.state(1), Some(ThreadState::ReplyBlocked { server: 0 }));
    assert_eq!(ipc.state(0), Some(ThreadState::Runnable));
    assert_eq!(ipc.take_message(0), Some(request));
    assert_eq!(
        ipc.reply(0, Message::default()),
        Ok(IpcOutcome::Delivered { peer: 1 })
    );
    assert_eq!(ipc.take_message(1), Some(Message::default()));
}

#[test]
fn default_message_is_all_zero() {
    let m = Message::default();
    assert_eq!(m.label, 0);
    assert_eq!(m.length, 0);
    assert_eq!(m.registers, [0; 4]);
    assert_eq!(m.capability_slot, None);
}
