use aegis_microkernel::capability::{CapError, CapabilitySystem, Object, Rights};
use aegis_microkernel::syscall::{
    authorize_endpoint, authorize_frame, authorize_mmio, Syscall, SyscallError,
};

#[test]
fn syscall_numbers_are_strictly_decoded() {
    assert_eq!(Syscall::try_from(3), Ok(Syscall::Call));
    assert_eq!(Syscall::try_from(99), Err(SyscallError::Unknown));
}

#[test]
fn endpoint_and_frame_authority_are_typed() {
    let mut caps = CapabilitySystem::<2, 4, 8>::new();
    caps.create_root(0, 0, Object::Endpoint(4), Rights::all()).unwrap();
    caps.create_root(0, 1, Object::Frame(9), Rights::read()).unwrap();
    assert_eq!(authorize_endpoint(&caps, 0, 0, Rights::write()), Ok(4));
    assert_eq!(
        authorize_frame(&caps, 0, 0, Rights::read()),
        Err(SyscallError::WrongObjectType)
    );
    assert_eq!(
        authorize_frame(&caps, 0, 1, Rights::write()),
        Err(SyscallError::Capability(CapError::PermissionDenied))
    );
    assert_eq!(
        authorize_endpoint(&caps, 1, 0, Rights::read()),
        Err(SyscallError::Capability(CapError::EmptySlot))
    );
}

#[test]
fn every_syscall_number_round_trips() {
    let all = [
        Syscall::Yield,
        Syscall::Send,
        Syscall::Receive,
        Syscall::Call,
        Syscall::Reply,
        Syscall::MapFrame,
        Syscall::Mint,
        Syscall::Revoke,
    ];
    for (number, call) in all.iter().enumerate() {
        assert_eq!(call.number() as usize, number);
        assert_eq!(Syscall::try_from(number as u64), Ok(*call));
    }
    assert_eq!(Syscall::try_from(8), Err(SyscallError::Unknown));
    assert_eq!(Syscall::try_from(u64::MAX), Err(SyscallError::Unknown));
}

#[test]
fn frame_and_mmio_authority() {
    let mut caps = CapabilitySystem::<1, 3, 4>::new();
    caps.create_root(0, 0, Object::Frame(9), Rights::read()).unwrap();
    caps.create_root(
        0,
        1,
        Object::Mmio {
            base: 0x0900_0000,
            pages: 1,
        },
        Rights::write(),
    )
    .unwrap();
    assert_eq!(authorize_frame(&caps, 0, 0, Rights::read()), Ok(9));
    assert_eq!(
        authorize_mmio(&caps, 0, 1, Rights::write()),
        Ok((0x0900_0000, 1))
    );
    assert_eq!(
        authorize_mmio(&caps, 0, 0, Rights::read()),
        Err(SyscallError::WrongObjectType)
    );
    assert_eq!(
        authorize_endpoint(&caps, 0, 1, Rights::write()),
        Err(SyscallError::WrongObjectType)
    );
    assert_eq!(
        authorize_frame(&caps, 3, 0, Rights::read()),
        Err(SyscallError::Capability(CapError::BadTask))
    );
}

#[test]
fn capability_errors_convert_into_syscall_errors() {
    assert_eq!(
        SyscallError::from(CapError::Stale),
        SyscallError::Capability(CapError::Stale)
    );
}
