//! Capability-authorized syscall decoding.
use vstd::prelude::*;
use crate::capability::{
    CapError,
    CapabilitySystem,
    Object,
    Rights,
    TaskId,
    lemma_resolve_carries_required_rights,
};

verus! {

/// The syscall numbers, in order: `Yield` is 0 and `Revoke` is 7.
#[derive(Clone, Copy, Debug, PartialEq, Eq, Structural)]
pub enum Syscall {
    Yield,
    Send,
    Receive,
    Call,
    Reply,
    MapFrame,
    Mint,
    Revoke,
}

#[derive(Clone, Copy, Debug, PartialEq, Eq, Structural)]
pub enum SyscallError {
    Unknown,
    Capability(CapError),
    WrongObjectType,
}

impl Syscall {
    /// The syscall with number `value`; every other number is `Unknown`.
    pub open spec fn decode(value: u64) -> Result<Syscall, SyscallError> {
        if value == 0 {
            Ok(Syscall::Yield)
        } else if value == 1 {
            Ok(Syscall::Send)
        } else if value == 2 {
            Ok(Syscall::Receive)
        } else if value == 3 {
            Ok(Syscall::Call)
        } else if value == 4 {
            Ok(Syscall::Reply)
        } else if value == 5 {
            Ok(Syscall::MapFrame)
        } else if value == 6 {
            Ok(Syscall::Mint)
        } else if value == 7 {
            Ok(Syscall::Revoke)
        } else {
            Err(SyscallError::Unknown)
        }
    }

    /// The number of a syscall.
    pub open spec fn code(self) -> u16 {
        match self {
            Syscall::Yield => 0,
            Syscall::Send => 1,
            Syscall::Receive => 2,
            Syscall::Call => 3,
            Syscall::Reply => 4,
            Syscall::MapFrame => 5,
            Syscall::Mint => 6,
            Syscall::Revoke => 7,
        }
    }

    /// The syscall's number.
    pub fn number(self) -> (n: u16)
        ensures
            n == self.code(),
    {
        match self {
            Syscall::Yield => 0,
            Syscall::Send => 1,
            Syscall::Receive => 2,
            Syscall::Call => 3,
            Syscall::Reply => 4,
            Syscall::MapFrame => 5,
            Syscall::Mint => 6,
            Syscall::Revoke => 7,
        }
    }
}

impl TryFrom<u64> for Syscall {
    type Error = SyscallError;

    fn try_from(value: u64) -> (r: Result<Syscall, SyscallError>) {
        match value {
            0 => Ok(Syscall::Yield),
            1 => Ok(Syscall::Send),
            2 => Ok(Syscall::Receive),
            3 => Ok(Syscall::Call),
            4 => Ok(Syscall::Reply),
            5 => Ok(Syscall::MapFrame),
            6 => Ok(Syscall::Mint),
            7 => Ok(Syscall::Revoke),
            _ => Err(SyscallError::Unknown),
        }
    }
}

impl vstd::std_specs::convert::TryFromSpecImpl<u64> for Syscall {
    open spec fn obeys_try_from_spec() -> bool {
        true
    }

    open spec fn try_from_spec(value: u64) -> Result<Syscall, SyscallError> {
        Syscall::decode(value)
    }
}

impl From<CapError> for SyscallError {
    fn from(value: CapError) -> (r: SyscallError) {
        SyscallError::Capability(value)
    }
}

impl vstd::std_specs::convert::FromSpecImpl<CapError> for SyscallError {
    open spec fn obeys_from_spec() -> bool {
        true
    }

    open spec fn from_spec(value: CapError) -> SyscallError {
        SyscallError::Capability(value)
    }
}

/// Decoding is strict and exact: every syscall's number decodes to it, and a number
/// decodes only to the syscall that carries it.
pub proof fn lemma_decode_inverts_number(call: Syscall, value: u64)
    ensures
        Syscall::decode(call.code() as u64) == Ok::<Syscall, SyscallError>(call),
        Syscall::decode(value) is Ok ==> Syscall::decode(value).unwrap().code() == value,
        Syscall::decode(value) is Err <==> value > 7,
{
}

/// The result of a typed authorization: the capability error, the kernel object the
/// selector picks out of the resolved capability, or `WrongObjectType`.
pub open spec fn authorized<T>(
    resolved: Result<crate::capability::ResolvedCapability, CapError>,
    select: spec_fn(Object) -> Option<T>,
) -> Result<T, SyscallError> {
    match resolved {
        Err(e) => Err(SyscallError::Capability(e)),
        Ok(c) => match select(c.object) {
            Some(x) => Ok(x),
            None => Err(SyscallError::WrongObjectType),
        },
    }
}

/// The endpoint number an object names, if it is an endpoint.
pub open spec fn endpoint_of(object: Object) -> Option<u16> {
    match object {
        Object::Endpoint(e) => Some(e),
        _ => None,
    }
}

/// The frame number an object names, if it is a frame.
pub open spec fn frame_of(object: Object) -> Option<u32> {
    match object {
        Object::Frame(f) => Some(f),
        _ => None,
    }
}

/// Authorize an endpoint operation: the caller's slot must hold an endpoint capability
/// carrying the required rights.
pub fn authorize_endpoint<const TASKS: usize, const SLOTS: usize, const NODES: usize>(
    capabilities: &CapabilitySystem<TASKS, SLOTS, NODES>,
    caller: TaskId,
    slot: usize,
    required: Rights,
) -> (r: Result<u16, SyscallError>)
    requires
        capabilities.wf(),
    ensures
        r == authorized(
            capabilities@.resolve(caller as int, slot as int, required),
            |o: Object| endpoint_of(o),
        ),
        r is Ok ==> capabilities@.resolve(caller as int, slot as int, required).unwrap().object
            == Object::Endpoint(r.unwrap()),
        r is Ok ==> capabilities@.resolve(
            caller as int,
            slot as int,
            required,
        ).unwrap().rights.includes(required),
{
    match capabilities.resolve(caller, slot, required) {
        Err(e) => Err(SyscallError::Capability(e)),
        Ok(resolved) => {
            proof {
                lemma_resolve_carries_required_rights(
                    capabilities@,
                    caller as int,
                    slot as int,
                    required,
                );
            }
            match resolved.object {
                Object::Endpoint(endpoint) => Ok(endpoint),
                _ => Err(SyscallError::WrongObjectType),
            }
        },
    }
}

/// Authorize a frame operation: the caller's slot must hold a frame capability carrying
/// the required rights.
pub fn authorize_frame<const TASKS: usize, const SLOTS: usize, const NODES: usize>(
    capabilities: &CapabilitySystem<TASKS, SLOTS, NODES>,
    caller: TaskId,
    slot: usize,
    required: Rights,
) -> (r: Result<u32, SyscallError>)
    requires
        capabilities.wf(),
    ensures
        r == authorized(
            capabilities@.resolve(caller as int, slot as int, required),
            |o: Object| frame_of(o),
        ),
        r is Ok ==> capabilities@.resolve(caller as int, slot as int, required).unwrap().object
            == Object::Frame(r.unwrap()),
        r is Ok ==> capabilities@.resolve(
            caller as int,
            slot as int,
            required,
        ).unwrap().rights.includes(required),
{
    match capabilities.resolve(caller, slot, required) {
        Err(e) => Err(SyscallError::Capability(e)),
        Ok(resolved) => {
            proof {
                lemma_resolve_carries_required_rights(
                    capabilities@,
                    caller as int,
                    slot as int,
                    required,
                );
            }
            match resolved.object {
                Object::Frame(frame) => Ok(frame),
                _ => Err(SyscallError::WrongObjectType),
            }
        },
    }
}

/// The device region an object names, as base address and page count, if it is MMIO.
pub open spec fn mmio_of(object: Object) -> Option<(u64, u16)> {
    match object {
        Object::Mmio { base, pages } => Some((base, pages)),
        _ => None,
    }
}

/// Authorize a device access: the caller's slot must hold an MMIO capability carrying the
/// required rights; the result is the device region's base address and page count.
pub fn authorize_mmio<const TASKS: usize, const SLOTS: usize, const NODES: usize>(
    capabilities: &CapabilitySystem<TASKS, SLOTS, NODES>,
    caller: TaskId,
    slot: usize,
    required: Rights,
) -> (r: Result<(u64, u16), SyscallError>)
    requires
        capabilities.wf(),
    ensures
        r == authorized(
            capabilities@.resolve(caller as int, slot as int, required),
            |o: Object| mmio_of(o),
        ),
        r is Ok ==> capabilities@.resolve(caller as int, slot as int, required).unwrap().object
            == (Object::Mmio { base: r.unwrap().0, pages: r.unwrap().1 }),
        r is Ok ==> capabilities@.resolve(
            caller as int,
            slot as int,
            required,
        ).unwrap().rights.includes(required),
{
    match capabilities.resolve(caller, slot, required) {
        Err(e) => Err(SyscallError::Capability(e)),
        Ok(resolved) => {
            proof {
                lemma_resolve_carries_required_rights(
                    capabilities@,
                    caller as int,
                    slot as int,
                    required,
                );
            }
            match resolved.object {
                Object::Mmio { base, pages } => Ok((base, pages)),
                _ => Err(SyscallError::WrongObjectType),
            }
        },
    }
}

} // verus!
