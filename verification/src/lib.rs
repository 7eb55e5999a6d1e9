//! Mechanism cores of the Aegis microkernel: capabilities, rendezvous IPC,
//! frame allocation, page-descriptor policy, scheduling and syscall authorization.
pub mod capability;
pub mod ipc;
pub mod memory;
pub mod paging;
pub mod scheduler;
pub mod syscall;
pub mod runtime;
pub mod interrupt;
pub mod boot;
pub mod dispatch;
