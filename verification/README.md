# Aegis mechanism cores, verified

The mechanism cores of the Aegis capability microkernel, written in Verus and proved
against their contracts.

- `src/capability.rs`: the LeaseTree capability system. Per-task CSpaces, typed objects,
  rights, mint (only with GRANT, attenuating only), generation-stamped references, and
  revocation of a whole derivation subtree. The contracts are stated over `CapState`.
- `src/ipc.rs`: synchronous rendezvous IPC. Endpoints queue only thread ids, and messages
  stay in the control blocks. Covers Send, Call, Receive, one-shot Reply and the
  consistency invariant of the queues.
- `src/memory.rs`: the first-fit bitmap frame allocator, with reservation, exhaustion and
  double-free detection.
- `src/paging.rs`: the AArch64 page-descriptor builder with W^X enforcement, and the
  fixed-capacity address-space mapping policy.
- `src/scheduler.rs`: round-robin scheduling that skips blocked tasks, with a fairness
  theorem.
- `src/syscall.rs`: strict syscall decoding and typed, capability-authorized syscall checks.
- `src/runtime.rs`: the live kernel state that drives the app → console Call/Reply demo and
  the root's revocation.
- `src/interrupt.rs`: the decisions behind GICv2 and virtual-timer bring-up.
- `src/dispatch.rs`: the decisions of the exception and interrupt handlers: which demo
  step an EL0 syndrome selects, and the two-step timer preemption.
- `src/boot.rs`: the boot self-tests of the mechanism cores, proved to pass.

`app/` holds the bare-metal kernel image around the library: boot entry, the PL011
console, GIC and timer register access, the handlers that carry out the dispatch
decisions, and the single-core cell that holds the live runtime. On targets other than
AArch64 it runs the boot self-tests and prints their transcript. The assembly sources
(`boot.S`, `vectors.S`, `user.S`) and the linker script belong to the kernel build and
are not part of this crate.
