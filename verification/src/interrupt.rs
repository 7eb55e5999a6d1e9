//! Decisions behind the QEMU `virt` GICv2 and ARM generic virtual timer bring-up: the
//! register values to program and how an acknowledged interrupt is classified.
use vstd::prelude::*;

verus! {

pub const GICD_BASE: usize = 0x0800_0000;

pub const GICC_BASE: usize = 0x0801_0000;

pub const VIRTUAL_TIMER_PPI: u32 = 27;

/// The interrupt-ID field of an acknowledge register value.
pub const INTERRUPT_ID_MASK: u32 = 0x3ff;

/// The interrupt ID the CPU interface reports when nothing is pending.
pub const SPURIOUS_ID: u32 = 0x3ff;

#[derive(Clone, Copy, Debug, PartialEq, Eq, Structural)]
pub enum Interrupt {
    Timer { ticks: u64 },
    Unknown { id: u32 },
}

/// The distributor's priority register for the timer PPI, as an offset from `GICD_BASE`.
pub fn timer_priority_offset() -> (r: usize)
    ensures
        r == 0x400 + (VIRTUAL_TIMER_PPI / 4) * 4,
        r == 0x418,
{
    0x400 + (VIRTUAL_TIMER_PPI as usize / 4) * 4
}

/// The distributor's configuration register for the timer PPI, as an offset from `GICD_BASE`.
pub fn timer_config_offset() -> (r: usize)
    ensures
        r == 0xc00 + (VIRTUAL_TIMER_PPI / 16) * 4,
        r == 0xc04,
{
    0xc00 + (VIRTUAL_TIMER_PPI as usize / 16) * 4
}

/// The priority register with the timer PPI's byte cleared, giving it the highest priority.
pub fn timer_priority_value(current: u32) -> (r: u32)
    ensures
        r == current & !(0xffu32 << 24u32),
        r & (0xffu32 << 24u32) == 0,
        forall|b: u32| b < 24 ==> (#[trigger] ((r >> b) & 1)) == (current >> b) & 1,
{
    let shift = (VIRTUAL_TIMER_PPI % 4) * 8;
    assert(shift == 24);
    let r = current & !(0xff << shift);
    assert(r & (0xffu32 << 24u32) == 0) by (bit_vector)
        requires
            r == current & !(0xffu32 << 24u32),
    ;
    assert forall|b: u32| b < 24 implies (#[trigger] ((r >> b) & 1)) == (current >> b) & 1 by {
        assert((r >> b) & 1 == (current >> b) & 1) by (bit_vector)
            requires
                r == current & !(0xffu32 << 24u32),
                b < 24,
        ;
    }
    r
}

/// The configuration register with the timer PPI's two-bit field set to edge-triggered
/// (`0b10`), every other field unchanged.
pub fn timer_config_value(current: u32) -> (r: u32)
    ensures
        r == (current & !(0b11u32 << 22u32)) | (0b10u32 << 22u32),
        (r >> 22u32) & 0b11 == 0b10,
        r & !(0b11u32 << 22u32) == current & !(0b11u32 << 22u32),
{
    let shift = (VIRTUAL_TIMER_PPI % 16) * 2;
    assert(shift == 22);
    let r = (current & !(0b11 << shift)) | (0b10 << shift);
    assert((r >> 22u32) & 0b11 == 0b10 && r & !(0b11u32 << 22u32) == current & !(0b11u32 << 22u32))
        by (bit_vector)
        requires
            r == (current & !(0b11u32 << 22u32)) | (0b10u32 << 22u32),
    ;
    r
}

/// The distributor's set-enable bit for the timer PPI.
pub fn timer_enable_mask() -> (r: u32)
    ensures
        r == 1u32 << 27u32,
{
    1 << VIRTUAL_TIMER_PPI
}

/// An acknowledge value with the spurious ID means nothing is pending.
pub fn is_spurious(pending: u32) -> (r: bool)
    ensures
        r == (pending & INTERRUPT_ID_MASK == SPURIOUS_ID),
{
    pending & INTERRUPT_ID_MASK == SPURIOUS_ID
}

/// The counter-timer period for a tick rate: counter frequency over the rate, at least one.
pub fn timer_period(frequency: u64, periodic_hz: u64) -> (r: u64)
    requires
        periodic_hz != 0,
    ensures
        r == if frequency / periodic_hz == 0 {
            1
        } else {
            frequency / periodic_hz
        },
        r >= 1,
{
    let period = frequency / periodic_hz;
    if period < 1 {
        1
    } else {
        period
    }
}

/// Classify an acknowledged interrupt: the virtual timer's PPI counts one more tick; any
/// other ID is reported as unknown. The result carries the new tick count.
pub fn classify(raw: u32, ticks: u64) -> (r: (Interrupt, u64))
    requires
        ticks < u64::MAX,
    ensures
        (raw & INTERRUPT_ID_MASK) == VIRTUAL_TIMER_PPI ==> r == (Interrupt::Timer { ticks: (ticks + 1) as u64 }, (ticks + 1) as u64),
        (raw & INTERRUPT_ID_MASK) != VIRTUAL_TIMER_PPI ==> r == (Interrupt::Unknown { id: raw & INTERRUPT_ID_MASK }, ticks),
{
    let id = raw & INTERRUPT_ID_MASK;
    if id == VIRTUAL_TIMER_PPI {
        let ticks = ticks + 1;
        (Interrupt::Timer { ticks }, ticks)
    } else {
        (Interrupt::Unknown { id }, ticks)
    }
}

} // verus!
