//! Register values of the board support layer: the exception-mask bits of
//! the program status register and the control words of the triple timer
//! counter. Reading and writing the registers is left to the caller.

use vstd::prelude::*;

verus! {

/// The IRQ mask bit of the program status register.
pub const XIL_EXCEPTION_IRQ: u32 = 0x80;

/// The FIQ mask bit of the program status register.
pub const XIL_EXCEPTION_FIQ: u32 = 0x40;

/// Every exception mask bit that the mask operations touch.
pub const XIL_EXCEPTION_ALL: u32 = XIL_EXCEPTION_IRQ | XIL_EXCEPTION_FIQ;

/// Offset of the timer's counter control register.
pub const XTTCPS_CNT_CNTRL_OFFSET: u32 = 0x0C;

/// Offset of the timer's interval value register.
pub const XTTCPS_INTERVAL_VAL_OFFSET: u32 = 0x24;

/// Offset of the timer's interrupt status register.
pub const XTTCPS_ISR_OFFSET: u32 = 0x54;

/// Offset of the timer's interrupt enable register.
pub const XTTCPS_IER_OFFSET: u32 = 0x60;

/// The counter-disable bit of the counter control register.
pub const XTTCPS_CNT_CNTRL_DIS_MASK: u32 = 0x01;

/// The status register with the exceptions of `mask` enabled: their mask bits
/// cleared, every other bit kept.
pub fn exception_enable_value(cpsr: u32, mask: u32) -> (r: u32)
    ensures
        r == cpsr & !(mask & XIL_EXCEPTION_ALL),
{
    cpsr & !(mask & XIL_EXCEPTION_ALL)
}

/// The status register with the exceptions of `mask` disabled: their mask
/// bits set, every other bit kept.
pub fn exception_disable_value(cpsr: u32, mask: u32) -> (r: u32)
    ensures
        r == cpsr | (mask & XIL_EXCEPTION_ALL),
{
    cpsr | (mask & XIL_EXCEPTION_ALL)
}

/// The interrupt enable register with the interrupts of `mask` enabled in
/// addition to those already enabled.
pub fn timer_interrupts_enabled(ier: u32, mask: u32) -> (r: u32)
    ensures
        r == ier | mask,
{
    ier | mask
}

/// The counter control register with the counter running: the disable bit
/// cleared, every other bit kept.
pub fn timer_started(cnt_cntrl: u32) -> (r: u32)
    ensures
        r == cnt_cntrl & !XTTCPS_CNT_CNTRL_DIS_MASK,
{
    cnt_cntrl & !XTTCPS_CNT_CNTRL_DIS_MASK
}

/// The address of the register at `offset` in the register block at `base`.
pub fn register_address(base: u32, offset: u32) -> (r: u32)
    requires
        base + offset <= u32::MAX,
    ensures
        r == base + offset,
{
    base + offset
}

} // verus!
