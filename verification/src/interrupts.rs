//! Interrupt dispatch: the gates of the interrupt table, and what each interrupt number
//! leads to.
use vstd::prelude::*;
use crate::pic::pic_eoi;

verus! {

/// A gate of the interrupt table: vector, handler address, code selector and gate flags.
pub type Gate = (u32, u32, u32, u32);

/// The gates: vectors 0-47 to their stubs as kernel interrupt gates (flags 0x8E), and vector
/// 0x80 to the system call stub as a gate user mode may call (flags 0xEE).
pub fn init(stubs: &[u32; 49], syscall_idx: u32) -> (r: Vec<Gate>)
    requires
        syscall_idx < 49,
    ensures
        r@.len() == 49,
        forall|i: int| 0 <= i < 48 ==> #[trigger] r@[i] == (i as u32, stubs@[i], 8u32, 0x8eu32),
        r@[48] == (0x80u32, stubs@[syscall_idx as int], 8u32, 0xeeu32),
{
    let mut r: Vec<Gate> = Vec::new();
    let mut i: u32 = 0;
    while i < 48
        invariant
            i <= 48,
            r@.len() == i,
            forall|j: int| 0 <= j < i ==> #[trigger] r@[j] == (j as u32, stubs@[j], 8u32, 0x8eu32),
        decreases 48 - i,
    {
        r.push((i, stubs[i as usize], 8, 0x8e));
        i = i + 1;
    }
    r.push((0x80, stubs[syscall_idx as usize], 8, 0xee));
    r
}

/// What an interrupt leads to.
#[derive(Clone, Copy, PartialEq, Eq, Structural, Debug)]
pub enum IsrAction {
    DivisionByZero,
    InvalidOpcode,
    DoubleFault,
    GeneralProtection,
    PageFault,
    Tick,
    Keyboard,
    Unhandled,
}

/// The action of interrupt `isr`: a kernel panic for the faults, the timer tick for 32, the
/// keyboard for 33, else nothing but a note.
pub open spec fn isr_action(isr: u32) -> IsrAction {
    if isr == 0 { IsrAction::DivisionByZero }
    else if isr == 6 { IsrAction::InvalidOpcode }
    else if isr == 8 { IsrAction::DoubleFault }
    else if isr == 13 { IsrAction::GeneralProtection }
    else if isr == 14 { IsrAction::PageFault }
    else if isr == 32 { IsrAction::Tick }
    else if isr == 33 { IsrAction::Keyboard }
    else { IsrAction::Unhandled }
}

/// The action of interrupt `isr` and the end-of-interrupt writes that follow it for the
/// hardware interrupts 32-47.
pub fn interrupt_handler(isr: u32) -> (r: (IsrAction, Vec<(u16, u8)>))
    ensures
        r.0 == isr_action(isr),
        32 <= isr <= 47 ==> r.1@ == (if isr >= 40 { seq![(0xa0u16, 0x20u8), (0x20u16, 0x20u8)] } else { seq![(0x20u16, 0x20u8)] }),
        !(32 <= isr <= 47) ==> r.1@.len() == 0,
{
    let a = if isr == 0 { IsrAction::DivisionByZero }
        else if isr == 6 { IsrAction::InvalidOpcode }
        else if isr == 8 { IsrAction::DoubleFault }
        else if isr == 13 { IsrAction::GeneralProtection }
        else if isr == 14 { IsrAction::PageFault }
        else if isr == 32 { IsrAction::Tick }
        else if isr == 33 { IsrAction::Keyboard }
        else { IsrAction::Unhandled };
    if isr >= 32 && isr <= 47 {
        (a, pic_eoi(isr))
    } else {
        (a, Vec::new())
    }
}

/// The upper memory in KiB from the multiboot information: its field when flag bit 0 says it
/// is there, else 128 MiB.
pub fn multiboot_mem_upper(flags: u32, mem_upper: u32) -> (r: u32)
    ensures
        r == (if flags & 1 == 0 { 131072u32 } else { mem_upper }),
{
    if flags & 1 == 0 { 128 * 1024 } else { mem_upper }
}

} // verus!
