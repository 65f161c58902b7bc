//! The two 8259 interrupt controllers: the port writes that move IRQ 0-15 to interrupts
//! 0x20-0x2F, mask them all, or end an interrupt.
use vstd::prelude::*;

verus! {

/// The initialization sequence, given the masks read from ports 0x21 and 0xA1 before it:
/// ICW1 to both, the vector offsets 0x20 and 0x28, the cascade on IRQ 2, 8086 mode, then the
/// masks back with the timer and keyboard lines (IRQ 0 and 1) unmasked.
pub fn init(mask_master: u8, mask_slave: u8) -> (r: Vec<(u16, u8)>)
    ensures
        r@ == seq![(0x20u16, 0x11u8), (0xa0u16, 0x11u8), (0x21u16, 0x20u8), (0xa1u16, 0x28u8),
            (0x21u16, 0x04u8), (0xa1u16, 0x02u8), (0x21u16, 0x01u8), (0xa1u16, 0x01u8),
            (0x21u16, mask_master & !0x03u8), (0xa1u16, mask_slave)],
{
    let mut r: Vec<(u16, u8)> = Vec::new();
    r.push((0x20, 0x11));
    r.push((0xa0, 0x11));
    r.push((0x21, 0x20));
    r.push((0xa1, 0x28));
    r.push((0x21, 0x04));
    r.push((0xa1, 0x02));
    r.push((0x21, 0x01));
    r.push((0xa1, 0x01));
    r.push((0x21, mask_master & !0x03u8));
    r.push((0xa1, mask_slave));
    r
}

/// Masks every interrupt line of both controllers.
pub fn mask_all() -> (r: Vec<(u16, u8)>)
    ensures
        r@ == seq![(0x21u16, 0xffu8), (0xa1u16, 0xffu8)],
{
    let mut r: Vec<(u16, u8)> = Vec::new();
    r.push((0x21, 0xff));
    r.push((0xa1, 0xff));
    r
}

/// The end-of-interrupt writes for interrupt `irq`: to the second controller too for
/// interrupts 40 and up.
pub fn pic_eoi(irq: u32) -> (r: Vec<(u16, u8)>)
    ensures
        r@ == (if irq >= 40 { seq![(0xa0u16, 0x20u8), (0x20u16, 0x20u8)] } else { seq![(0x20u16, 0x20u8)] }),
{
    let mut r: Vec<(u16, u8)> = Vec::new();
    if irq >= 40 {
        r.push((0xa0, 0x20));
    }
    r.push((0x20, 0x20));
    r
}

} // verus!
