//! The programmable interval timer: the port writes that set it to 100 Hz, and the tick
//! count its interrupt advances.
use vstd::prelude::*;

verus! {

/// The divisor for 100 Hz from the timer's 1193180 Hz clock.
pub const PIT_DIVISOR: u16 = 11932;

/// The port writes that program channel 0 as a rate generator at 100 Hz: the mode, then the
/// divisor's low and high bytes.
pub fn init() -> (r: Vec<(u16, u8)>)
    ensures
        r@ == seq![(0x43u16, 0x36u8), (0x40u16, (PIT_DIVISOR & 0xff) as u8), (0x40u16, (PIT_DIVISOR >> 8) as u8)],
        r@ == seq![(0x43u16, 0x36u8), (0x40u16, 0x9cu8), (0x40u16, 0x2eu8)],
{
    let divisor: u16 = PIT_DIVISOR;
    let mut r: Vec<(u16, u8)> = Vec::new();
    r.push((0x43, 0x36));
    r.push((0x40, (divisor & 0xff) as u8));
    r.push((0x40, (divisor >> 8) as u8));
    assert((11932u16 & 0xff) as u8 == 0x9cu8 && (11932u16 >> 8) as u8 == 0x2eu8) by (bit_vector);
    r
}

/// The timer ticks since boot.
pub struct Ticks {
    pub count: u32,
}

impl Ticks {
    /// No ticks yet.
    pub fn new() -> (r: Ticks)
        ensures
            r.count == 0,
    {
        Ticks { count: 0 }
    }

    /// One timer interrupt: the count goes up by one, wrapping at 2^32.
    pub fn tick(&mut self)
        ensures
            final(self).count == (if old(self).count == u32::MAX { 0 } else { old(self).count + 1 }),
    {
        self.count = self.count.wrapping_add(1);
    }

    /// The ticks counted.
    pub fn get_ticks(&self) -> (r: u32)
        ensures
            r == self.count,
    {
        self.count
    }
}

/// Whether `ticks` timer ticks have passed between `start` and `now`, counted modulo 2^32.
pub fn elapsed(start: u32, now: u32, ticks: u32) -> (r: bool)
    ensures
        r == ((if now >= start { now - start } else { now + 0x1_0000_0000 - start }) >= ticks),
{
    now.wrapping_sub(start) >= ticks
}

} // verus!
