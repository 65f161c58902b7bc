//! The PS/2 keyboard: scan codes decoded with shift, control, caps lock and the extended
//! prefix into key bytes, and a 128-slot ring buffer between the interrupt handler and
//! readers.
use vstd::prelude::*;

verus! {

pub const KEYBUF_SIZE: usize = 128;
pub const KEY_LEFT: u8 = 0x9B;
pub const KEY_RIGHT: u8 = 0x9D;
pub const KEY_UP: u8 = 0x98;
pub const KEY_DOWN: u8 = 0x92;
pub const KEY_HOME: u8 = 0x96;
pub const KEY_END: u8 = 0x97;
pub const KEY_DEL: u8 = 0x9E;

/// The character of a key pressed without shift (0 for none).
pub open spec fn spec_scan_normal(code: u8) -> u8 {
    match code {
        2 => 0x31u8,
        3 => 0x32u8,
        4 => 0x33u8,
        5 => 0x34u8,
        6 => 0x35u8,
        7 => 0x36u8,
        8 => 0x37u8,
        9 => 0x38u8,
        10 => 0x39u8,
        11 => 0x30u8,
        12 => 0x2du8,
        13 => 0x3du8,
        16 => 0x71u8,
        17 => 0x77u8,
        18 => 0x65u8,
        19 => 0x72u8,
        20 => 0x74u8,
        21 => 0x79u8,
        22 => 0x75u8,
        23 => 0x69u8,
        24 => 0x6fu8,
        25 => 0x70u8,
        26 => 0x5bu8,
        27 => 0x5du8,
        28 => 0x0au8,
        30 => 0x61u8,
        31 => 0x73u8,
        32 => 0x64u8,
        33 => 0x66u8,
        34 => 0x67u8,
        35 => 0x68u8,
        36 => 0x6au8,
        37 => 0x6bu8,
        38 => 0x6cu8,
        39 => 0x3bu8,
        40 => 0x27u8,
        41 => 0x60u8,
        43 => 0x5cu8,
        44 => 0x7au8,
        45 => 0x78u8,
        46 => 0x63u8,
        47 => 0x76u8,
        48 => 0x62u8,
        49 => 0x6eu8,
        50 => 0x6du8,
        51 => 0x2cu8,
        52 => 0x2eu8,
        53 => 0x2fu8,
        55 => 0x2au8,
        57 => 0x20u8,
        _ => 0u8,
    }
}

/// The character of a key pressed without shift (0 for none).
pub fn scan_normal(code: u8) -> (r: u8)
    ensures
        r == spec_scan_normal(code),
{
    match code {
        2 => 0x31u8,
        3 => 0x32u8,
        4 => 0x33u8,
        5 => 0x34u8,
        6 => 0x35u8,
        7 => 0x36u8,
        8 => 0x37u8,
        9 => 0x38u8,
        10 => 0x39u8,
        11 => 0x30u8,
        12 => 0x2du8,
        13 => 0x3du8,
        16 => 0x71u8,
        17 => 0x77u8,
        18 => 0x65u8,
        19 => 0x72u8,
        20 => 0x74u8,
        21 => 0x79u8,
        22 => 0x75u8,
        23 => 0x69u8,
        24 => 0x6fu8,
        25 => 0x70u8,
        26 => 0x5bu8,
        27 => 0x5du8,
        28 => 0x0au8,
        30 => 0x61u8,
        31 => 0x73u8,
        32 => 0x64u8,
        33 => 0x66u8,
        34 => 0x67u8,
        35 => 0x68u8,
        36 => 0x6au8,
        37 => 0x6bu8,
        38 => 0x6cu8,
        39 => 0x3bu8,
        40 => 0x27u8,
        41 => 0x60u8,
        43 => 0x5cu8,
        44 => 0x7au8,
        45 => 0x78u8,
        46 => 0x63u8,
        47 => 0x76u8,
        48 => 0x62u8,
        49 => 0x6eu8,
        50 => 0x6du8,
        51 => 0x2cu8,
        52 => 0x2eu8,
        53 => 0x2fu8,
        55 => 0x2au8,
        57 => 0x20u8,
        _ => 0u8,
    }
}

/// The character of a key pressed with shift (0 for none).
pub open spec fn spec_scan_shift(code: u8) -> u8 {
    match code {
        2 => 0x21u8,
        3 => 0x40u8,
        4 => 0x23u8,
        5 => 0x24u8,
        6 => 0x25u8,
        7 => 0x5eu8,
        8 => 0x26u8,
        9 => 0x2au8,
        10 => 0x28u8,
        11 => 0x29u8,
        12 => 0x5fu8,
        13 => 0x2bu8,
        16 => 0x51u8,
        17 => 0x57u8,
        18 => 0x45u8,
        19 => 0x52u8,
        20 => 0x54u8,
        21 => 0x59u8,
        22 => 0x55u8,
        23 => 0x49u8,
        24 => 0x4fu8,
        25 => 0x50u8,
        26 => 0x7bu8,
        27 => 0x7du8,
        28 => 0x0au8,
        30 => 0x41u8,
        31 => 0x53u8,
        32 => 0x44u8,
        33 => 0x46u8,
        34 => 0x47u8,
        35 => 0x48u8,
        36 => 0x4au8,
        37 => 0x4bu8,
        38 => 0x4cu8,
        39 => 0x3au8,
        40 => 0x22u8,
        41 => 0x7eu8,
        43 => 0x7cu8,
        44 => 0x5au8,
        45 => 0x58u8,
        46 => 0x43u8,
        47 => 0x56u8,
        48 => 0x42u8,
        49 => 0x4eu8,
        50 => 0x4du8,
        51 => 0x3cu8,
        52 => 0x3eu8,
        53 => 0x3fu8,
        55 => 0x2au8,
        57 => 0x20u8,
        _ => 0u8,
    }
}

/// The character of a key pressed with shift (0 for none).
pub fn scan_shift(code: u8) -> (r: u8)
    ensures
        r == spec_scan_shift(code),
{
    match code {
        2 => 0x21u8,
        3 => 0x40u8,
        4 => 0x23u8,
        5 => 0x24u8,
        6 => 0x25u8,
        7 => 0x5eu8,
        8 => 0x26u8,
        9 => 0x2au8,
        10 => 0x28u8,
        11 => 0x29u8,
        12 => 0x5fu8,
        13 => 0x2bu8,
        16 => 0x51u8,
        17 => 0x57u8,
        18 => 0x45u8,
        19 => 0x52u8,
        20 => 0x54u8,
        21 => 0x59u8,
        22 => 0x55u8,
        23 => 0x49u8,
        24 => 0x4fu8,
        25 => 0x50u8,
        26 => 0x7bu8,
        27 => 0x7du8,
        28 => 0x0au8,
        30 => 0x41u8,
        31 => 0x53u8,
        32 => 0x44u8,
        33 => 0x46u8,
        34 => 0x47u8,
        35 => 0x48u8,
        36 => 0x4au8,
        37 => 0x4bu8,
        38 => 0x4cu8,
        39 => 0x3au8,
        40 => 0x22u8,
        41 => 0x7eu8,
        43 => 0x7cu8,
        44 => 0x5au8,
        45 => 0x58u8,
        46 => 0x43u8,
        47 => 0x56u8,
        48 => 0x42u8,
        49 => 0x4eu8,
        50 => 0x4du8,
        51 => 0x3cu8,
        52 => 0x3eu8,
        53 => 0x3fu8,
        55 => 0x2au8,
        57 => 0x20u8,
        _ => 0u8,
    }
}

/// The key byte of an extended (`E0`-prefixed) scan code: the arrows, home, end and
/// delete; 0 for any other.
pub open spec fn spec_extended(code: u8) -> u8 {
    if code == 0x48 { KEY_UP }
    else if code == 0x50 { KEY_DOWN }
    else if code == 0x4B { KEY_LEFT }
    else if code == 0x4D { KEY_RIGHT }
    else if code == 0x47 { KEY_HOME }
    else if code == 0x4F { KEY_END }
    else if code == 0x53 { KEY_DEL }
    else { 0 }
}

fn extended(code: u8) -> (r: u8)
    ensures
        r == spec_extended(code),
{
    if code == 0x48 { KEY_UP }
    else if code == 0x50 { KEY_DOWN }
    else if code == 0x4B { KEY_LEFT }
    else if code == 0x4D { KEY_RIGHT }
    else if code == 0x47 { KEY_HOME }
    else if code == 0x4F { KEY_END }
    else if code == 0x53 { KEY_DEL }
    else { 0 }
}

/// The modifier state: shift and control held, caps lock on, an `E0` prefix pending.
#[derive(Clone, Copy, PartialEq, Eq, Structural, Debug)]
pub struct Modifiers {
    pub shift: bool,
    pub ctrl: bool,
    pub caps: bool,
    pub e0: bool,
}

/// A letter made upper case when caps lock is on (other bytes unchanged).
pub open spec fn with_caps(caps: bool, c: u8) -> u8 {
    if caps && 0x61 <= c <= 0x7a { (c - 0x20) as u8 } else { c }
}

/// What the interrupt handler does with scan code `code` (read when bit 0 of `status` is
/// set): the new modifiers and the key it queues, if any.
pub open spec fn irq_effect(m: Modifiers, status: u8, code: u8) -> (Modifiers, Option<u8>) {
    if status % 2 == 0 {
        (m, None)
    } else if m.e0 {
        let k = spec_extended(code);
        (Modifiers { e0: false, ..m }, if code >= 0x80 || k == 0 { None } else { Some(k) })
    } else if code >= 0x80 {
        let make = (code - 0x80) as u8;
        if make == 0x2A || make == 0x36 { (Modifiers { shift: false, ..m }, None) }
        else if make == 0x1D { (Modifiers { ctrl: false, ..m }, None) }
        else { (m, None) }
    } else if code == 0xE0 {
        (Modifiers { e0: true, ..m }, None)
    } else if code == 0x2A || code == 0x36 {
        (Modifiers { shift: true, ..m }, None)
    } else if code == 0x1D {
        (Modifiers { ctrl: true, ..m }, None)
    } else if code == 0x3A {
        (Modifiers { caps: !m.caps, ..m }, None)
    } else if code == 0x0E {
        (m, Some(8u8))
    } else if m.ctrl {
        let c = spec_scan_normal(code);
        (m, if 0x61 <= c <= 0x7a { Some((c - 0x60) as u8) } else if 0x41 <= c <= 0x5a { Some((c - 0x40) as u8) } else { None })
    } else {
        let c = if m.shift { spec_scan_shift(code) } else { spec_scan_normal(code) };
        (m, if c == 0 { None } else { Some(with_caps(m.caps, c)) })
    }
}

/// What polling does with scan code `code` when the buffer is empty: the new modifiers and
/// the key it returns, if any. It differs from the interrupt path in that a control
/// combination that is not a letter falls through to the plain key.
pub open spec fn poll_effect(m: Modifiers, status: u8, code: u8) -> (Modifiers, Option<u8>) {
    if status % 2 == 1 && !m.e0 && code < 0x80 && code != 0xE0 && code != 0x2A && code != 0x36
        && code != 0x1D && code != 0x3A && code != 0x0E && m.ctrl {
        let c = spec_scan_normal(code);
        if 0x61 <= c <= 0x7a { (m, Some((c - 0x60) as u8)) }
        else if 0x41 <= c <= 0x5a { (m, Some((c - 0x40) as u8)) }
        else {
            let d = if m.shift { spec_scan_shift(code) } else { spec_scan_normal(code) };
            (m, if d == 0 { None } else { Some(with_caps(m.caps, d)) })
        }
    } else {
        irq_effect(m, status, code)
    }
}

/// Ring arithmetic on 128 slots.
proof fn lemma_ring(rp: int, wp: int)
    requires
        0 <= rp < 128,
        0 <= wp < 128,
    ensures
        (rp + (wp + 128 - rp) % 128) % 128 == wp,
        (wp + 1) % 128 == rp ==> (wp + 128 - rp) % 128 == 127,
        (wp + 1) % 128 != rp ==> (wp + 128 - rp) % 128 < 127,
        rp != wp ==> (wp + 128 - rp) % 128 > 0,
        rp != wp ==> (wp + 128 - (rp + 1) % 128) % 128 == (wp + 128 - rp) % 128 - 1,
{
}

/// Ring positions of a 128-slot ring.
proof fn lemma_ring_at(rp: int, wp: int, i: int)
    requires
        0 <= rp < 128,
        0 <= wp < 128,
        0 <= i,
    ensures
        i < (wp + 128 - rp) % 128 ==> (rp + i) % 128 != wp,
        ((rp + 1) % 128 + i) % 128 == (rp + (i + 1)) % 128,
{
    vstd::arithmetic::div_mod::lemma_add_mod_noop(rp + 1, i, 128);
    vstd::arithmetic::div_mod::lemma_small_mod(i as nat % 128, 128);
    vstd::arithmetic::div_mod::lemma_add_mod_noop(rp, i + 1, 128);
}

/// The keyboard driver state.
pub struct Keyboard {
    pub buf: Vec<u8>,
    pub rp: usize,
    pub wp: usize,
    pub mods: Modifiers,
}

impl Keyboard {
    pub open spec fn wf(&self) -> bool {
        self.buf@.len() == KEYBUF_SIZE && self.rp < KEYBUF_SIZE && self.wp < KEYBUF_SIZE
    }

    /// The keys waiting, oldest first.
    pub open spec fn keys(&self) -> Seq<u8> {
        Seq::new(((self.wp + 128 - self.rp) % 128) as nat, |i: int| self.buf@[(self.rp + i) % 128])
    }

    /// An empty buffer, no modifiers.
    pub fn new() -> (r: Keyboard)
        ensures
            r.wf(),
            r.keys() == Seq::<u8>::empty(),
            r.mods == (Modifiers { shift: false, ctrl: false, caps: false, e0: false }),
    {
        let mut buf: Vec<u8> = Vec::new();
        let mut i: usize = 0;
        while i < KEYBUF_SIZE
            invariant
                i <= KEYBUF_SIZE,
                buf@.len() == i,
            decreases KEYBUF_SIZE - i,
        {
            buf.push(0u8);
            i = i + 1;
        }
        let r = Keyboard { buf, rp: 0, wp: 0, mods: Modifiers { shift: false, ctrl: false, caps: false, e0: false } };
        assert(r.keys() =~= Seq::<u8>::empty());
        r
    }

    /// Queues key `c`, unless 127 keys are already waiting.
    pub fn push_key(&mut self, c: u8)
        requires
            old(self).wf(),
        ensures
            final(self).wf(),
            final(self).mods == old(self).mods,
            final(self).keys() == (if old(self).keys().len() < 127 { old(self).keys().push(c) } else { old(self).keys() }),
    {
        let ghost rp0 = self.rp as int;
        let ghost wp0 = self.wp as int;
        let next = (self.wp + 1) % KEYBUF_SIZE;
        if next != self.rp {
            let ghost before = self.keys();
            self.buf.set(self.wp, c);
            self.wp = next;
            proof {
                lemma_ring(rp0, wp0);
                assert(old(self).keys().len() < 127);
                assert forall|i: int| 0 <= i < before.len() implies self.keys()[i] == before[i] by {
                    lemma_ring_at(rp0, wp0, i);
                }
                assert(self.keys() =~= before.push(c));
            }
        } else {
            proof {
                lemma_ring(rp0, wp0);
            }
        }
    }

    /// Takes the oldest waiting key.
    pub fn pop_key(&mut self) -> (r: Option<u8>)
        requires
            old(self).wf(),
        ensures
            final(self).wf(),
            final(self).mods == old(self).mods,
            old(self).keys().len() == 0 ==> r is None && final(self).keys() == old(self).keys(),
            old(self).keys().len() > 0 ==> r == Some(old(self).keys()[0]) && final(self).keys() == old(self).keys().drop_first(),
    {
        let ghost rp0 = self.rp as int;
        let ghost wp0 = self.wp as int;
        if self.rp == self.wp {
            assert(old(self).keys().len() == 0);
            return None;
        }
        let c = self.buf[self.rp];
        let ghost before = self.keys();
        self.rp = (self.rp + 1) % KEYBUF_SIZE;
        proof {
            lemma_ring(rp0, wp0);
            assert(before.len() > 0);
            assert(self.keys().len() == before.len() - 1);
            assert forall|i: int| 0 <= i < self.keys().len() implies self.keys()[i] == before[i + 1] by {
                lemma_ring_at(rp0, wp0, i);
            }
            assert(self.keys() =~= before.drop_first());
        }
        Some(c)
    }

    /// The interrupt handler's work on the status byte and scan code it read: modifiers
    /// updated and a key queued as `irq_effect` says.
    pub fn irq_scancode(&mut self, status: u8, code: u8)
        requires
            old(self).wf(),
        ensures
            final(self).wf(),
            final(self).mods == irq_effect(old(self).mods, status, code).0,
            final(self).keys() == (match irq_effect(old(self).mods, status, code).1 {
                Some(k) => if old(self).keys().len() < 127 { old(self).keys().push(k) } else { old(self).keys() },
                None => old(self).keys(),
            }),
    {
        if status & 1 == 0 {
            assert(status % 2 == 0) by (bit_vector) requires status & 1 == 0;
            return;
        }
        assert(status % 2 == 1) by (bit_vector) requires status & 1 != 0;
        if self.mods.e0 {
            self.mods.e0 = false;
            if code & 0x80 != 0 {
                assert(code >= 0x80) by (bit_vector) requires code & 0x80 != 0;
                return;
            }
            assert(code < 0x80) by (bit_vector) requires code & 0x80 == 0;
            let k = extended(code);
            if k != 0 {
                self.push_key(k);
            }
            return;
        }
        if code & 0x80 != 0 {
            assert(code >= 0x80 && (code & 0x7F) == code - 0x80) by (bit_vector) requires code & 0x80 != 0;
            let make = code & 0x7F;
            if make == 0x2A || make == 0x36 {
                self.mods.shift = false;
            } else if make == 0x1D {
                self.mods.ctrl = false;
            }
            return;
        }
        assert(code < 0x80) by (bit_vector) requires code & 0x80 == 0;
        if code == 0xE0 {
            self.mods.e0 = true;
            return;
        }
        if code == 0x2A || code == 0x36 {
            self.mods.shift = true;
        } else if code == 0x1D {
            self.mods.ctrl = true;
        } else if code == 0x3A {
            self.mods.caps = !self.mods.caps;
        } else if code == 0x0E {
            self.push_key(0x08);
        } else if self.mods.ctrl {
            let c = scan_normal(code);
            if c >= 0x61 && c <= 0x7a {
                self.push_key(c - 0x60);
            } else if c >= 0x41 && c <= 0x5a {
                self.push_key(c - 0x40);
            }
        } else {
            let c = if self.mods.shift { scan_shift(code) } else { scan_normal(code) };
            if c == 0 {
                return;
            }
            let caps = self.mods.caps;
            let out = if caps && c >= 0x61 && c <= 0x7a { c ^ 0x20 } else { c };
            assert(out == with_caps(caps, c)) by (bit_vector)
                requires out == (if caps && c >= 0x61 && c <= 0x7a { c ^ 0x20 } else { c });
            self.push_key(out);
        }
    }

    /// Polling with the buffer empty: the status byte and scan code read decoded as
    /// `poll_effect` says; the key is returned, not queued.
    pub fn decode_poll(&mut self, status: u8, code: u8) -> (r: Option<u8>)
        requires
            old(self).wf(),
        ensures
            final(self).wf(),
            final(self).keys() == old(self).keys(),
            final(self).mods == poll_effect(old(self).mods, status, code).0,
            r == poll_effect(old(self).mods, status, code).1,
    {
        if status & 1 == 0 {
            assert(status % 2 == 0) by (bit_vector) requires status & 1 == 0;
            return None;
        }
        assert(status % 2 == 1) by (bit_vector) requires status & 1 != 0;
        if self.mods.e0 {
            self.mods.e0 = false;
            if code & 0x80 != 0 {
                assert(code >= 0x80) by (bit_vector) requires code & 0x80 != 0;
                return None;
            }
            assert(code < 0x80) by (bit_vector) requires code & 0x80 == 0;
            let k = extended(code);
            return if k != 0 { Some(k) } else { None };
        }
        if code & 0x80 != 0 {
            assert(code >= 0x80 && (code & 0x7F) == code - 0x80) by (bit_vector) requires code & 0x80 != 0;
            let make = code & 0x7F;
            if make == 0x2A || make == 0x36 {
                self.mods.shift = false;
            } else if make == 0x1D {
                self.mods.ctrl = false;
            }
            return None;
        }
        assert(code < 0x80) by (bit_vector) requires code & 0x80 == 0;
        if code == 0xE0 {
            self.mods.e0 = true;
            return None;
        }
        if code == 0x2A || code == 0x36 {
            self.mods.shift = true;
            None
        } else if code == 0x1D {
            self.mods.ctrl = true;
            None
        } else if code == 0x3A {
            self.mods.caps = !self.mods.caps;
            None
        } else if code == 0x0E {
            Some(0x08)
        } else {
            if self.mods.ctrl {
                let c = scan_normal(code);
                if c >= 0x61 && c <= 0x7a {
                    return Some(c - 0x60);
                }
                if c >= 0x41 && c <= 0x5a {
                    return Some(c - 0x40);
                }
            }
            let c = if self.mods.shift { scan_shift(code) } else { scan_normal(code) };
            if c == 0 {
                return None;
            }
            let caps = self.mods.caps;
            let out = if caps && c >= 0x61 && c <= 0x7a { c ^ 0x20 } else { c };
            assert(out == with_caps(caps, c)) by (bit_vector)
                requires out == (if caps && c >= 0x61 && c <= 0x7a { c ^ 0x20 } else { c });
            Some(out)
        }
    }
}


/// Keys come out in the order they were queued: after a key is queued with room left, the
/// next key taken is the oldest one waiting, which is the new key when none was waiting,
/// and the new key stays last.
pub proof fn law_push_then_pop(k0: Keyboard, k1: Keyboard, k2: Keyboard, c: u8, r: Option<u8>)
    requires
        k0.wf(),
        k0.keys().len() < 127,
        k1.keys() == k0.keys().push(c),
        k1.keys().len() > 0 ==> r == Some(k1.keys()[0]) && k2.keys() == k1.keys().drop_first(),
    ensures
        k0.keys().len() == 0 ==> r == Some(c) && k2.keys().len() == 0,
        k0.keys().len() > 0 ==> r == Some(k0.keys()[0]) && k2.keys() == k0.keys().drop_first().push(c),
{
    if k0.keys().len() > 0 {
        assert(k2.keys() =~= k0.keys().drop_first().push(c));
    }
}

/// With Ctrl held, a key queued by the interrupt handler is a control code in `1 ..= 26`,
/// and a letter key queues its control code (the letter minus 0x60), never the plain letter;
/// polling gives a letter key with Ctrl the same code.
pub proof fn law_ctrl_letter_is_control_code(m: Modifiers, status: u8, code: u8)
    requires
        m.ctrl,
        !m.e0,
        status % 2 == 1,
        code < 0x80,
    ensures
        irq_effect(m, status, code).1 matches Some(k) ==> 1 <= k <= 26,
        0x61 <= spec_scan_normal(code) <= 0x7a ==> {
            &&& irq_effect(m, status, code).1 == Some((spec_scan_normal(code) - 0x60) as u8)
            &&& poll_effect(m, status, code).1 == Some((spec_scan_normal(code) - 0x60) as u8)
        },
{
    assert(spec_scan_normal(0x2A) == 0 && spec_scan_normal(0x36) == 0 && spec_scan_normal(0x1D) == 0
        && spec_scan_normal(0x3A) == 0);
}

} // verus!
