//! The first serial port (COM1 at 0x3F8): its setup and its line status bits.
use vstd::prelude::*;
use vstd::string::*;

verus! {

pub const COM1: u16 = 0x3f8;

/// The setup writes: interrupts off, 38400 baud (divisor 3), 8 bits without parity and one
/// stop bit, FIFO on, then the modem lines.
pub fn init() -> (r: Vec<(u16, u8)>)
    ensures
        r@ == seq![(0x3f9u16, 0x00u8), (0x3fbu16, 0x80u8), (0x3f8u16, 0x03u8), (0x3f9u16, 0x00u8),
            (0x3fbu16, 0x03u8), (0x3fau16, 0xc7u8), (0x3fcu16, 0x0bu8), (0x3fcu16, 0x0eu8)],
{
    let mut r: Vec<(u16, u8)> = Vec::new();
    r.push((COM1 + 1, 0x00));
    r.push((COM1 + 3, 0x80));
    r.push((COM1 + 0, 0x03));
    r.push((COM1 + 1, 0x00));
    r.push((COM1 + 3, 0x03));
    r.push((COM1 + 2, 0xc7));
    r.push((COM1 + 4, 0x0b));
    r.push((COM1 + 4, 0x0e));
    r
}

/// Whether the line status (port 0x3FD) says the transmitter can take a byte.
pub fn is_transmit_empty(status: u8) -> (r: bool)
    ensures
        r == (status & 0x20 != 0),
{
    status & 0x20 != 0
}

/// Whether the line status says a byte has arrived.
pub fn data_ready(status: u8) -> (r: bool)
    ensures
        r == (status & 1 != 0),
{
    status & 1 != 0
}

/// What reading a byte gives: the data port's byte when one has arrived.
pub fn get_char(status: u8, data: u8) -> (r: Option<u8>)
    ensures
        r == (if status & 1 != 0 { Some(data) } else { None::<u8> }),
{
    if data_ready(status) { Some(data) } else { None }
}

/// How many polls `put_char` makes at most before it gives the byte up.
pub const PUT_TRIES: u32 = 10000;

/// What `put_char` does after one poll of the line status.
#[derive(Clone, Copy, PartialEq, Eq, Structural, Debug)]
pub enum PutStep {
    /// Write the byte to the data port; done.
    Send,
    /// Read the line status again.
    Poll,
    /// The transmitter never became free: the byte is dropped.
    GiveUp,
}

/// One poll of `put_char`: `tries` polls have found the transmitter busy so far, and the
/// line status now reads `status`.
pub fn put_char_step(tries: u32, status: u8) -> (r: PutStep)
    requires
        tries < PUT_TRIES,
    ensures
        r == (if status & 0x20 != 0 { PutStep::Send } else if tries + 1 >= PUT_TRIES { PutStep::GiveUp }
            else { PutStep::Poll }),
{
    if is_transmit_empty(status) {
        PutStep::Send
    } else if tries + 1 >= PUT_TRIES {
        PutStep::GiveUp
    } else {
        PutStep::Poll
    }
}

/// The poll at which `put_char` sends its byte when the line status reads `statuses[0]`,
/// `statuses[1]`, ... in turn: the first one that shows the transmitter free, among the
/// first `PUT_TRIES`; `None` when the byte is given up (or the statuses run out first).
pub fn put_char_outcome(statuses: &[u8]) -> (r: Option<usize>)
    ensures
        match r {
            Some(i) => i < PUT_TRIES && i < statuses@.len() && statuses@[i as int] & 0x20 != 0
                && forall|j: int| 0 <= j < i ==> #[trigger] statuses@[j] & 0x20 == 0,
            None => forall|j: int| 0 <= j < statuses@.len() && j < PUT_TRIES ==> #[trigger] statuses@[j] & 0x20 == 0,
        },
{
    let mut tries: u32 = 0;
    while (tries as usize) < statuses.len()
        invariant
            tries < PUT_TRIES,
            forall|j: int| 0 <= j < tries ==> #[trigger] statuses@[j] & 0x20 == 0,
        decreases statuses@.len() - tries,
    {
        match put_char_step(tries, statuses[tries as usize]) {
            PutStep::Send => return Some(tries as usize),
            PutStep::GiveUp => return None,
            PutStep::Poll => {},
        }
        tries = tries + 1;
    }
    None
}

/// The bytes `write_str` sends: those of the text.
pub fn write_str(s: &str) -> (r: Vec<u8>)
    ensures
        r@ == s.spec_bytes(),
{
    s.as_bytes_vec()
}

} // verus!
