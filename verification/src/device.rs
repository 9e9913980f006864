//! The sensor driver's decisions: which frame bytes to keep, when a frame is
//! settled, and which pin and delay commands bring the sensor up.
//!
//! The driver owns no hardware. Whoever owns the serial port hands
//! [`PMS5003::measure`] the outcome of each read attempt, and carries out the
//! commands that [`PMS5003::init`] and [`PMS5003::reset`] list, in order,
//! stopping at the first pin error.

use vstd::prelude::*;
use crate::measurement::{be16, read_be16, Measurement};
use crate::frame::{judge, verdict_of, Error, FRAME_BODY_LEN, FRAME_LEN, MARKER_HI, MARKER_LO};

verus! {

/// Milliseconds to wait after each edge on the reset line.
pub const SETTLE_MS: u8 = 100;

/// The outcome of one attempt to read a byte from the serial port.
#[derive(Debug, PartialEq, Eq)]
pub enum Poll<E> {
    /// A byte arrived.
    Ready(u8),
    /// Nothing is available yet; the read is to be tried again.
    WouldBlock,
    /// The port failed.
    Failed(E),
}

/// One of the two output lines to the sensor.
#[derive(Debug, Clone, Copy, PartialEq, Eq)]
pub enum Line {
    /// Data/command select.
    DataCommand,
    /// Reset, active low.
    Reset,
}

/// One thing for the owner of the hardware to do.
#[derive(Debug, Clone, Copy, PartialEq, Eq)]
pub enum Command {
    /// Drive the line high.
    SetHigh(Line),
    /// Drive the line low.
    SetLow(Line),
    /// Wait this many milliseconds.
    DelayMs(u8),
}

/// What an idle driver holds: nothing.
pub open spec fn idle() -> Seq<u8> {
    Seq::empty()
}

/// Whether `byte` continues a frame of which `held` has been kept: the marker
/// bytes must match, and the length field, complete with its fourth byte,
/// must read 28. Every other byte continues the frame.
pub open spec fn fits(held: Seq<u8>, byte: u8) -> bool {
    if held.len() == 0 {
        byte == MARKER_HI
    } else if held.len() == 1 {
        byte == MARKER_LO
    } else if held.len() == 3 {
        be16(held[2], byte) == FRAME_BODY_LEN
    } else {
        true
    }
}

/// Whether `byte` ends the frame of which `held` has been kept: it completes
/// a wrong length field, or it is the last byte of the trailer.
pub open spec fn settles(held: Seq<u8>, byte: u8) -> bool {
    ||| held.len() == 3 && !fits(held, byte)
    ||| held.len() + 1 == FRAME_LEN
}

/// The bytes kept once `byte` has arrived: one more while the frame goes on,
/// none when the byte does not fit or ends the frame. A byte that breaks the
/// marker is dropped with the rest, and the scan starts over after it.
pub open spec fn held_after(held: Seq<u8>, byte: u8) -> Seq<u8> {
    if fits(held, byte) && held.len() + 1 < FRAME_LEN {
        held.push(byte)
    } else {
        idle()
    }
}

/// What `byte` settles, if anything: a wrong length field is reported with
/// its value as soon as it is complete; the last trailer byte brings the
/// verdict on the whole frame.
pub open spec fn settled_by<E>(held: Seq<u8>, byte: u8) -> Option<Result<Measurement, Error<E>>> {
    if held.len() == 3 && !fits(held, byte) {
        Some(Err(Error::InvalidLength(be16(held[2], byte))))
    } else if held.len() + 1 == FRAME_LEN {
        Some(verdict_of(held.push(byte)))
    } else {
        None
    }
}

/// The bytes kept after a read attempt.
pub open spec fn held_after_poll<E>(held: Seq<u8>, event: Poll<E>) -> Seq<u8> {
    match event {
        Poll::Ready(byte) => held_after(held, byte),
        Poll::WouldBlock => held,
        Poll::Failed(_) => idle(),
    }
}

/// What a read attempt settles: a failure of the port ends the measurement
/// with that error, an empty port settles nothing.
pub open spec fn settled_by_poll<E>(held: Seq<u8>, event: Poll<E>) -> Option<
    Result<Measurement, Error<E>>,
> {
    match event {
        Poll::Ready(byte) => settled_by(held, byte),
        Poll::WouldBlock => None,
        Poll::Failed(e) => Some(Err(Error::Serial(e))),
    }
}

/// The commands of a reset: the reset line low, then high, each held for
/// the settle time.
pub open spec fn reset_sequence() -> Seq<Command> {
    seq![
        Command::SetLow(Line::Reset),
        Command::DelayMs(SETTLE_MS),
        Command::SetHigh(Line::Reset),
        Command::DelayMs(SETTLE_MS),
    ]
}

/// The commands that bring the sensor up: both lines high, then a reset.
pub open spec fn init_sequence() -> Seq<Command> {
    seq![Command::SetHigh(Line::DataCommand), Command::SetHigh(Line::Reset)] + reset_sequence()
}

/// Driver state for one sensor: the bytes of the frame under way.
///
/// Its view is the sequence of bytes kept so far, marker included; between
/// measurements the driver is idle.
pub struct PMS5003 {
    frame: [u8; 32],
    filled: usize,
}

impl View for PMS5003 {
    type V = Seq<u8>;

    closed spec fn view(&self) -> Seq<u8> {
        self.frame@.take(self.filled as int)
    }
}

impl PMS5003 {
    #[verifier::type_invariant]
    spec fn in_bounds(self) -> bool {
        self.filled < FRAME_LEN
    }

    /// An idle driver.
    pub fn new() -> (driver: Self)
        ensures
            driver@ == idle(),
    {
        let driver = PMS5003 { frame: [0u8; 32], filled: 0 };
        proof {
            assert(driver@ =~= idle());
        }
        driver
    }

    /// The commands that bring the sensor into operation.
    pub fn init(&self) -> (commands: [Command; 6])
        ensures
            commands@ == init_sequence(),
    {
        let commands: [Command; 6] = [
            Command::SetHigh(Line::DataCommand),
            Command::SetHigh(Line::Reset),
            Command::SetLow(Line::Reset),
            Command::DelayMs(SETTLE_MS),
            Command::SetHigh(Line::Reset),
            Command::DelayMs(SETTLE_MS),
        ];
        proof {
            assert(commands@ =~= init_sequence());
        }
        commands
    }

    /// The commands that reset the sensor.
    pub fn reset(&self) -> (commands: [Command; 4])
        ensures
            commands@ == reset_sequence(),
    {
        let commands: [Command; 4] = [
            Command::SetLow(Line::Reset),
            Command::DelayMs(SETTLE_MS),
            Command::SetHigh(Line::Reset),
            Command::DelayMs(SETTLE_MS),
        ];
        proof {
            assert(commands@ =~= reset_sequence());
        }
        commands
    }

    /// Takes the outcome of one read attempt and says whether the measurement
    /// is over: `None` asks for another read, `Some` carries the result.
    ///
    /// Bytes are scanned for the marker, then kept until the length field or
    /// the trailer settles the frame. Whenever a result is returned the
    /// driver holds nothing, so the next call starts a fresh scan.
    pub fn measure<E>(&mut self, event: Poll<E>) -> (step: Option<Result<Measurement, Error<E>>>)
        ensures
            final(self)@ == held_after_poll(old(self)@, event),
            step == settled_by_poll(old(self)@, event),
            step is Some ==> final(self)@ == idle(),
    {
        proof {
            use_type_invariant(&*self);
        }
        let n: usize = self.filled;
        match event {
            Poll::WouldBlock => None,
            Poll::Failed(e) => {
                self.filled = 0;
                proof {
                    assert(self@ =~= idle());
                }
                Some(Err(Error::Serial(e)))
            },
            Poll::Ready(byte) => {
                if n == 0 {
                    if byte == MARKER_HI {
                        self.frame[0] = byte;
                        self.filled = 1;
                    }
                    proof {
                        assert(self@ =~= held_after(old(self)@, byte));
                    }
                    None
                } else if n == 1 {
                    if byte == MARKER_LO {
                        self.frame[1] = byte;
                        self.filled = 2;
                    } else {
                        self.filled = 0;
                    }
                    proof {
                        assert(self@ =~= held_after(old(self)@, byte));
                    }
                    None
                } else if n == 3 {
                    let length: u16 = read_be16(self.frame[2], byte);
                    if length == FRAME_BODY_LEN {
                        self.frame[3] = byte;
                        self.filled = 4;
                        proof {
                            assert(self@ =~= held_after(old(self)@, byte));
                        }
                        None
                    } else {
                        self.filled = 0;
                        proof {
                            assert(self@ =~= held_after(old(self)@, byte));
                        }
                        Some(Err(Error::InvalidLength(length)))
                    }
                } else if n == FRAME_LEN - 1 {
                    self.frame[n] = byte;
                    self.filled = 0;
                    proof {
                        assert(self@ =~= held_after(old(self)@, byte));
                        assert(self.frame@ =~= old(self)@.push(byte));
                    }
                    Some(judge(&self.frame))
                } else {
                    self.frame[n] = byte;
                    self.filled = n + 1;
                    proof {
                        assert(self@ =~= held_after(old(self)@, byte));
                    }
                    None
                }
            },
        }
    }
}

} // verus!
