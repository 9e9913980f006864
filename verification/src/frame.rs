//! The wire frame: marker, length field, payload and checksum trailer.

use vstd::prelude::*;
use vstd::slice::slice_subrange;
use crate::measurement::{be16, read_be16, Measurement, PAYLOAD_LEN};

verus! {

/// First byte of the start marker.
pub const MARKER_HI: u8 = 0x42;

/// Second byte of the start marker.
pub const MARKER_LO: u8 = 0x4D;

/// Value that the length field must carry: the payload and the trailer.
pub const FRAME_BODY_LEN: u16 = 28;

/// Number of bytes in a whole frame.
pub const FRAME_LEN: usize = 32;

/// Number of bytes that the checksum covers: all but the trailer.
pub const SUMMED_LEN: usize = 30;

/// Offset of the payload in a frame.
pub const PAYLOAD_START: usize = 4;

/// The arithmetic sum of the bytes of `bytes`.
pub open spec fn byte_sum(bytes: Seq<u8>) -> nat
    decreases bytes.len(),
{
    if bytes.len() == 0 {
        0
    } else {
        byte_sum(bytes.drop_last()) + bytes.last() as nat
    }
}

/// The additive checksum of `bytes`: their sum modulo 2^16.
pub open spec fn checksum_of(bytes: Seq<u8>) -> u16 {
    (byte_sum(bytes) % 65536) as u16
}

/// The payload bytes of a frame.
pub open spec fn payload_of(frame: Seq<u8>) -> Seq<u8> {
    frame.subrange(PAYLOAD_START as int, SUMMED_LEN as int)
}

/// The checksum that a frame's trailer announces.
pub open spec fn trailer_of(frame: Seq<u8>) -> u16 {
    be16(frame[30], frame[31])
}

/// A frame as the sensor sends it: 32 bytes that start with the marker,
/// announce a body of 28 bytes, and end with the checksum of all that
/// precedes the trailer.
pub open spec fn well_formed(frame: Seq<u8>) -> bool {
    &&& frame.len() == FRAME_LEN
    &&& frame[0] == MARKER_HI
    &&& frame[1] == MARKER_LO
    &&& be16(frame[2], frame[3]) == FRAME_BODY_LEN
    &&& trailer_of(frame) == checksum_of(frame.take(SUMMED_LEN as int))
}

/// Sums bytes modulo 2^16.
pub fn checksum(data: &[u8]) -> (sum: u16)
    ensures
        sum == checksum_of(data@),
{
    let mut sum: u16 = 0;
    let mut i: usize = 0;
    while i < data.len()
        invariant
            i <= data.len(),
            sum == checksum_of(data@.take(i as int)),
        decreases data.len() - i,
    {
        proof {
            assert(data@.take(i + 1).drop_last() =~= data@.take(i as int));
        }
        sum = ((sum as u32 + data[i] as u32) % 65536) as u16;
        i += 1;
    }
    proof {
        assert(data@.take(i as int) =~= data@);
    }
    sum
}

/// Why a frame was given up.
#[derive(Debug, PartialEq, Eq)]
pub enum Error<E> {
    /// The checksum failed: the sum of the bytes received, then the sum
    /// that the trailer announced.
    InvalidData(u16, u16),
    /// The length field carried this value, not 28.
    InvalidLength(u16),
    /// The byte source failed with this error.
    Serial(E),
}

/// What a full frame, whose marker and length field have been accepted,
/// comes to: its measurement where the trailer equals the checksum of the 30
/// bytes before it, else both sums.
pub open spec fn verdict_of<E>(frame: Seq<u8>) -> Result<Measurement, Error<E>>
    recommends
        frame.len() == FRAME_LEN,
{
    let received = checksum_of(frame.take(SUMMED_LEN as int));
    let expected = trailer_of(frame);
    if received == expected {
        Ok(Measurement::parsed(payload_of(frame)))
    } else {
        Err(Error::InvalidData(received, expected))
    }
}

/// Checks the trailer of a full frame and decodes its payload.
pub(crate) fn judge<E>(frame: &[u8; 32]) -> (verdict: Result<Measurement, Error<E>>)
    ensures
        verdict == verdict_of::<E>(frame@),
{
    let received: u16 = checksum(slice_subrange(frame.as_slice(), 0, SUMMED_LEN));
    let expected: u16 = read_be16(frame[30], frame[31]);
    if received != expected {
        return Err(Error::InvalidData(received, expected));
    }
    let mut payload: [u8; 26] = [0u8; 26];
    let mut i: usize = 0;
    while i < PAYLOAD_LEN
        invariant
            i <= PAYLOAD_LEN,
            forall|k: int| 0 <= k < i ==> payload@[k] == frame@[k + PAYLOAD_START],
        decreases PAYLOAD_LEN - i,
    {
        payload[i] = frame[i + PAYLOAD_START];
        i += 1;
    }
    proof {
        assert(payload@ =~= payload_of(frame@));
    }
    Ok(Measurement::parse(payload))
}

} // verus!
