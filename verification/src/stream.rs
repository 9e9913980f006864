//! What the driver makes of a whole byte stream, and the laws of the
//! protocol that follow from its single steps.
//!
//! A stream is the sequence of bytes that the serial port delivers, in
//! order. A driver that holds nothing is idle: it is so when it is made and
//! after every result.

use vstd::prelude::*;
use crate::measurement::{be16, Measurement};
use crate::frame::{
    checksum_of, payload_of, trailer_of, verdict_of, well_formed, Error, FRAME_BODY_LEN, FRAME_LEN,
    MARKER_HI, MARKER_LO, PAYLOAD_START, SUMMED_LEN,
};
use crate::device::{
    fits, held_after, held_after_poll, idle, settled_by, settled_by_poll, settles, Poll, PMS5003,
};

verus! {

/// The bytes that a driver holds once all of `bytes` have arrived, if it
/// held `start` before the first of them.
pub open spec fn held_from(start: Seq<u8>, bytes: Seq<u8>) -> Seq<u8>
    decreases bytes.len(),
{
    if bytes.len() == 0 {
        start
    } else {
        held_after(held_from(start, bytes.drop_last()), bytes.last())
    }
}

/// Whether the last byte of `bytes` ends a measurement, for a driver that
/// held `start` before the first of them.
pub open spec fn settles_from(start: Seq<u8>, bytes: Seq<u8>) -> bool {
    bytes.len() > 0 && settles(held_from(start, bytes.drop_last()), bytes.last())
}

/// The result that the last byte of `bytes` brings, if it ends a
/// measurement, for a driver that held `start` before the first of them.
pub open spec fn settled_from<E>(start: Seq<u8>, bytes: Seq<u8>) -> Option<
    Result<Measurement, Error<E>>,
> {
    if bytes.len() == 0 {
        None
    } else {
        settled_by(held_from(start, bytes.drop_last()), bytes.last())
    }
}

/// A measurement on `stream`, by a driver that held `start` before its
/// first byte, ends with byte number `consumed` and with `outcome`: no
/// earlier byte settles anything, and this one brings `outcome`.
pub open spec fn measures<E>(
    start: Seq<u8>,
    stream: Seq<u8>,
    consumed: int,
    outcome: Result<Measurement, Error<E>>,
) -> bool {
    &&& 0 < consumed <= stream.len()
    &&& forall|k: int| 0 < k < consumed ==> !#[trigger] settles_from(start, stream.take(k))
    &&& settled_from::<E>(start, stream.take(consumed)) == Some(outcome)
}

/// Noise: bytes among which the scan of an idle driver never completes the
/// marker, and after which it has not begun one either, so that the driver
/// is idle again.
pub open spec fn quiet(noise: Seq<u8>) -> bool {
    &&& forall|k: int|
        0 <= k <= noise.len() ==> (#[trigger] held_from(idle(), noise.take(k))).len() < 2
    &&& held_from(idle(), noise) == idle()
}

/// The first `count` bytes of `bytes` can open a frame: the marker, and a
/// length field of 28, as far as `count` reaches.
pub open spec fn opens_frame(bytes: Seq<u8>, count: int) -> bool {
    &&& 0 <= count <= bytes.len()
    &&& count < FRAME_LEN
    &&& count >= 1 ==> bytes[0] == MARKER_HI
    &&& count >= 2 ==> bytes[1] == MARKER_LO
    &&& count >= 4 ==> be16(bytes[2], bytes[3]) == FRAME_BODY_LEN
}

/// A byte ends a measurement exactly when it brings a result.
pub proof fn lemma_settles_iff_settled<E>(start: Seq<u8>, bytes: Seq<u8>)
    ensures
        settles_from(start, bytes) <==> settled_from::<E>(start, bytes) is Some,
{
}

/// Whenever a byte ends a measurement, with whatever result, the driver is
/// idle afterwards: nothing of the frame that failed or succeeded is kept.
pub proof fn lemma_settling_clears(start: Seq<u8>, bytes: Seq<u8>)
    requires
        settles_from(start, bytes),
    ensures
        held_from(start, bytes) == idle(),
{
}

/// A stream measures in one way only: the byte that ends the measurement
/// and the result are determined by the stream.
pub proof fn lemma_measures_once<E>(
    start: Seq<u8>,
    stream: Seq<u8>,
    consumed: int,
    outcome: Result<Measurement, Error<E>>,
    other_consumed: int,
    other_outcome: Result<Measurement, Error<E>>,
)
    requires
        measures(start, stream, consumed, outcome),
        measures(start, stream, other_consumed, other_outcome),
    ensures
        consumed == other_consumed,
        outcome == other_outcome,
{
    if consumed < other_consumed {
        assert(!settles_from(start, stream.take(consumed)));
    } else if other_consumed < consumed {
        assert(!settles_from(start, stream.take(other_consumed)));
    }
}

/// A stream that begins with `head` measures as `head` does, whatever
/// follows: nothing past the byte that ends the measurement is looked at.
pub proof fn lemma_rest_is_ignored<E>(
    start: Seq<u8>,
    head: Seq<u8>,
    rest: Seq<u8>,
    consumed: int,
    outcome: Result<Measurement, Error<E>>,
)
    requires
        measures(start, head, consumed, outcome),
    ensures
        measures(start, head + rest, consumed, outcome),
{
    assert forall|k: int| 0 < k < consumed implies !#[trigger] settles_from(
        start,
        (head + rest).take(k),
    ) by {
        assert((head + rest).take(k) =~= head.take(k));
    }
    assert((head + rest).take(consumed) =~= head.take(consumed));
}

/// While the bytes that reach an idle driver open a frame, the driver keeps
/// every one of them and settles nothing.
pub proof fn lemma_opening_is_kept(start: Seq<u8>, before: Seq<u8>, bytes: Seq<u8>, count: int)
    requires
        held_from(start, before) == idle(),
        opens_frame(bytes, count),
    ensures
        held_from(start, before + bytes.take(count)) == bytes.take(count),
        forall|j: int| 0 < j <= count ==> !#[trigger] settles_from(start, before + bytes.take(j)),
    decreases count,
{
    if count == 0 {
        assert(before + bytes.take(0) =~= before);
        assert(idle() =~= bytes.take(0));
    } else {
        lemma_opening_is_kept(start, before, bytes, count - 1);
        let all = before + bytes.take(count);
        assert(all.drop_last() =~= before + bytes.take(count - 1));
        assert(all.last() == bytes[count - 1]);
        assert(bytes.take(count - 1).push(bytes[count - 1]) =~= bytes.take(count));
    }
}

/// Once the driver is idle, whatever it held at first and whatever bytes,
/// results and failures came before, a well-formed frame is kept byte by
/// byte without settling anything, its last byte brings the measurement that
/// its payload encodes, and the driver is idle again.
pub proof fn lemma_frame_after_idle<E>(start: Seq<u8>, before: Seq<u8>, frame: Seq<u8>)
    requires
        held_from(start, before) == idle(),
        well_formed(frame),
    ensures
        forall|j: int|
            0 < j < FRAME_LEN ==> !#[trigger] settles_from(start, before + frame.take(j)),
        settled_from::<E>(start, before + frame) == Some(
            Ok::<Measurement, Error<E>>(Measurement::parsed(payload_of(frame))),
        ),
        held_from(start, before + frame) == idle(),
{
    lemma_opening_is_kept(start, before, frame, FRAME_LEN - 1);
    let all = before + frame;
    assert(all.drop_last() =~= before + frame.take(FRAME_LEN - 1));
    assert(frame.take(FRAME_LEN - 1).push(frame[FRAME_LEN - 1]) =~= frame);
}

/// Noise settles nothing.
pub proof fn lemma_noise_settles_nothing(noise: Seq<u8>, k: int)
    requires
        quiet(noise),
        0 < k <= noise.len(),
    ensures
        !settles_from(idle(), noise.take(k)),
{
    assert(noise.take(k).drop_last() =~= noise.take(k - 1));
    assert(held_from(idle(), noise.take(k - 1)).len() < 2);
}

/// Noise and the opening of a frame behind it settle nothing, and the
/// opening is all that an idle driver holds after them.
pub proof fn lemma_noise_then_opening(noise: Seq<u8>, bytes: Seq<u8>, count: int)
    requires
        quiet(noise),
        opens_frame(bytes, count),
    ensures
        held_from(idle(), noise + bytes.take(count)) == bytes.take(count),
        forall|k: int|
            0 < k <= noise.len() + count ==> !#[trigger] settles_from(
                idle(),
                (noise + bytes).take(k),
            ),
{
    lemma_opening_is_kept(idle(), noise, bytes, count);
    assert forall|k: int| 0 < k <= noise.len() + count implies !#[trigger] settles_from(
        idle(),
        (noise + bytes).take(k),
    ) by {
        if k <= noise.len() {
            assert((noise + bytes).take(k) =~= noise.take(k));
            lemma_noise_settles_nothing(noise, k);
        } else {
            assert((noise + bytes).take(k) =~= noise + bytes.take(k - noise.len()));
        }
    }
}

/// Behind any noise, 32 bytes that open a frame are measured as one: the
/// measurement of an idle driver ends with the last of them and brings the
/// verdict on them, whatever follows.
pub proof fn lemma_frame_is_judged<E>(noise: Seq<u8>, frame: Seq<u8>, rest: Seq<u8>)
    requires
        quiet(noise),
        frame.len() == FRAME_LEN,
        opens_frame(frame, PAYLOAD_START as int),
    ensures
        measures(idle(), noise + frame + rest, noise.len() + FRAME_LEN, verdict_of::<E>(frame)),
{
    let head = noise + frame;
    lemma_noise_then_opening(noise, frame, FRAME_LEN - 1);
    assert(head.take(head.len() as int) =~= head);
    assert(head.drop_last() =~= noise + frame.take(FRAME_LEN - 1));
    assert(frame.take(FRAME_LEN - 1).push(frame[FRAME_LEN - 1]) =~= frame);
    lemma_rest_is_ignored(idle(), head, rest, noise.len() + FRAME_LEN, verdict_of::<E>(frame));
}

/// Noise before a well-formed frame is skipped: the measurement of an idle
/// driver ends with the frame's last byte and is the one that the frame's
/// payload encodes, whatever the noise holds and whatever follows the frame.
pub proof fn lemma_noise_is_skipped<E>(noise: Seq<u8>, frame: Seq<u8>, rest: Seq<u8>)
    requires
        quiet(noise),
        well_formed(frame),
    ensures
        measures(
            idle(),
            noise + frame + rest,
            noise.len() + FRAME_LEN,
            Ok::<Measurement, Error<E>>(Measurement::parsed(payload_of(frame))),
        ),
{
    lemma_frame_is_judged::<E>(noise, frame, rest);
}

/// A frame with the marker and a length of 28 whose trailer differs from the
/// checksum of the bytes before it fails the measurement with both sums,
/// the computed one first, and yields no measurement.
pub proof fn lemma_wrong_checksum_fails<E>(noise: Seq<u8>, frame: Seq<u8>, rest: Seq<u8>)
    requires
        quiet(noise),
        frame.len() == FRAME_LEN,
        opens_frame(frame, PAYLOAD_START as int),
        trailer_of(frame) != checksum_of(frame.take(SUMMED_LEN as int)),
    ensures
        measures(
            idle(),
            noise + frame + rest,
            noise.len() + FRAME_LEN,
            Err::<Measurement, Error<E>>(
                Error::InvalidData(checksum_of(frame.take(SUMMED_LEN as int)), trailer_of(frame)),
            ),
        ),
{
    lemma_frame_is_judged::<E>(noise, frame, rest);
}

/// A length field other than 28 fails the measurement with that value, at
/// the second byte of the field: no byte after it is consumed.
pub proof fn lemma_wrong_length_fails<E>(noise: Seq<u8>, hi: u8, lo: u8, rest: Seq<u8>)
    requires
        quiet(noise),
        be16(hi, lo) != FRAME_BODY_LEN,
    ensures
        measures(
            idle(),
            noise + seq![MARKER_HI, MARKER_LO, hi, lo] + rest,
            noise.len() + PAYLOAD_START,
            Err::<Measurement, Error<E>>(Error::InvalidLength(be16(hi, lo))),
        ),
{
    let opening = seq![MARKER_HI, MARKER_LO, hi, lo];
    let head = noise + opening;
    let outcome = Err::<Measurement, Error<E>>(Error::InvalidLength(be16(hi, lo)));
    lemma_noise_then_opening(noise, opening, 3);
    assert(head.take(head.len() as int) =~= head);
    assert(head.drop_last() =~= noise + opening.take(3));
    lemma_rest_is_ignored(idle(), head, rest, noise.len() + PAYLOAD_START, outcome);
}

/// No result spoils the next measurement: after a read attempt that brought
/// a result, be it a measurement, a wrong length, a wrong checksum or a
/// failure of the serial port, the driver measures noise and a fresh
/// well-formed frame as an idle driver does, and succeeds.
pub proof fn lemma_fresh_frame_after_result<E>(
    held: Seq<u8>,
    event: Poll<E>,
    noise: Seq<u8>,
    frame: Seq<u8>,
    rest: Seq<u8>,
)
    requires
        settled_by_poll(held, event) is Some,
        quiet(noise),
        well_formed(frame),
    ensures
        held_after_poll(held, event) == idle(),
        measures(
            held_after_poll(held, event),
            noise + frame + rest,
            noise.len() + FRAME_LEN,
            Ok::<Measurement, Error<E>>(Measurement::parsed(payload_of(frame))),
        ),
{
    lemma_noise_is_skipped::<E>(noise, frame, rest);
}

/// A driver that was idle at first only ever holds the last bytes that
/// reached it, and only as far as they can open a frame.
pub proof fn lemma_held_opens_frame(bytes: Seq<u8>)
    ensures
        opens_frame(held_from(idle(), bytes), held_from(idle(), bytes).len() as int),
        held_from(idle(), bytes).len() <= bytes.len(),
        held_from(idle(), bytes) == bytes.subrange(
            bytes.len() - held_from(idle(), bytes).len(),
            bytes.len() as int,
        ),
    decreases bytes.len(),
{
    if bytes.len() > 0 {
        let before = bytes.drop_last();
        lemma_held_opens_frame(before);
        let held = held_from(idle(), before);
        if fits(held, bytes.last()) && held.len() + 1 < FRAME_LEN {
            assert(held.push(bytes.last()) =~= bytes.subrange(
                bytes.len() - held.len() - 1,
                bytes.len() as int,
            ));
        } else {
            assert(bytes.subrange(bytes.len() as int, bytes.len() as int) =~= idle());
        }
    } else {
        assert(bytes.subrange(0, 0) =~= idle());
    }
}

/// Every measurement comes from a well-formed frame: when a byte brings a
/// measurement to a driver that was idle at first, the 32 bytes that end
/// with it are a well-formed frame, the measurement is the one that their
/// payload encodes, and the checksum derived again from the 30 bytes before
/// the trailer is the value that the trailer carries.
pub proof fn lemma_measurement_has_frame<E>(bytes: Seq<u8>, measurement: Measurement)
    requires
        settled_from::<E>(idle(), bytes) == Some(Ok::<Measurement, Error<E>>(measurement)),
    ensures
        bytes.len() >= FRAME_LEN,
        well_formed(bytes.subrange(bytes.len() - FRAME_LEN, bytes.len() as int)),
        measurement == Measurement::parsed(
            payload_of(bytes.subrange(bytes.len() - FRAME_LEN, bytes.len() as int)),
        ),
        checksum_of(bytes.subrange(bytes.len() - FRAME_LEN, bytes.len() - 2)) == be16(
            bytes[bytes.len() - 2],
            bytes[bytes.len() - 1],
        ),
{
    let before = bytes.drop_last();
    let held = held_from(idle(), before);
    lemma_held_opens_frame(before);
    let frame = bytes.subrange(bytes.len() - FRAME_LEN, bytes.len() as int);
    assert(held.push(bytes.last()) =~= frame);
    assert(frame.take(SUMMED_LEN as int) =~= bytes.subrange(
        bytes.len() - FRAME_LEN,
        bytes.len() - 2,
    ));
}

impl PMS5003 {
    /// Hands `bytes` to the driver in order until one of them ends the
    /// measurement. Returns the result, if there is one, and the number of
    /// bytes taken: with a result, the byte that brought it is the last one
    /// taken; without, all bytes were taken and another read is due.
    pub fn measure_from<E>(&mut self, bytes: &[u8]) -> (end: (
        Option<Result<Measurement, Error<E>>>,
        usize,
    ))
        ensures
            (match end.0 {
                Some(outcome) => measures(old(self)@, bytes@, end.1 as int, outcome),
                None => end.1 == bytes@.len() && forall|k: int|
                    0 < k <= bytes@.len() ==> !#[trigger] settles_from(
                        old(self)@,
                        bytes@.take(k),
                    ),
            }),
            final(self)@ == held_from(old(self)@, bytes@.take(end.1 as int)),
    {
        let ghost start = self@;
        let mut taken: usize = 0;
        while taken < bytes.len()
            invariant
                start == old(self)@,
                taken <= bytes@.len(),
                self@ == held_from(start, bytes@.take(taken as int)),
                forall|k: int| 0 < k <= taken ==> !#[trigger] settles_from(start, bytes@.take(k)),
            decreases bytes@.len() - taken,
        {
            let ghost before = bytes@.take(taken as int);
            let step = self.measure(Poll::Ready(bytes[taken]));
            taken += 1;
            proof {
                assert(bytes@.take(taken as int).drop_last() =~= before);
            }
            if step.is_some() {
                return (step, taken);
            }
        }
        (None, taken)
    }
}

} // verus!
