//! TPKT, RFC 1006 section 6: the four-byte frame that carries one TPDU over
//! TCP, because TCP is a byte stream and ISO transport needs packets.
//!
//! `03 00 LL LL`: version 3, a reserved zero, and the length of the whole
//! frame, header included, big-endian. Nothing else; the TPDU follows.

use vstd::prelude::*;
use vstd::slice::slice_subrange;
use vstd::slice::slice_to_vec;

use crate::error::result_view;
use crate::error::Error;

verus! {

/// The only TPKT version there is.
pub const VERSION: u8 = 3;

/// The frame header: version, reserved, two length bytes.
pub const HEADER_LEN: usize = 4;

/// The most a frame's length field can say.
pub const MAX_FRAME: usize = 65_535;

/// What the bytes received so far amount to.
#[derive(Clone, Debug, PartialEq, Eq)]
pub enum Reading<T> {
    /// This many more bytes have to be read before anything can be said.
    Need(usize),
    /// The peer closed where nothing was under way.
    Closed,
    /// All of it is there.
    Whole(T),
}

impl<T: View> View for Reading<T> {
    type V = Reading<T::V>;

    open spec fn view(&self) -> Reading<T::V> {
        match self {
            Reading::Need(count) => Reading::Need(*count),
            Reading::Closed => Reading::Closed,
            Reading::Whole(value) => Reading::Whole(value.view()),
        }
    }
}

/// A sixteen-bit number as two bytes, the high one first.
pub open spec fn be_bytes(number: u16) -> Seq<u8> {
    seq![(number / 256) as u8, (number % 256) as u8]
}

/// The number that two bytes make, the high one first.
pub open spec fn be_number(high: u8, low: u8) -> u16 {
    (high * 256 + low) as u16
}

/// Whether a TPDU of this many bytes fits a frame's length field.
pub open spec fn fits(len: nat) -> bool {
    len + HEADER_LEN <= MAX_FRAME
}

/// `tpdu` as one frame.
pub open spec fn frame(tpdu: Seq<u8>) -> Seq<u8> {
    seq![VERSION, 0] + be_bytes((tpdu.len() + HEADER_LEN) as u16) + tpdu
}

/// The length that a frame header announces for the whole frame.
pub open spec fn announced(header: Seq<u8>) -> int {
    be_number(header[2], header[3]) as int
}

/// What the start of a stream holds: `received` has come in from the first
/// byte of a frame on, and `closed` says that nothing will follow it.
///
/// The header is read as its first byte and then the other three, so that a
/// stream that ends between frames is told apart from one that breaks off,
/// and the TPDU as a whole after it.
pub open spec fn frame_at(received: Seq<u8>, closed: bool) -> Result<Reading<Seq<u8>>, Error> {
    let len = received.len();
    if len == 0 {
        if closed {
            Ok(Reading::Closed)
        } else {
            Ok(Reading::Need(1))
        }
    } else if len < HEADER_LEN {
        if closed {
            Err(Error::HeaderCutShort)
        } else {
            Ok(Reading::Need((HEADER_LEN - len) as usize))
        }
    } else if received[0] != VERSION {
        Err(Error::Version(received[0]))
    } else if announced(received) <= HEADER_LEN {
        Err(Error::FrameTooShort)
    } else if len < announced(received) {
        if closed {
            Err(Error::TpduCutShort)
        } else {
            Ok(Reading::Need((announced(received) - len) as usize))
        }
    } else {
        Ok(Reading::Whole(received.subrange(HEADER_LEN as int, announced(received))))
    }
}

/// Write `tpdu` as one frame behind what `wire` holds.
///
/// # Errors
/// A TPDU that does not fit a sixteen-bit length; `wire` is then as it was.
pub fn write_frame(wire: &mut Vec<u8>, tpdu: &[u8]) -> (result: Result<(), Error>)
    ensures
        result is Ok <==> fits(tpdu@.len()),
        result is Ok ==> final(wire)@ == old(wire)@ + frame(tpdu@),
        result matches Err(error) ==> error == Error::FrameTooLong && final(wire)@ == old(wire)@,
{
    if tpdu.len() > MAX_FRAME - HEADER_LEN {
        return Err(Error::FrameTooLong);
    }
    let length: u16 = (tpdu.len() + HEADER_LEN) as u16;
    wire.push(VERSION);
    wire.push(0);
    wire.push((length / 256) as u8);
    wire.push((length % 256) as u8);
    wire.extend_from_slice(tpdu);
    assert(wire@ =~= old(wire)@ + frame(tpdu@));
    Ok(())
}

/// Read one frame's TPDU from what has been received of it so far, or say
/// how many more bytes to read; `closed` where the peer sends no more.
///
/// # Errors
/// A version that is not 3, a length that leaves no byte for a TPDU, or a
/// connection that closes mid-frame.
pub fn read_frame(received: &[u8], closed: bool) -> (result: Result<Reading<Vec<u8>>, Error>)
    ensures
        result_view(result) == frame_at(received@, closed),
{
    let len: usize = received.len();
    if len == 0 {
        return if closed {
            Ok(Reading::Closed)
        } else {
            Ok(Reading::Need(1))
        };
    }
    if len < HEADER_LEN {
        return if closed {
            Err(Error::HeaderCutShort)
        } else {
            Ok(Reading::Need(HEADER_LEN - len))
        };
    }
    if received[0] != VERSION {
        return Err(Error::Version(received[0]));
    }
    let length: usize = received[2] as usize * 256 + received[3] as usize;
    if length <= HEADER_LEN {
        return Err(Error::FrameTooShort);
    }
    if len < length {
        return if closed {
            Err(Error::TpduCutShort)
        } else {
            Ok(Reading::Need(length - len))
        };
    }
    Ok(Reading::Whole(slice_to_vec(slice_subrange(received, HEADER_LEN, length))))
}

/// The view of a reading asks for as many bytes, is closed where it is, and
/// has the view of its value.
pub proof fn lemma_reading_view<T: View>(reading: Reading<T>)
    ensures
        reading matches Reading::Need(count) ==> reading@ == Reading::<T::V>::Need(count),
        reading is Closed ==> reading@ == Reading::<T::V>::Closed,
        reading matches Reading::Whole(value) ==> reading@ == Reading::<T::V>::Whole(value.view()),
{
}

/// Two bytes of a number give the number back.
pub proof fn lemma_be_round_trip(number: u16)
    ensures
        be_number(be_bytes(number)[0], be_bytes(number)[1]) == number,
{
}

/// A frame gives back the TPDU it was written from, with its length in the
/// header, whatever follows it on the stream.
pub proof fn lemma_frame_round_trip(tpdu: Seq<u8>, rest: Seq<u8>, closed: bool)
    requires
        0 < tpdu.len(),
        fits(tpdu.len()),
    ensures
        frame(tpdu).len() == tpdu.len() + HEADER_LEN,
        announced(frame(tpdu)) == frame(tpdu).len(),
        frame_at(frame(tpdu) + rest, closed) == Ok::<_, Error>(Reading::Whole(tpdu)),
{
    let received = frame(tpdu) + rest;
    lemma_be_round_trip((tpdu.len() + HEADER_LEN) as u16);
    assert(received[2] == frame(tpdu)[2] && received[3] == frame(tpdu)[3]);
    assert(received.subrange(HEADER_LEN as int, announced(received)) =~= tpdu);
}

/// A frame that carries no TPDU is written, and refused by who reads it.
pub proof fn lemma_empty_frame_is_refused(rest: Seq<u8>, closed: bool)
    ensures
        frame_at(frame(Seq::empty()) + rest, closed) == Err::<Reading<Seq<u8>>, _>(
            Error::FrameTooShort,
        ),
{
    let received = frame(Seq::empty()) + rest;
    lemma_be_round_trip(HEADER_LEN as u16);
    assert(received[2] == frame(Seq::empty())[2] && received[3] == frame(Seq::empty())[3]);
}

/// Inside a frame more is always asked for, and never a byte of the frame
/// that follows.
pub proof fn lemma_reads_stay_within_the_frame(tpdu: Seq<u8>, cut: int)
    requires
        0 < tpdu.len(),
        fits(tpdu.len()),
        0 <= cut < frame(tpdu).len(),
    ensures
        frame_at(frame(tpdu).take(cut), false) matches Ok(Reading::Need(more)) && 0 < more && cut
            + more <= frame(tpdu).len(),
{
    lemma_be_round_trip((tpdu.len() + HEADER_LEN) as u16);
}

/// Reading a stream step by step comes to what the whole of it holds: as long
/// as more is asked for, either the stream has it or it breaks off there, and
/// once no more is asked for the rest of the stream does not matter.
pub proof fn lemma_steps_come_to_the_whole(stream: Seq<u8>, cut: int)
    requires
        0 <= cut <= stream.len(),
    ensures
        match frame_at(stream.take(cut), false) {
            Ok(Reading::Need(more)) => {
                &&& 0 < more
                &&& stream.len() < cut + more ==> match frame_at(stream, true) {
                    Ok(reading) => reading is Closed,
                    Err(error) => error.cut_short(),
                }
            },
            answer => frame_at(stream, true) == answer,
        },
{
    if HEADER_LEN <= cut {
        assert(announced(stream.take(cut)) == announced(stream));
        if HEADER_LEN < announced(stream) <= cut {
            assert(stream.take(cut).subrange(HEADER_LEN as int, announced(stream))
                =~= stream.subrange(HEADER_LEN as int, announced(stream)));
        }
    }
}

/// A frame read is the frame that its TPDU makes, but for the reserved byte,
/// which is not looked at.
pub proof fn lemma_whole_frame_is_a_frame(received: Seq<u8>, closed: bool)
    requires
        frame_at(received, closed) matches Ok(Reading::Whole(_)),
    ensures
        frame_at(received, closed) matches Ok(Reading::Whole(tpdu)) && {
            &&& 0 < tpdu.len()
            &&& fits(tpdu.len())
            &&& received.take(frame(tpdu).len() as int) == frame(tpdu).update(1, received[1])
        },
{
    let length = announced(received);
    let tpdu = received.subrange(HEADER_LEN as int, length);
    assert(be_bytes(length as u16) =~= seq![received[2], received[3]]);
    assert(received.take(length) =~= frame(tpdu).update(1, received[1]));
}

} // verus!
