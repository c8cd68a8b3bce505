//! What is on the wire, byte by byte: where each field of a frame and of a
//! TPDU stands, and what any peer's bytes are read as, be they ones that this
//! side would write or not.

use vstd::arithmetic::power2::lemma2_to64;
use vstd::arithmetic::power2::lemma_pow2_unfold;
use vstd::prelude::*;

use crate::connection::lemma_wire_leads;
use crate::connection::segments;
use crate::connection::sent;
use crate::connection::unit_at;
use crate::error::Error;
use crate::tpdu::cut;
use crate::tpdu::decoded;
use crate::tpdu::encoded;
use crate::tpdu::last_value;
use crate::tpdu::lemma_last_value_skips;
use crate::tpdu::lemma_parameter_leads;
use crate::tpdu::lemma_parameters_join;
use crate::tpdu::parameters;
use crate::tpdu::size_limit;
use crate::tpdu::ConnectView;
use crate::tpdu::TpduView;
use crate::tpkt::fits;
use crate::tpkt::frame;
use crate::tpkt::frame_at;
use crate::tpkt::Reading;

verus! {

/// A frame is the bytes 3 and 0, the whole frame's length with the high byte
/// first, and the TPDU. One that would be longer than 65535 bytes is not
/// written.
pub proof fn lemma_frame_bytes(tpdu: Seq<u8>)
    ensures
        fits(tpdu.len()) <==> tpdu.len() + 4 <= 65535,
        fits(tpdu.len()) ==> {
            &&& frame(tpdu).len() == tpdu.len() + 4
            &&& frame(tpdu)[0] == 3
            &&& frame(tpdu)[1] == 0
            &&& 256 * frame(tpdu)[2] + frame(tpdu)[3] == tpdu.len() + 4
            &&& forall|i: int| 0 <= i < tpdu.len() ==> #[trigger] frame(tpdu)[4 + i] == tpdu[i]
        },
{
}

/// What any bytes are as the start of a stream of frames. Of the header only
/// the first byte must be 3, and the last two must announce a length over
/// four; until the announced length is there, more is asked for, one byte
/// first, then the rest of the header, then the rest of the frame.
pub proof fn lemma_any_bytes_as_a_frame(received: Seq<u8>)
    ensures
        received.len() == 0 ==> {
            &&& frame_at(received, true) == Ok::<_, Error>(Reading::<Seq<u8>>::Closed)
            &&& frame_at(received, false) == Ok::<_, Error>(Reading::<Seq<u8>>::Need(1))
        },
        0 < received.len() < 4 ==> {
            &&& frame_at(received, true) == Err::<Reading<Seq<u8>>, _>(Error::HeaderCutShort)
            &&& frame_at(received, false) matches Ok(Reading::Need(more)) && received.len() + more
                == 4
        },
        4 <= received.len() ==> forall|closed: bool|
            {
                let length = 256 * received[2] + received[3];
                let reading = #[trigger] frame_at(received, closed);
                &&& received[0] != 3 ==> reading == Err::<Reading<Seq<u8>>, _>(
                    Error::Version(received[0]),
                )
                &&& received[0] == 3 && length <= 4 ==> reading == Err::<Reading<Seq<u8>>, _>(
                    Error::FrameTooShort,
                )
                &&& received[0] == 3 && 4 < length && received.len() < length ==> if closed {
                    reading == Err::<Reading<Seq<u8>>, _>(Error::TpduCutShort)
                } else {
                    reading matches Ok(Reading::Need(more)) && received.len() + more == length
                }
                &&& received[0] == 3 && 4 < length <= received.len() ==> reading == Ok::<_, Error>(
                    Reading::Whole(received.subrange(4, length)),
                )
            },
{
}

/// A data TPDU is the bytes 2 and 0xF0, a byte that is 0x80 with EOT and 0
/// without, and then the segment, byte for byte and in order.
pub proof fn lemma_data_bytes(last: bool, payload: Seq<u8>)
    ensures
        ({
            let bytes = encoded(TpduView::Data { last, payload });
            &&& bytes.len() == 3 + payload.len()
            &&& bytes[0] == 2
            &&& bytes[1] == 0xF0
            &&& bytes[2] == if last {
                0x80u8
            } else {
                0u8
            }
            &&& forall|i: int| 0 <= i < payload.len() ==> #[trigger] bytes[3 + i] == payload[i]
        }),
{
}

/// Any two header bytes, the first 0xF0 but for its low four bits, and any
/// bytes behind them are a data TPDU that brings those bytes; it has EOT
/// exactly where the second header byte has its top bit.
pub proof fn lemma_any_data_is_read(code: u8, number: u8, payload: Seq<u8>)
    requires
        0xF0 <= code,
    ensures
        decoded(seq![2u8, code, number] + payload) == Ok::<_, Error>(
            TpduView::Data { last: number >= 0x80, payload },
        ),
{
    let bytes = seq![2u8, code, number] + payload;
    assert(code & 0xF0 == 0xF0) by (bit_vector)
        requires
            0xF0 <= code,
    ;
    assert((number & 0x80 != 0) == (number >= 0x80)) by (bit_vector);
    assert(bytes.skip(3) =~= payload);
}

/// A disconnect is seven bytes, the last of them the reason.
pub proof fn lemma_disconnect_bytes(reason: u8)
    ensures
        encoded(TpduView::Disconnect { reason }) == seq![6u8, 0x80, 0, 0, 0, 0, reason],
{
}

/// Any header that opens with 0x80, but for its low four bits, is a
/// disconnect. Its reason is the header's sixth byte, or 0 where there is
/// none, and what follows the header does not matter.
pub proof fn lemma_any_disconnect_is_read(header: Seq<u8>, rest: Seq<u8>)
    requires
        0 < header.len() <= 255,
        0x80 <= header[0] < 0x90,
    ensures
        decoded(seq![header.len() as u8] + header + rest) == Ok::<_, Error>(
            TpduView::Disconnect {
                reason: if header.len() >= 6 {
                    header[5]
                } else {
                    0
                },
            },
        ),
{
    let bytes = seq![header.len() as u8] + header + rest;
    let code = header[0];
    assert(code & 0xF0 == 0x80) by (bit_vector)
        requires
            0x80 <= code < 0x90,
    ;
    assert(bytes.subrange(1, 1 + bytes[0]) =~= header);
}

/// What is refused as a TPDU: no bytes, a length indicator of zero or one
/// that leaves the header short, a code other than the four, a data header
/// that is not two bytes, a connect header under six bytes, and a connect
/// for a class other than 0.
pub proof fn lemma_what_is_no_tpdu(bytes: Seq<u8>)
    ensures
        bytes.len() == 0 ==> decoded(bytes) == Err::<TpduView, _>(Error::EmptyTpdu),
        0 < bytes.len() && (bytes[0] == 0 || bytes[0] >= bytes.len()) ==> decoded(bytes) == Err::<
            TpduView,
            _,
        >(Error::LengthIndicator),
        0 < bytes.len() && 0 < bytes[0] < bytes.len() ==> {
            &&& bytes[1] < 0x80 || 0x90 <= bytes[1] < 0xD0 ==> decoded(bytes) == Err::<TpduView, _>(
                Error::Code((bytes[1] - bytes[1] % 16) as u8),
            )
            &&& 0xF0 <= bytes[1] && bytes[0] != 2 ==> decoded(bytes) == Err::<TpduView, _>(
                Error::DataHeader,
            )
            &&& 0xD0 <= bytes[1] < 0xF0 && bytes[0] < 6 ==> decoded(bytes) == Err::<TpduView, _>(
                Error::ConnectTooShort,
            )
            &&& 0xD0 <= bytes[1] < 0xF0 && bytes[0] >= 6 && bytes[6] >= 16 ==> decoded(bytes)
                == Err::<TpduView, _>(Error::Class)
        },
{
    if 0 < bytes.len() && 0 < bytes[0] < bytes.len() {
        lemma_code(bytes[1]);
        if bytes[0] >= 6 {
            lemma_code(bytes[6]);
        }
    }
}

/// To clear the low four bits takes off the remainder by 16.
proof fn lemma_code(byte: u8)
    ensures
        byte & 0xF0 == byte - byte % 16,
{
    assert(byte & 0xF0 == byte - byte % 16) by (bit_vector);
}

/// A connect is its header, length indicator first: the code, the two
/// references with the destination's first and the high byte of each first,
/// class 0, and the three parameters with the size first, then the calling
/// TSAP, then the called one. Of the TSAPs 242 bytes go out at most, and the
/// calling one's go first.
pub proof fn lemma_connect_bytes(confirm: bool, connect: ConnectView)
    ensures
        ({
            let src = if connect.src_tsap.len() <= 242 {
                connect.src_tsap
            } else {
                connect.src_tsap.take(242)
            };
            let dst = if connect.dst_tsap.len() <= 242 - src.len() {
                connect.dst_tsap
            } else {
                connect.dst_tsap.take(242 - src.len())
            };
            let bytes = encoded(
                if confirm {
                    TpduView::ConnectConfirm(connect)
                } else {
                    TpduView::ConnectRequest(connect)
                },
            );
            bytes == seq![
                (13 + src.len() + dst.len()) as u8,
                if confirm {
                    0xD0u8
                } else {
                    0xE0u8
                },
                (connect.dst_ref / 256) as u8,
                (connect.dst_ref % 256) as u8,
                (connect.src_ref / 256) as u8,
                (connect.src_ref % 256) as u8,
                0,
                0xC0,
                1,
                connect.size_code,
                0xC1,
                src.len() as u8,
            ] + src + seq![0xC2u8, dst.len() as u8] + dst
        }),
{
    let src = cut(connect).src_tsap;
    let dst = cut(connect).dst_tsap;
    assert(src.len() + dst.len() <= 242);
}

/// Parameters as bytes, one behind the other: the code, the length and the
/// value of each.
pub open spec fn written(params: Seq<(u8, Seq<u8>)>) -> Seq<u8>
    decreases params.len(),
{
    if params.len() == 0 {
        Seq::empty()
    } else {
        seq![params[0].0, params[0].1.len() as u8] + params[0].1 + written(params.drop_first())
    }
}

/// Whether the parameter at `i` is the last of its code, and the code this.
pub open spec fn last_at(params: Seq<(u8, Seq<u8>)>, code: u8, i: int) -> bool {
    &&& 0 <= i < params.len()
    &&& params[i].0 == code
    &&& forall|j: int| i < j < params.len() ==> (#[trigger] params[j]).0 != code
}

/// Whether no parameter has this code.
pub open spec fn without(params: Seq<(u8, Seq<u8>)>, code: u8) -> bool {
    forall|j: int| 0 <= j < params.len() ==> (#[trigger] params[j]).0 != code
}

/// Any connect header whose variable part is whole parameters, in any order,
/// of any codes and with any of them missing or there twice, is read for the
/// two references and three parameters, each of which counts on its own: the
/// calling TSAP is the value of the last 0xC1, the called one that of the last
/// 0xC2, each empty where there is none, and the size code the first byte of
/// the last 0xC0, or 10 where there is none or it is empty.
pub proof fn lemma_any_connect_is_read(fixed: Seq<u8>, params: Seq<(u8, Seq<u8>)>, rest: Seq<u8>)
    requires
        fixed.len() == 6,
        0xD0 <= fixed[0] < 0xF0,
        fixed[5] < 16,
        forall|i: int| 0 <= i < params.len() ==> (#[trigger] params[i]).1.len() <= 255,
        6 + written(params).len() <= 255,
    ensures
        ({
            let indicator = (6 + written(params).len()) as u8;
            let unit = decoded(seq![indicator] + fixed + written(params) + rest);
            let connect = if fixed[0] < 0xE0 {
                unit->Ok_0->ConnectConfirm_0
            } else {
                unit->Ok_0->ConnectRequest_0
            };
            &&& unit is Ok
            &&& fixed[0] < 0xE0 ==> unit->Ok_0 is ConnectConfirm
            &&& fixed[0] >= 0xE0 ==> unit->Ok_0 is ConnectRequest
            &&& connect.dst_ref == 256 * fixed[1] + fixed[2]
            &&& connect.src_ref == 256 * fixed[3] + fixed[4]
            &&& forall|i: int|
                #[trigger] last_at(params, 0xC0, i) ==> connect.size_code == if params[i].1.len()
                    == 0 {
                    10
                } else {
                    params[i].1[0]
                }
            &&& without(params, 0xC0) ==> connect.size_code == 10
            &&& forall|i: int| #[trigger]
                last_at(params, 0xC1, i) ==> connect.src_tsap == params[i].1
            &&& without(params, 0xC1) ==> connect.src_tsap.len() == 0
            &&& forall|i: int| #[trigger]
                last_at(params, 0xC2, i) ==> connect.dst_tsap == params[i].1
            &&& without(params, 0xC2) ==> connect.dst_tsap.len() == 0
        }),
{
    let part = written(params);
    let header = fixed + part;
    let bytes = seq![(6 + part.len()) as u8] + fixed + part + rest;
    lemma_code(fixed[0]);
    lemma_code(fixed[5]);
    lemma_written_is_read(params);
    assert(bytes.subrange(1, 1 + bytes[0]) =~= header);
    assert(header.skip(6) =~= part);
    lemma_last_value(params, 0xC0);
    lemma_last_value(params, 0xC1);
    lemma_last_value(params, 0xC2);
}

/// The references and parameters that a connect carries.
pub open spec fn connect_in(unit: TpduView) -> ConnectView {
    match unit {
        TpduView::ConnectRequest(connect) => connect,
        TpduView::ConnectConfirm(connect) => connect,
        _ => arbitrary(),
    }
}

/// A parameter that is added to a connect, wherever between the others, or
/// taken out of it, changes neither the references nor what any parameter of
/// another code is read for.
pub proof fn lemma_parameter_changes_only_its_own(
    fixed: Seq<u8>,
    before: Seq<(u8, Seq<u8>)>,
    code: u8,
    value: Seq<u8>,
    behind: Seq<(u8, Seq<u8>)>,
    rest: Seq<u8>,
)
    requires
        fixed.len() == 6,
        0xD0 <= fixed[0] < 0xF0,
        fixed[5] < 16,
        forall|i: int| 0 <= i < before.len() ==> (#[trigger] before[i]).1.len() <= 255,
        value.len() <= 255,
        forall|i: int| 0 <= i < behind.len() ==> (#[trigger] behind[i]).1.len() <= 255,
        6 + written(before).len() + 2 + value.len() + written(behind).len() <= 255,
    ensures
        ({
            let few = written(before) + written(behind);
            let more = written(before) + seq![code, value.len() as u8] + value + written(behind);
            let unit = decoded(seq![(6 + few.len()) as u8] + fixed + few + rest);
            let longer = decoded(seq![(6 + more.len()) as u8] + fixed + more + rest);
            let connect = connect_in(unit->Ok_0);
            let other = connect_in(longer->Ok_0);
            &&& unit is Ok
            &&& longer is Ok
            &&& unit->Ok_0 is ConnectRequest <==> longer->Ok_0 is ConnectRequest
            &&& unit->Ok_0 is ConnectConfirm <==> longer->Ok_0 is ConnectConfirm
            &&& other.src_ref == connect.src_ref
            &&& other.dst_ref == connect.dst_ref
            &&& code != 0xC0 ==> other.size_code == connect.size_code
            &&& code != 0xC1 ==> other.src_tsap == connect.src_tsap
            &&& code != 0xC2 ==> other.dst_tsap == connect.dst_tsap
        }),
{
    let few = written(before) + written(behind);
    let more = written(before) + seq![code, value.len() as u8] + value + written(behind);
    let unit = seq![(6 + few.len()) as u8] + fixed + few + rest;
    let longer = seq![(6 + more.len()) as u8] + fixed + more + rest;
    lemma_code(fixed[0]);
    lemma_code(fixed[5]);
    lemma_written_is_read(before);
    lemma_written_is_read(behind);
    lemma_parameters_join(written(before), written(behind));
    lemma_parameter_leads(code, value, written(behind));
    lemma_parameters_join(
        written(before),
        seq![code, value.len() as u8] + value + written(behind),
    );
    assert(more =~= written(before) + (seq![code, value.len() as u8] + value + written(behind)));
    assert(unit.subrange(1, 1 + unit[0]) =~= fixed + few);
    assert(longer.subrange(1, 1 + longer[0]) =~= fixed + more);
    assert((fixed + few).skip(6) =~= few);
    assert((fixed + more).skip(6) =~= more);
    if code != 0xC0 {
        lemma_last_value_skips(before, (code, value), behind, 0xC0);
    }
    if code != 0xC1 {
        lemma_last_value_skips(before, (code, value), behind, 0xC1);
    }
    if code != 0xC2 {
        lemma_last_value_skips(before, (code, value), behind, 0xC2);
    }
}

/// Behind whole parameters, a single byte is refused as a parameter without
/// its length, and one that announces more than the header has left as a
/// parameter that runs off it, whatever stands before.
pub proof fn lemma_broken_parameter_is_refused(
    fixed: Seq<u8>,
    params: Seq<(u8, Seq<u8>)>,
    broken: Seq<u8>,
    rest: Seq<u8>,
)
    requires
        fixed.len() == 6,
        0xD0 <= fixed[0] < 0xF0,
        fixed[5] < 16,
        forall|i: int| 0 <= i < params.len() ==> (#[trigger] params[i]).1.len() <= 255,
        0 < broken.len(),
        broken.len() == 1 || broken.len() < 2 + broken[1],
        6 + written(params).len() + broken.len() <= 255,
    ensures
        ({
            let indicator = (6 + written(params).len() + broken.len()) as u8;
            decoded(seq![indicator] + fixed + written(params) + broken + rest) == Err::<
                TpduView,
                _,
            >(
                if broken.len() == 1 {
                    Error::ParameterLength
                } else {
                    Error::ParameterValue
                },
            )
        }),
{
    let part = written(params) + broken;
    let header = fixed + part;
    let bytes = seq![(6 + part.len()) as u8] + fixed + written(params) + broken + rest;
    lemma_code(fixed[0]);
    lemma_code(fixed[5]);
    lemma_written_is_read(params);
    lemma_parameters_join(written(params), broken);
    assert(bytes.subrange(1, 1 + bytes[0]) =~= header);
    assert(header.skip(6) =~= part);
}

/// Parameters are read as they were written.
proof fn lemma_written_is_read(params: Seq<(u8, Seq<u8>)>)
    requires
        forall|i: int| 0 <= i < params.len() ==> (#[trigger] params[i]).1.len() <= 255,
    ensures
        parameters(written(params)) == Ok::<_, Error>(params),
    decreases params.len(),
{
    if params.len() == 0 {
        assert(params =~= Seq::empty());
    } else {
        let others = params.drop_first();
        assert forall|i: int| 0 <= i < others.len() implies (#[trigger] others[i]).1.len()
            <= 255 by {
            assert(others[i] == params[i + 1]);
        }
        lemma_written_is_read(others);
        lemma_parameter_leads(params[0].0, params[0].1, written(others));
        assert(seq![(params[0].0, params[0].1)] + others =~= params);
    }
}

/// The last value of a code is where the last parameter of that code is.
proof fn lemma_last_value(params: Seq<(u8, Seq<u8>)>, code: u8)
    ensures
        forall|i: int| #[trigger]
            last_at(params, code, i) ==> last_value(params, code) == Some(params[i].1),
        without(params, code) ==> last_value(params, code) is None,
    decreases params.len(),
{
    if params.len() > 0 && params.last().0 != code {
        let others = params.drop_last();
        lemma_last_value(others, code);
        assert forall|i: int| #[trigger] last_at(params, code, i) implies last_value(params, code)
            == Some(params[i].1) by {
            assert(last_at(others, code, i));
        }
        if without(params, code) {
            assert(without(others, code));
        }
    }
}

/// A message that fits one TPDU of the size settled on goes out as one frame
/// with EOT. A longer one goes out as a full TPDU's frame without EOT, which
/// carries as much of the message's start as fits, and then as the rest of
/// the message does.
pub proof fn lemma_message_bytes(message: Seq<u8>, size: nat)
    requires
        3 < size,
        size + 4 <= 65535,
    ensures
        message.len() <= size - 3 ==> sent(message, size) == seq![
            3u8,
            0,
            ((message.len() + 7) / 256) as u8,
            ((message.len() + 7) % 256) as u8,
            2,
            0xF0,
            0x80,
        ] + message,
        message.len() > size - 3 ==> sent(message, size) == seq![
            3u8,
            0,
            ((size + 4) / 256) as u8,
            ((size + 4) % 256) as u8,
            2,
            0xF0,
            0,
        ] + message.take(size - 3) + sent(message.skip(size - 3), size),
{
    let room = size - 3;
    if message.len() <= room {
        let unit = TpduView::Data { last: true, payload: message };
        assert(segments(message, size) =~= seq![unit] + Seq::empty());
        lemma_wire_leads(unit, Seq::empty());
    } else {
        let unit = TpduView::Data { last: false, payload: message.take(room) };
        lemma_wire_leads(unit, segments(message.skip(room), size));
    }
}

/// What a frame's TPDU is read as is what its bytes say, or are refused for,
/// and what is not a whole frame is answered as for the frame alone.
pub proof fn lemma_frame_is_read_for_its_tpdu(received: Seq<u8>, closed: bool)
    ensures
        match frame_at(received, closed) {
            Ok(Reading::Whole(bytes)) => match decoded(bytes) {
                Ok(unit) => unit_at(received, closed) == Ok::<_, Error>(Reading::Whole(unit)),
                Err(error) => unit_at(received, closed) == Err::<Reading<TpduView>, _>(error),
            },
            Ok(Reading::Need(more)) => unit_at(received, closed) == Ok::<_, Error>(
                Reading::<TpduView>::Need(more),
            ),
            Ok(Reading::Closed) => unit_at(received, closed) == Ok::<_, Error>(
                Reading::<TpduView>::Closed,
            ),
            Err(error) => unit_at(received, closed) == Err::<Reading<TpduView>, _>(error),
        },
{
}

/// A size code of 7 allows 128 bytes, each further one twice as many, and
/// 13 and all above it 8192; those below 7 allow as much as 7.
pub proof fn lemma_sizes(code: u8)
    ensures
        code <= 7 ==> size_limit(code) == 128,
        7 <= code < 13 ==> size_limit((code + 1) as u8) == 2 * size_limit(code),
        code >= 13 ==> size_limit(code) == 8192,
{
    lemma2_to64();
    if 7 <= code < 13 {
        lemma_pow2_unfold((code + 1) as nat);
    }
}

} // verus!
