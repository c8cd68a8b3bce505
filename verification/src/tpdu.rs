//! COTP class 0 TPDUs, ISO 8073 as RFC 1006 profiles it: the four that a
//! connection needs and nothing the class does not use.
//!
//! Every TPDU opens with a length indicator, which is the header's length
//! with itself excluded, and a code byte. Connect request and confirm carry a
//! variable part of `code length value` parameters, of which three matter
//! here: the TPDU size (0xC0), the calling TSAP (0xC1) and the called TSAP
//! (0xC2). Data carries one byte whose top bit says whether the segment ends
//! the message.

use vstd::arithmetic::power2::lemma2_to64;
use vstd::arithmetic::power2::lemma_pow2_strictly_increases;
use vstd::arithmetic::power2::pow2;
use vstd::bits::lemma_usize_shl_is_mul;
use vstd::prelude::*;
use vstd::slice::slice_subrange;
use vstd::slice::slice_to_vec;

use crate::error::result_view;
use crate::error::Error;
use crate::tpkt::be_bytes;
use crate::tpkt::be_number;
use crate::tpkt::lemma_be_round_trip;

verus! {

/// The TPDU size code proposed by default: 2^10, 1024 bytes.
pub const DEFAULT_SIZE_CODE: u8 = 10;

/// The largest size code class 0 negotiates: 2^13, 8192 bytes.
pub const MAX_SIZE_CODE: u8 = 13;

/// The smallest: 2^7, 128 bytes.
pub const MIN_SIZE_CODE: u8 = 7;

/// The code of a connect request.
pub const CR: u8 = 0xE0;

/// The code of a connect confirm.
pub const CC: u8 = 0xD0;

/// The code of a data TPDU.
pub const DT: u8 = 0xF0;

/// The code of a disconnect request.
pub const DR: u8 = 0x80;

/// The parameter that proposes or settles the TPDU size.
pub const PARAM_SIZE: u8 = 0xC0;

/// The parameter that names the calling TSAP.
pub const PARAM_SRC_TSAP: u8 = 0xC1;

/// The parameter that names the called TSAP.
pub const PARAM_DST_TSAP: u8 = 0xC2;

/// The bytes that a connect header, 255 at most, leaves for both TSAPs.
pub const MAX_TSAPS: usize = 242;

/// One transport protocol data unit.
#[derive(Clone, Debug, PartialEq, Eq)]
pub enum Tpdu {
    /// CR: the caller names both TSAPs and proposes a size.
    ConnectRequest(Connect),
    /// CC: the called side echoes the TSAPs and settles the size.
    ConnectConfirm(Connect),
    /// DT: one segment of a message; `last` is the EOT bit.
    Data { last: bool, payload: Vec<u8> },
    /// DR: either side ends the connection.
    Disconnect { reason: u8 },
}

/// What CR and CC carry.
#[derive(Clone, Debug, PartialEq, Eq)]
pub struct Connect {
    pub src_ref: u16,
    pub dst_ref: u16,
    /// The size code: the TPDU may be 2^code bytes.
    pub size_code: u8,
    pub src_tsap: Vec<u8>,
    pub dst_tsap: Vec<u8>,
}

/// What a [`Connect`] says.
#[verifier::ext_equal]
pub struct ConnectView {
    pub src_ref: u16,
    pub dst_ref: u16,
    pub size_code: u8,
    pub src_tsap: Seq<u8>,
    pub dst_tsap: Seq<u8>,
}

/// What a [`Tpdu`] says.
#[verifier::ext_equal]
pub enum TpduView {
    ConnectRequest(ConnectView),
    ConnectConfirm(ConnectView),
    Data { last: bool, payload: Seq<u8> },
    Disconnect { reason: u8 },
}

impl View for Connect {
    type V = ConnectView;

    open spec fn view(&self) -> ConnectView {
        ConnectView {
            src_ref: self.src_ref,
            dst_ref: self.dst_ref,
            size_code: self.size_code,
            src_tsap: self.src_tsap@,
            dst_tsap: self.dst_tsap@,
        }
    }
}

impl View for Tpdu {
    type V = TpduView;

    open spec fn view(&self) -> TpduView {
        match self {
            Tpdu::ConnectRequest(connect) => TpduView::ConnectRequest(connect@),
            Tpdu::ConnectConfirm(connect) => TpduView::ConnectConfirm(connect@),
            Tpdu::Data { last, payload } => TpduView::Data { last: *last, payload: payload@ },
            Tpdu::Disconnect { reason } => TpduView::Disconnect { reason: *reason },
        }
    }
}

/// A size code brought into the range that class 0 negotiates.
pub open spec fn clamped(code: u8) -> u8 {
    if code < MIN_SIZE_CODE {
        MIN_SIZE_CODE
    } else if code > MAX_SIZE_CODE {
        MAX_SIZE_CODE
    } else {
        code
    }
}

/// The most bytes a TPDU may have under a size code.
pub open spec fn size_limit(code: u8) -> nat {
    pow2(clamped(code) as nat)
}

/// The first `room` bytes of a TSAP, or all of a shorter one.
pub open spec fn shortened(tsap: Seq<u8>, room: int) -> Seq<u8> {
    if tsap.len() <= room {
        tsap
    } else {
        tsap.take(room)
    }
}

/// As much of a connect as its header holds: the calling TSAP, then what is
/// left of [`MAX_TSAPS`] bytes for the called one.
pub open spec fn cut(connect: ConnectView) -> ConnectView {
    let src_tsap = shortened(connect.src_tsap, MAX_TSAPS as int);
    ConnectView {
        src_tsap,
        dst_tsap: shortened(connect.dst_tsap, MAX_TSAPS - src_tsap.len()),
        ..connect
    }
}

/// One `code length value` parameter.
pub open spec fn parameter(code: u8, value: Seq<u8>) -> Seq<u8> {
    seq![code, value.len() as u8] + value
}

/// The header of CR or CC behind its length indicator, of a connect that it
/// holds.
pub open spec fn connect_header(code: u8, connect: ConnectView) -> Seq<u8> {
    seq![code] + be_bytes(connect.dst_ref) + be_bytes(connect.src_ref) + seq![0u8] + parameter(
        PARAM_SIZE,
        seq![connect.size_code],
    ) + parameter(PARAM_SRC_TSAP, connect.src_tsap) + parameter(
        PARAM_DST_TSAP,
        connect.dst_tsap,
    )
}

/// CR or CC: the header and before it its length.
pub open spec fn connect_bytes(code: u8, connect: ConnectView) -> Seq<u8> {
    let header = connect_header(code, cut(connect));
    seq![header.len() as u8] + header
}

/// `tpdu` as bytes on the wire.
pub open spec fn encoded(tpdu: TpduView) -> Seq<u8> {
    match tpdu {
        TpduView::ConnectRequest(connect) => connect_bytes(CR, connect),
        TpduView::ConnectConfirm(connect) => connect_bytes(CC, connect),
        TpduView::Data { last, payload } => seq![
            2u8,
            DT,
            if last {
                0x80u8
            } else {
                0x00u8
            },
        ] + payload,
        TpduView::Disconnect { reason } => seq![6u8, DR, 0, 0, 0, 0, reason],
    }
}

/// The parameters that a header's variable part consists of, in order.
pub open spec fn parameters(part: Seq<u8>) -> Result<Seq<(u8, Seq<u8>)>, Error>
    decreases part.len(),
{
    if part.len() == 0 {
        Ok(Seq::empty())
    } else if part.len() == 1 {
        Err(Error::ParameterLength)
    } else if part.len() < 2 + part[1] {
        Err(Error::ParameterValue)
    } else {
        match parameters(part.skip(2 + part[1])) {
            Ok(others) => Ok(seq![(part[0], part.subrange(2, 2 + part[1]))] + others),
            Err(error) => Err(error),
        }
    }
}

/// The value of the last parameter with this code.
pub open spec fn last_value(params: Seq<(u8, Seq<u8>)>, code: u8) -> Option<Seq<u8>>
    decreases params.len(),
{
    if params.len() == 0 {
        None
    } else if params.last().0 == code {
        Some(params.last().1)
    } else {
        last_value(params.drop_last(), code)
    }
}

/// What a connect says whose two references and parameters are these. Of a
/// parameter that comes twice the last one counts.
pub open spec fn connect_of(
    dst_ref: u16,
    src_ref: u16,
    params: Seq<(u8, Seq<u8>)>,
) -> ConnectView {
    ConnectView {
        src_ref,
        dst_ref,
        size_code: match last_value(params, PARAM_SIZE) {
            Some(value) => if value.len() == 0 {
                DEFAULT_SIZE_CODE
            } else {
                value[0]
            },
            None => DEFAULT_SIZE_CODE,
        },
        src_tsap: match last_value(params, PARAM_SRC_TSAP) {
            Some(value) => value,
            None => Seq::empty(),
        },
        dst_tsap: match last_value(params, PARAM_DST_TSAP) {
            Some(value) => value,
            None => Seq::empty(),
        },
    }
}

/// What a connect header says, its code aside.
pub open spec fn decoded_connect(header: Seq<u8>) -> Result<ConnectView, Error> {
    if header.len() < 6 {
        Err(Error::ConnectTooShort)
    } else if header[5] & 0xF0 != 0 {
        Err(Error::Class)
    } else {
        match parameters(header.skip(6)) {
            Ok(params) => Ok(
                connect_of(
                    be_number(header[1], header[2]),
                    be_number(header[3], header[4]),
                    params,
                ),
            ),
            Err(error) => Err(error),
        }
    }
}

/// What a TPDU's header, behind the length indicator, and what follows the
/// header say.
pub open spec fn decoded_parts(header: Seq<u8>, payload: Seq<u8>) -> Result<TpduView, Error> {
    let code = header[0] & 0xF0;
    if code == CR {
        match decoded_connect(header) {
            Ok(connect) => Ok(TpduView::ConnectRequest(connect)),
            Err(error) => Err(error),
        }
    } else if code == CC {
        match decoded_connect(header) {
            Ok(connect) => Ok(TpduView::ConnectConfirm(connect)),
            Err(error) => Err(error),
        }
    } else if code == DT {
        if header.len() != 2 {
            Err(Error::DataHeader)
        } else {
            Ok(TpduView::Data { last: header[1] & 0x80 != 0, payload })
        }
    } else if code == DR {
        Ok(
            TpduView::Disconnect {
                reason: if header.len() > 5 {
                    header[5]
                } else {
                    0
                },
            },
        )
    } else {
        Err(Error::Code(code))
    }
}

/// What the bytes of one TPDU say.
pub open spec fn decoded(bytes: Seq<u8>) -> Result<TpduView, Error> {
    if bytes.len() == 0 {
        Err(Error::EmptyTpdu)
    } else if bytes[0] == 0 || bytes[0] >= bytes.len() {
        Err(Error::LengthIndicator)
    } else {
        decoded_parts(bytes.subrange(1, 1 + bytes[0]), bytes.skip(1 + bytes[0]))
    }
}

/// The view of a TPDU has all that the TPDU has: what kind it is, its
/// numbers, and its bytes in order.
pub proof fn lemma_view_has_all(tpdu: Tpdu)
    ensures
        tpdu matches Tpdu::ConnectRequest(connect) ==> {
            &&& tpdu@ matches TpduView::ConnectRequest(view)
            &&& view == connect@
        },
        tpdu matches Tpdu::ConnectConfirm(connect) ==> {
            &&& tpdu@ matches TpduView::ConnectConfirm(view)
            &&& view == connect@
        },
        tpdu matches Tpdu::ConnectRequest(connect) ==> {
            &&& connect@.src_ref == connect.src_ref
            &&& connect@.dst_ref == connect.dst_ref
            &&& connect@.size_code == connect.size_code
            &&& connect@.src_tsap == connect.src_tsap@
            &&& connect@.dst_tsap == connect.dst_tsap@
        },
        tpdu matches Tpdu::ConnectConfirm(connect) ==> {
            &&& connect@.src_ref == connect.src_ref
            &&& connect@.dst_ref == connect.dst_ref
            &&& connect@.size_code == connect.size_code
            &&& connect@.src_tsap == connect.src_tsap@
            &&& connect@.dst_tsap == connect.dst_tsap@
        },
        tpdu matches Tpdu::Data { last, payload } ==> tpdu@ == (TpduView::Data {
            last,
            payload: payload@,
        }),
        tpdu matches Tpdu::Disconnect { reason } ==> tpdu@ == (TpduView::Disconnect { reason }),
{
}

/// The largest TPDU a size code allows.
#[must_use]
pub fn size_of(code: u8) -> (size: usize)
    ensures
        size == size_limit(code),
        128 <= size <= 8192,
{
    let exponent: u8 = if code < MIN_SIZE_CODE {
        MIN_SIZE_CODE
    } else if code > MAX_SIZE_CODE {
        MAX_SIZE_CODE
    } else {
        code
    };
    proof {
        lemma_size_limit_range(code);
        lemma_usize_shl_is_mul(1, exponent as usize);
    }
    1usize << exponent
}

/// `tpdu` as bytes on the wire.
#[must_use]
pub fn encode(tpdu: &Tpdu) -> (bytes: Vec<u8>)
    ensures
        bytes@ == encoded(tpdu@),
{
    match tpdu {
        Tpdu::ConnectRequest(connect) => encode_connect(CR, connect),
        Tpdu::ConnectConfirm(connect) => encode_connect(CC, connect),
        Tpdu::Data { last, payload } => {
            let mut out: Vec<u8> = Vec::new();
            out.push(2);
            out.push(DT);
            out.push(
                if *last {
                    0x80
                } else {
                    0x00
                },
            );
            out.extend_from_slice(payload);
            assert(out@ =~= encoded(tpdu@));
            out
        },
        Tpdu::Disconnect { reason } => {
            let out: Vec<u8> = vec![6, DR, 0, 0, 0, 0, *reason];
            assert(out@ =~= encoded(tpdu@));
            out
        },
    }
}

/// CR or CC as bytes on the wire. TSAPs that the header does not hold are cut
/// to what it does.
fn encode_connect(code: u8, connect: &Connect) -> (out: Vec<u8>)
    ensures
        out@ == connect_bytes(code, connect@),
        out@[0] == out@.len() - 1,
{
    let mut out: Vec<u8> = vec![0, code];
    out.push((connect.dst_ref / 256) as u8);
    out.push((connect.dst_ref % 256) as u8);
    out.push((connect.src_ref / 256) as u8);
    out.push((connect.src_ref % 256) as u8);
    out.push(0);
    out.push(PARAM_SIZE);
    out.push(1);
    out.push(connect.size_code);
    let room: usize = push_tsap(&mut out, PARAM_SRC_TSAP, &connect.src_tsap, MAX_TSAPS);
    push_tsap(&mut out, PARAM_DST_TSAP, &connect.dst_tsap, room);
    out[0] = (out.len() - 1) as u8;
    assert(out@.skip(1) =~= connect_header(code, cut(connect@)));
    assert(out@ =~= connect_bytes(code, connect@));
    out
}

/// The parameter that names a TSAP of which `room` bytes fit, behind what
/// `out` holds; the room that is then left.
fn push_tsap(out: &mut Vec<u8>, code: u8, tsap: &[u8], room: usize) -> (left: usize)
    requires
        room <= MAX_TSAPS,
    ensures
        final(out)@ == old(out)@ + parameter(code, shortened(tsap@, room as int)),
        left == room - shortened(tsap@, room as int).len(),
{
    let value: &[u8] = if tsap.len() <= room {
        tsap
    } else {
        slice_subrange(tsap, 0, room)
    };
    assert(value@ =~= shortened(tsap@, room as int));
    out.push(code);
    out.push(value.len() as u8);
    out.extend_from_slice(value);
    assert(out@ =~= old(out)@ + parameter(code, shortened(tsap@, room as int)));
    room - value.len()
}

/// Read one TPDU.
///
/// # Errors
/// A length indicator past the end, a code class 0 does not use, or a
/// parameter that runs off the header.
pub fn decode(bytes: &[u8]) -> (result: Result<Tpdu, Error>)
    ensures
        result_view(result) == decoded(bytes@),
{
    if bytes.len() == 0 {
        return Err(Error::EmptyTpdu);
    }
    let indicator: usize = bytes[0] as usize;
    if indicator == 0 || indicator >= bytes.len() {
        return Err(Error::LengthIndicator);
    }
    let header: &[u8] = slice_subrange(bytes, 1, 1 + indicator);
    let payload: &[u8] = slice_subrange(bytes, 1 + indicator, bytes.len());
    assert(payload@ =~= bytes@.skip(1 + bytes@[0]));
    let code: u8 = header[0] & 0xF0;
    if code == CR {
        match decode_connect(header) {
            Ok(connect) => Ok(Tpdu::ConnectRequest(connect)),
            Err(error) => Err(error),
        }
    } else if code == CC {
        match decode_connect(header) {
            Ok(connect) => Ok(Tpdu::ConnectConfirm(connect)),
            Err(error) => Err(error),
        }
    } else if code == DT {
        if header.len() != 2 {
            return Err(Error::DataHeader);
        }
        Ok(Tpdu::Data { last: header[1] & 0x80 != 0, payload: slice_to_vec(payload) })
    } else if code == DR {
        Ok(
            Tpdu::Disconnect {
                reason: if header.len() > 5 {
                    header[5]
                } else {
                    0
                },
            },
        )
    } else {
        Err(Error::Code(code))
    }
}

/// Read what a connect header says.
fn decode_connect(header: &[u8]) -> (result: Result<Connect, Error>)
    ensures
        result_view(result) == decoded_connect(header@),
{
    if header.len() < 6 {
        return Err(Error::ConnectTooShort);
    }
    let dst_ref: u16 = header[1] as u16 * 256 + header[2] as u16;
    let src_ref: u16 = header[3] as u16 * 256 + header[4] as u16;
    if header[5] & 0xF0 != 0 {
        return Err(Error::Class);
    }
    let mut connect = Connect {
        src_ref,
        dst_ref,
        size_code: DEFAULT_SIZE_CODE,
        src_tsap: Vec::new(),
        dst_tsap: Vec::new(),
    };
    let mut at: usize = 6;
    let ghost mut params: Seq<(u8, Seq<u8>)> = Seq::empty();
    assert(connect@ =~= connect_of(dst_ref, src_ref, params));
    while at < header.len()
        invariant
            6 <= at <= header@.len(),
            header@[5] & 0xF0 == 0,
            dst_ref == be_number(header@[1], header@[2]),
            src_ref == be_number(header@[3], header@[4]),
            connect@ == connect_of(dst_ref, src_ref, params),
            parameters(header@.skip(6)) == (match parameters(header@.skip(at as int)) {
                Ok(others) => Ok::<_, Error>(params + others),
                Err(error) => Err(error),
            }),
        decreases header@.len() - at,
    {
        let code: u8 = header[at];
        let ghost part = header@.skip(at as int);
        if header.len() - at < 2 {
            return Err(Error::ParameterLength);
        }
        let length: usize = header[at + 1] as usize;
        if header.len() - at - 2 < length {
            return Err(Error::ParameterValue);
        }
        let value: &[u8] = slice_subrange(header, at + 2, at + 2 + length);
        let ghost before = params;
        proof {
            params = params.push((code, value@));
            assert(part.subrange(2, 2 + part[1]) =~= value@);
            assert(part.skip(2 + part[1]) =~= header@.skip(at + 2 + length));
            assert(params.drop_last() =~= before);
            assert forall|others: Seq<(u8, Seq<u8>)>|
                before + (seq![(code, value@)] + others) == #[trigger] (params + others) by {
                assert(before + (seq![(code, value@)] + others) =~= params + others);
            }
        }
        if code == PARAM_SIZE {
            connect.size_code = if value.len() == 0 {
                DEFAULT_SIZE_CODE
            } else {
                value[0]
            };
        } else if code == PARAM_SRC_TSAP {
            connect.src_tsap = slice_to_vec(value);
        } else if code == PARAM_DST_TSAP {
            connect.dst_tsap = slice_to_vec(value);
        }
        assert(connect@ =~= connect_of(dst_ref, src_ref, params));
        at = at + 2 + length;
    }
    assert(params + Seq::empty() =~= params);
    Ok(connect)
}

/// Whether a TPDU's header holds all that the TPDU says: a connect's two
/// TSAPs have no more than [`MAX_TSAPS`] bytes between them.
pub open spec fn carried(tpdu: TpduView) -> bool {
    match tpdu {
        TpduView::ConnectRequest(connect) | TpduView::ConnectConfirm(connect) => {
            connect.src_tsap.len() + connect.dst_tsap.len() <= MAX_TSAPS
        },
        _ => true,
    }
}

/// As much of a TPDU as its header holds.
pub open spec fn cut_tpdu(tpdu: TpduView) -> TpduView {
    match tpdu {
        TpduView::ConnectRequest(connect) => TpduView::ConnectRequest(cut(connect)),
        TpduView::ConnectConfirm(connect) => TpduView::ConnectConfirm(cut(connect)),
        _ => tpdu,
    }
}

/// A TPDU decodes to as much of what was encoded as its header holds, which
/// is all of it exactly where a connect's TSAPs fit.
pub proof fn lemma_round_trip(tpdu: TpduView)
    ensures
        decoded(encoded(tpdu)) == Ok::<_, Error>(cut_tpdu(tpdu)),
        cut_tpdu(tpdu) == tpdu <==> carried(tpdu),
{
    let bytes = encoded(tpdu);
    assert(0xE0u8 & 0xF0 == 0xE0 && 0xD0u8 & 0xF0 == 0xD0 && 0xF0u8 & 0xF0 == 0xF0 && 0x80u8 & 0xF0
        == 0x80 && 0x80u8 & 0x80 != 0 && 0x00u8 & 0x80 == 0) by (bit_vector);
    match tpdu {
        TpduView::ConnectRequest(connect) => {
            lemma_connect_round_trip(CR, connect);
        },
        TpduView::ConnectConfirm(connect) => {
            lemma_connect_round_trip(CC, connect);
        },
        TpduView::Data { payload, .. } => {
            assert(bytes.skip(3) =~= payload);
        },
        TpduView::Disconnect { .. } => {},
    }
}

/// The header of a connect says as much of what was encoded as it holds.
proof fn lemma_connect_round_trip(code: u8, connect: ConnectView)
    ensures
        ({
            let bytes = connect_bytes(code, connect);
            let header = bytes.subrange(1, 1 + bytes[0]);
            &&& 0 < bytes[0] < bytes.len()
            &&& header[0] == code
            &&& decoded_connect(header) == Ok::<_, Error>(cut(connect))
        }),
{
    let bytes = connect_bytes(code, connect);
    let header = bytes.subrange(1, 1 + bytes[0]);
    let src = cut(connect).src_tsap;
    let dst = cut(connect).dst_tsap;
    let size = parameter(PARAM_SIZE, seq![connect.size_code]);
    let from = parameter(PARAM_SRC_TSAP, src);
    let to = parameter(PARAM_DST_TSAP, dst);
    let params = seq![
        (PARAM_SIZE, seq![connect.size_code]),
        (PARAM_SRC_TSAP, src),
        (PARAM_DST_TSAP, dst),
    ];
    let part = header.skip(6);
    assert(header =~= connect_header(code, cut(connect)));
    assert(0x00u8 & 0xF0 == 0) by (bit_vector);
    lemma_be_round_trip(connect.dst_ref);
    lemma_be_round_trip(connect.src_ref);
    assert(be_number(header[1], header[2]) == connect.dst_ref);
    assert(be_number(header[3], header[4]) == connect.src_ref);
    assert(header[5] == 0);
    assert(part =~= size + (from + (to + Seq::empty())));
    lemma_parameter_leads(PARAM_DST_TSAP, dst, Seq::empty());
    lemma_parameter_leads(PARAM_SRC_TSAP, src, to + Seq::empty());
    lemma_parameter_leads(PARAM_SIZE, seq![connect.size_code], from + (to + Seq::empty()));
    assert(parameters(part)->Ok_0 =~= params);
    assert(params.drop_last() =~= params.take(2));
    assert(params.drop_last().drop_last() =~= params.take(1));
    reveal_with_fuel(last_value, 4);
    assert(decoded_connect(header)->Ok_0 =~= cut(connect));
}

/// Every TPDU opens with its header's length, itself excluded: a connect and
/// a disconnect are all header, and of a data TPDU two bytes are.
pub proof fn lemma_length_indicator(tpdu: TpduView)
    ensures
        encoded(tpdu)[0] == match tpdu {
            TpduView::Data { payload, .. } => encoded(tpdu).len() - payload.len() - 1,
            _ => encoded(tpdu).len() - 1,
        },
{
}

/// A connect goes out as the connect that is left of it once its TSAPs are
/// cut, 14 bytes and the two of them long.
pub proof fn lemma_connect_is_cut(code: u8, connect: ConnectView)
    ensures
        connect_bytes(code, connect) == connect_bytes(code, cut(connect)),
        connect_bytes(code, connect).len() == 14 + cut(connect).src_tsap.len() + cut(
            connect,
        ).dst_tsap.len(),
{
    assert(cut(cut(connect)) =~= cut(connect));
}

/// To cut each TSAP first to what a parameter's one-byte length can say
/// changes nothing, and a connect that is then held by its header is 14
/// bytes and those two long.
pub proof fn lemma_overlong_tsaps_are_cut(code: u8, connect: ConnectView)
    ensures
        ({
            let each = ConnectView {
                src_tsap: shortened(connect.src_tsap, 255),
                dst_tsap: shortened(connect.dst_tsap, 255),
                ..connect
            };
            let both = each.src_tsap.len() + each.dst_tsap.len();
            &&& connect_bytes(code, connect) == connect_bytes(code, each)
            &&& both <= MAX_TSAPS ==> connect_bytes(code, connect).len() == 14 + both
        }),
{
    let each = ConnectView {
        src_tsap: shortened(connect.src_tsap, 255),
        dst_tsap: shortened(connect.dst_tsap, 255),
        ..connect
    };
    assert(cut(each).src_tsap =~= cut(connect).src_tsap);
    assert(cut(each).dst_tsap =~= cut(connect).dst_tsap);
}

/// A parameter is read as such, and what follows it after it.
pub proof fn lemma_parameter_leads(code: u8, value: Seq<u8>, rest: Seq<u8>)
    requires
        value.len() <= 255,
    ensures
        parameters(parameter(code, value) + rest) == (match parameters(rest) {
            Ok(others) => Ok::<_, Error>(seq![(code, value)] + others),
            Err(error) => Err(error),
        }),
{
    let part = parameter(code, value) + rest;
    assert(part.subrange(2, 2 + part[1]) =~= value);
    assert(part.skip(2 + part[1]) =~= rest);
}

/// Behind bytes that are whole parameters, the others are read after them.
pub proof fn lemma_parameters_join(first: Seq<u8>, second: Seq<u8>)
    requires
        parameters(first) is Ok,
    ensures
        parameters(first + second) == (match parameters(second) {
            Ok(others) => Ok::<_, Error>(parameters(first)->Ok_0 + others),
            Err(error) => Err(error),
        }),
    decreases first.len(),
{
    if first.len() == 0 {
        assert(first + second =~= second);
        if let Ok(others) = parameters(second) {
            assert(parameters(first)->Ok_0 + others =~= others);
        }
    } else {
        let end = 2 + first[1];
        let part = first + second;
        assert(part.subrange(2, end) =~= first.subrange(2, end));
        assert(part.skip(end) =~= first.skip(end) + second);
        lemma_parameters_join(first.skip(end), second);
        if let Ok(others) = parameters(second) {
            assert(parameters(part)->Ok_0 =~= parameters(first)->Ok_0 + others);
        }
    }
}

/// A parameter of another code does not change the last value of a code.
pub proof fn lemma_last_value_skips(
    before: Seq<(u8, Seq<u8>)>,
    other: (u8, Seq<u8>),
    behind: Seq<(u8, Seq<u8>)>,
    code: u8,
)
    requires
        other.0 != code,
    ensures
        last_value(before + (seq![other] + behind), code) == last_value(before + behind, code),
    decreases behind.len(),
{
    let with = before + (seq![other] + behind);
    let without = before + behind;
    if behind.len() == 0 {
        assert(with.drop_last() =~= before);
        assert(without =~= before);
    } else {
        assert(with.drop_last() =~= before + (seq![other] + behind.drop_last()));
        assert(without.drop_last() =~= before + behind.drop_last());
        lemma_last_value_skips(before, other, behind.drop_last(), code);
    }
}

/// Three parameters matter: one of any other code changes nothing of what a
/// connect header says or is refused for, wherever between the others it
/// stands. `at` is such a place: what is before it are whole parameters.
pub proof fn lemma_other_parameter_changes_nothing(
    header: Seq<u8>,
    at: int,
    code: u8,
    value: Seq<u8>,
)
    requires
        6 <= at <= header.len(),
        parameters(header.subrange(6, at)) is Ok,
        code != PARAM_SIZE && code != PARAM_SRC_TSAP && code != PARAM_DST_TSAP,
        value.len() <= 255,
    ensures
        decoded_connect(header.take(at) + parameter(code, value) + header.skip(at))
            == decoded_connect(header),
{
    let longer = header.take(at) + parameter(code, value) + header.skip(at);
    let first = header.subrange(6, at);
    let second = header.skip(at);
    assert(header.skip(6) =~= first + second);
    assert(longer.skip(6) =~= first + (parameter(code, value) + second));
    lemma_parameters_join(first, second);
    lemma_parameters_join(first, parameter(code, value) + second);
    lemma_parameter_leads(code, value, second);
    if let Ok(behind) = parameters(second) {
        let before = parameters(first)->Ok_0;
        lemma_last_value_skips(before, (code, value), behind, PARAM_SIZE);
        lemma_last_value_skips(before, (code, value), behind, PARAM_SRC_TSAP);
        lemma_last_value_skips(before, (code, value), behind, PARAM_DST_TSAP);
    }
}

/// A connect is at most 256 bytes long, a data TPDU three more than its
/// segment, a disconnect seven; none is empty.
pub proof fn lemma_encoded_len(tpdu: TpduView)
    ensures
        match tpdu {
            TpduView::Data { payload, .. } => encoded(tpdu).len() == 3 + payload.len(),
            TpduView::Disconnect { .. } => encoded(tpdu).len() == 7,
            _ => 14 <= encoded(tpdu).len() <= 256,
        },
{
}

/// The size that two sides settle on by the smaller code is the smaller of
/// the two sizes.
pub proof fn lemma_smaller_code_smaller_size(one: u8, other: u8)
    requires
        one <= other,
    ensures
        size_limit(one) <= size_limit(other),
{
    if clamped(one) < clamped(other) {
        lemma_pow2_strictly_increases(clamped(one) as nat, clamped(other) as nat);
    }
}

/// A size code allows a power of two from 128 to 8192 bytes.
pub proof fn lemma_size_limit_range(code: u8)
    ensures
        128 <= size_limit(code) <= 8192,
{
    lemma2_to64();
    let exponent = clamped(code) as nat;
    if MIN_SIZE_CODE < exponent {
        lemma_pow2_strictly_increases(MIN_SIZE_CODE as nat, exponent);
    }
    if exponent < MAX_SIZE_CODE {
        lemma_pow2_strictly_increases(exponent, MAX_SIZE_CODE as nat);
    }
}

} // verus!
