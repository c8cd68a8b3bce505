//! One ISO transport connection: the handshake that opens it, messages
//! segmented into DT TPDUs on the way out and reassembled on the way in, and
//! the DR that closes it.
//!
//! Class 0 has no flow control, no acknowledgement and no sequence numbers,
//! for TCP underneath does all of that, so a connection is a pair of TSAPs, a
//! negotiated TPDU size, and the EOT bit that says where one message ends
//! and the next begins.
//!
//! Nothing here touches a socket. What is to be sent is put on a `wire`, a
//! buffer for the caller to write out, and what was received comes in as
//! bytes or as the TPDU they make.

use vstd::prelude::*;
use vstd::slice::slice_subrange;
use vstd::slice::slice_to_vec;
use vstd::string::*;

use crate::error::result_view;
use crate::error::Error;
use crate::hex;
use crate::tpdu;
use crate::tpdu::decoded;
use crate::tpdu::encoded;
use crate::tpdu::lemma_encoded_len;
use crate::tpdu::lemma_size_limit_range;
use crate::tpdu::lemma_smaller_code_smaller_size;
use crate::tpdu::size_limit;
use crate::tpdu::Connect;
use crate::tpdu::ConnectView;
use crate::tpdu::Tpdu;
use crate::tpdu::TpduView;
use crate::tpkt;
use crate::tpkt::fits;
use crate::tpkt::frame;
use crate::tpkt::frame_at;
use crate::tpkt::Reading;

verus! {

/// The reason a caller that does not open with CR is given.
pub const REASON_NOT_REQUESTED: u8 = 0x80;

/// The bytes of a DT that are not the segment.
pub const DATA_OVERHEAD: usize = 3;

/// A connected pair of TSAPs and what they agreed on.
#[derive(Debug)]
pub struct Connection {
    peer: String,
    local_tsap: Vec<u8>,
    remote_tsap: Vec<u8>,
    tpdu_size: usize,
}

/// What a [`Connection`] is: the far end's address, both TSAPs and the TPDU
/// size settled on.
#[verifier::ext_equal]
pub struct ConnectionView {
    pub peer: Seq<char>,
    pub local_tsap: Seq<u8>,
    pub remote_tsap: Seq<u8>,
    pub tpdu_size: nat,
}

impl View for Connection {
    type V = ConnectionView;

    closed spec fn view(&self) -> ConnectionView {
        ConnectionView {
            peer: self.peer@,
            local_tsap: self.local_tsap@,
            remote_tsap: self.remote_tsap@,
            tpdu_size: self.tpdu_size as nat,
        }
    }
}

/// What came of taking one TPDU as part of a message.
#[derive(Clone, Copy, Debug, PartialEq, Eq)]
pub enum Next {
    /// The message goes on.
    More,
    /// The message is whole.
    Message,
    /// The peer disconnected or closed; there is no message.
    Closed,
}

/// Whether a TPDU size is one that a handshake can settle on.
pub open spec fn negotiable(size: nat) -> bool {
    exists|code: u8| size == size_limit(code)
}

/// A handshake settles on 128 to 8192 bytes.
pub proof fn lemma_negotiable_range(size: nat)
    requires
        negotiable(size),
    ensures
        128 <= size <= 8192,
{
    let code = choose|code: u8| size == size_limit(code);
    lemma_size_limit_range(code);
}

/// The CR that a call is opened with.
pub open spec fn request_of(local_tsap: Seq<u8>, remote_tsap: Seq<u8>, size_code: u8) -> TpduView {
    TpduView::ConnectRequest(
        ConnectView {
            src_ref: 1,
            dst_ref: 0,
            size_code,
            src_tsap: local_tsap,
            dst_tsap: remote_tsap,
        },
    )
}

/// The smaller of two size codes.
pub open spec fn smaller(one: u8, other: u8) -> u8 {
    if one < other {
        one
    } else {
        other
    }
}

/// What a caller has from the answer to its CR; no answer is a peer that
/// closed.
pub open spec fn opened(
    peer: Seq<char>,
    local_tsap: Seq<u8>,
    remote_tsap: Seq<u8>,
    size_code: u8,
    answer: Option<TpduView>,
) -> Result<ConnectionView, Error> {
    match answer {
        Some(TpduView::ConnectConfirm(confirm)) => Ok(
            ConnectionView {
                peer,
                local_tsap,
                remote_tsap,
                tpdu_size: size_limit(smaller(confirm.size_code, size_code)),
            },
        ),
        Some(TpduView::Disconnect { reason }) => Err(Error::Refused(reason)),
        _ => Err(Error::NotConfirmed),
    }
}

/// What the called side answers what it was opened with.
pub open spec fn answer_to(size_code: u8, opening: Option<TpduView>) -> TpduView {
    match opening {
        Some(TpduView::ConnectRequest(request)) => TpduView::ConnectConfirm(
            ConnectView {
                src_ref: 2,
                dst_ref: request.src_ref,
                size_code: smaller(request.size_code, size_code),
                src_tsap: request.dst_tsap,
                dst_tsap: request.src_tsap,
            },
        ),
        _ => TpduView::Disconnect { reason: REASON_NOT_REQUESTED },
    }
}

/// What the called side has from what it was opened with.
pub open spec fn accepted(
    peer: Seq<char>,
    size_code: u8,
    opening: Option<TpduView>,
) -> Result<ConnectionView, Error> {
    match opening {
        Some(TpduView::ConnectRequest(request)) => Ok(
            ConnectionView {
                peer,
                local_tsap: request.dst_tsap,
                remote_tsap: request.src_tsap,
                tpdu_size: size_limit(smaller(request.size_code, size_code)),
            },
        ),
        _ => Err(Error::NotRequested),
    }
}

/// Where a message on a connection came from, as a URI.
pub open spec fn origin_of(connection: ConnectionView) -> Seq<char> {
    "cotp://"@ + connection.peer + "?src-tsap="@ + hex::encoded(connection.remote_tsap)
        + "&dst-tsap="@ + hex::encoded(connection.local_tsap)
}

/// The DT TPDUs of one message, none over `size` bytes: as many full ones as
/// leave something, and one with EOT for what is left, be it nothing.
pub open spec fn segments(message: Seq<u8>, size: nat) -> Seq<TpduView>
    decreases message.len(),
{
    let room = size - DATA_OVERHEAD;
    if room <= 0 || message.len() <= room {
        seq![TpduView::Data { last: true, payload: message }]
    } else {
        seq![TpduView::Data { last: false, payload: message.take(room) }] + segments(
            message.skip(room),
            size,
        )
    }
}

/// TPDUs as bytes on the wire, one frame each.
pub open spec fn wire_of(units: Seq<TpduView>) -> Seq<u8>
    decreases units.len(),
{
    if units.len() == 0 {
        Seq::empty()
    } else {
        frame(encoded(units[0])) + wire_of(units.drop_first())
    }
}

/// One message as bytes on the wire.
pub open spec fn sent(message: Seq<u8>, size: nat) -> Seq<u8> {
    wire_of(segments(message, size))
}

/// What the start of a stream holds, as a TPDU: `received` has come in from
/// the first byte of a frame on, and `closed` says that nothing will follow.
pub open spec fn unit_at(received: Seq<u8>, closed: bool) -> Result<Reading<TpduView>, Error> {
    match frame_at(received, closed) {
        Ok(Reading::Need(more)) => Ok(Reading::Need(more)),
        Ok(Reading::Closed) => Ok(Reading::Closed),
        Ok(Reading::Whole(bytes)) => match decoded(bytes) {
            Ok(unit) => Ok(Reading::Whole(unit)),
            Err(error) => Err(error),
        },
        Err(error) => Err(error),
    }
}

/// A message once `arrived` has been taken as part of it: the bytes of its
/// segments so far, or nothing where none has been read.
pub open spec fn grown(message: Option<Seq<u8>>, arrived: Option<TpduView>) -> Option<Seq<u8>> {
    match (message, arrived) {
        (Some(bytes), Some(TpduView::Data { payload, .. })) => Some(bytes + payload),
        (None, Some(TpduView::Data { payload, .. })) => Some(payload),
        _ => message,
    }
}

/// What comes of taking `arrived` where a message has begun or has not;
/// nothing arrives where the peer closed.
///
/// A peer that disconnects ends the connection wherever it does so. One that
/// only closes must do so between messages.
pub open spec fn after(begun: bool, arrived: Option<TpduView>) -> Result<Next, Error> {
    match arrived {
        Some(TpduView::Data { last: true, .. }) => Ok(Next::Message),
        Some(TpduView::Data { last: false, .. }) => Ok(Next::More),
        Some(TpduView::Disconnect { .. }) => Ok(Next::Closed),
        Some(_) => Err(Error::UnexpectedConnect),
        None => if begun {
            Err(Error::ClosedMidMessage)
        } else {
            Ok(Next::Closed)
        },
    }
}

/// The bytes of a message, where one has begun.
pub open spec fn message_view(message: Option<Vec<u8>>) -> Option<Seq<u8>> {
    match message {
        Some(bytes) => Some(bytes@),
        None => None,
    }
}

impl Connection {
    #[verifier::type_invariant]
    spec fn well_formed(self) -> bool {
        negotiable(self.tpdu_size as nat)
    }

    /// The CR to call with, from `local_tsap` to `remote_tsap`, proposing
    /// 2^`size_code` as the TPDU size.
    #[must_use]
    pub fn request(local_tsap: &[u8], remote_tsap: &[u8], size_code: u8) -> (unit: Tpdu)
        ensures
            unit@ == request_of(local_tsap@, remote_tsap@, size_code),
    {
        Tpdu::ConnectRequest(
            Connect {
                src_ref: 1,
                dst_ref: 0,
                size_code,
                src_tsap: slice_to_vec(local_tsap),
                dst_tsap: slice_to_vec(remote_tsap),
            },
        )
    }

    /// Take `answer`, which is what came back for [`Connection::request`]
    /// with the same TSAPs and size code, or nothing where the peer closed.
    ///
    /// # Errors
    /// Where the peer refused with DR, or answered CR with anything but CC.
    pub fn connect(
        peer: &str,
        local_tsap: &[u8],
        remote_tsap: &[u8],
        size_code: u8,
        answer: Option<Tpdu>,
    ) -> (result: Result<Connection, Error>)
        ensures
            result_view(result) == opened(
                peer@,
                local_tsap@,
                remote_tsap@,
                size_code,
                unit_view(answer),
            ),
            result matches Ok(connection) ==> {
                &&& connection@.peer == peer@
                &&& connection@.local_tsap == local_tsap@
                &&& connection@.remote_tsap == remote_tsap@
                &&& negotiable(connection@.tpdu_size)
            },
    {
        match answer {
            Some(Tpdu::ConnectConfirm(confirm)) => {
                let code: u8 = if confirm.size_code < size_code {
                    confirm.size_code
                } else {
                    size_code
                };
                Ok(
                    Connection {
                        peer: peer.to_owned(),
                        local_tsap: slice_to_vec(local_tsap),
                        remote_tsap: slice_to_vec(remote_tsap),
                        tpdu_size: tpdu::size_of(code),
                    },
                )
            },
            Some(Tpdu::Disconnect { reason }) => Err(Error::Refused(reason)),
            _ => Err(Error::NotConfirmed),
        }
    }

    /// Answer a caller's CR with CC, settling on the smaller of its size and
    /// 2^`size_code`. The first of the two results is to be sent whatever the
    /// second one is: a caller that opens otherwise, or closes, gets a DR.
    ///
    /// # Errors
    /// Where the caller did not open with CR.
    pub fn accept(peer: &str, size_code: u8, opening: Option<Tpdu>) -> (answered: (
        Tpdu,
        Result<Connection, Error>,
    ))
        ensures
            answered.0@ == answer_to(size_code, unit_view(opening)),
            result_view(answered.1) == accepted(peer@, size_code, unit_view(opening)),
            answered.1 matches Ok(connection) ==> negotiable(connection@.tpdu_size),
    {
        match opening {
            Some(Tpdu::ConnectRequest(request)) => {
                let code: u8 = if request.size_code < size_code {
                    request.size_code
                } else {
                    size_code
                };
                let connection = Connection {
                    peer: peer.to_owned(),
                    local_tsap: slice_to_vec(&request.dst_tsap),
                    remote_tsap: slice_to_vec(&request.src_tsap),
                    tpdu_size: tpdu::size_of(code),
                };
                let confirm = Tpdu::ConnectConfirm(
                    Connect {
                        src_ref: 2,
                        dst_ref: request.src_ref,
                        size_code: code,
                        src_tsap: request.dst_tsap,
                        dst_tsap: request.src_tsap,
                    },
                );
                (confirm, Ok(connection))
            },
            _ => (
                Tpdu::Disconnect { reason: REASON_NOT_REQUESTED },
                Err(Error::NotRequested),
            ),
        }
    }

    /// The far end's address.
    #[must_use]
    pub fn peer(&self) -> (peer: &str)
        ensures
            peer@ == self@.peer,
    {
        self.peer.as_str()
    }

    /// This side's TSAP.
    #[must_use]
    pub fn local_tsap(&self) -> (tsap: &[u8])
        ensures
            tsap@ == self@.local_tsap,
    {
        self.local_tsap.as_slice()
    }

    /// The far end's TSAP.
    #[must_use]
    pub fn remote_tsap(&self) -> (tsap: &[u8])
        ensures
            tsap@ == self@.remote_tsap,
    {
        self.remote_tsap.as_slice()
    }

    /// The TPDU size settled on.
    #[must_use]
    pub fn tpdu_size(&self) -> (size: usize)
        ensures
            size == self@.tpdu_size,
            negotiable(self@.tpdu_size),
    {
        proof {
            use_type_invariant(self);
        }
        self.tpdu_size
    }

    /// Where a message on this connection came from, as an origin URI:
    /// `cotp://peer?src-tsap=0100&dst-tsap=0102`, the peer's TSAP first,
    /// then this side's, as a CR from the peer would name them.
    #[must_use]
    pub fn origin(&self) -> (uri: String)
        ensures
            uri@ == origin_of(self@),
    {
        let mut uri = "cotp://".to_owned();
        uri.append(self.peer.as_str());
        uri.append("?src-tsap=");
        uri.append(hex::encode(&self.remote_tsap).as_str());
        uri.append("&dst-tsap=");
        uri.append(hex::encode(&self.local_tsap).as_str());
        uri
    }

    /// Send one message, in as many DT segments as the TPDU size takes,
    /// behind what `wire` holds.
    pub fn send_data(&self, bytes: &[u8], wire: &mut Vec<u8>)
        ensures
            final(wire)@ == old(wire)@ + sent(bytes@, self@.tpdu_size),
    {
        proof {
            use_type_invariant(self);
            lemma_negotiable_range(self@.tpdu_size);
        }
        let room: usize = self.tpdu_size - DATA_OVERHEAD;
        let mut at: usize = 0;
        assert(bytes@.skip(0) =~= bytes@);
        while bytes.len() - at > room
            invariant
                at <= bytes@.len(),
                room == self@.tpdu_size - DATA_OVERHEAD,
                128 <= self@.tpdu_size <= 8192,
                wire@ + sent(bytes@.skip(at as int), self@.tpdu_size) == old(wire)@ + sent(
                    bytes@,
                    self@.tpdu_size,
                ),
            decreases bytes@.len() - at,
        {
            let ghost left = bytes@.skip(at as int);
            let ghost before = wire@;
            let chunk: &[u8] = slice_subrange(bytes, at, at + room);
            Self::write_fitting(wire, &Tpdu::Data { last: false, payload: slice_to_vec(chunk) });
            at = at + room;
            proof {
                assert(chunk@ =~= left.take(room as int));
                assert(bytes@.skip(at as int) =~= left.skip(room as int));
                let unit = TpduView::Data { last: false, payload: chunk@ };
                lemma_wire_leads(unit, segments(bytes@.skip(at as int), self@.tpdu_size));
                assert(wire@ + sent(bytes@.skip(at as int), self@.tpdu_size) =~= before + sent(
                    left,
                    self@.tpdu_size,
                ));
            }
        }
        let ghost before = wire@;
        let chunk: &[u8] = slice_subrange(bytes, at, bytes.len());
        Self::write_fitting(wire, &Tpdu::Data { last: true, payload: slice_to_vec(chunk) });
        proof {
            assert(chunk@ =~= bytes@.skip(at as int));
            let unit = TpduView::Data { last: true, payload: chunk@ };
            lemma_wire_leads(unit, Seq::empty());
            assert(seq![unit] + Seq::<TpduView>::empty() =~= seq![unit]);
            assert(wire@ =~= before + sent(chunk@, self@.tpdu_size));
        }
    }

    /// Take one TPDU, or the peer's closing, as part of a message. `message`
    /// is `None` before the first segment and then holds what the segments so
    /// far brought; on [`Next::Message`] it is the whole of it.
    ///
    /// # Errors
    /// A connection that closes mid-message, or a TPDU that is not data.
    pub fn next_data(message: &mut Option<Vec<u8>>, arrived: Option<Tpdu>) -> (result: Result<
        Next,
        Error,
    >)
        ensures
            result == after(*old(message) is Some, unit_view(arrived)),
            message_view(*final(message)) == grown(
                message_view(*old(message)),
                unit_view(arrived),
            ),
    {
        match arrived {
            Some(Tpdu::Data { last, payload }) => {
                match message.take() {
                    Some(mut bytes) => {
                        let ghost before = bytes@;
                        bytes.extend_from_slice(&payload);
                        assert(bytes@ =~= before + payload@);
                        *message = Some(bytes);
                    },
                    None => {
                        *message = Some(payload);
                    },
                }
                if last {
                    Ok(Next::Message)
                } else {
                    Ok(Next::More)
                }
            },
            Some(Tpdu::Disconnect { .. }) => Ok(Next::Closed),
            Some(_) => Err(Error::UnexpectedConnect),
            None => if message.is_some() {
                Err(Error::ClosedMidMessage)
            } else {
                Ok(Next::Closed)
            },
        }
    }

    /// End the connection with DR, behind what `wire` holds.
    pub fn disconnect(self, wire: &mut Vec<u8>)
        ensures
            final(wire)@ == old(wire)@ + frame(encoded(TpduView::Disconnect { reason: 0 })),
    {
        Self::write_fitting(wire, &Tpdu::Disconnect { reason: 0 });
    }

    /// Write `unit` as one frame behind what `wire` holds.
    ///
    /// # Errors
    /// A TPDU that does not fit a frame; `wire` is then as it was.
    pub fn write(wire: &mut Vec<u8>, unit: &Tpdu) -> (result: Result<(), Error>)
        ensures
            result is Ok <==> fits(encoded(unit@).len()),
            result is Ok ==> final(wire)@ == old(wire)@ + frame(encoded(unit@)),
            result matches Err(error) ==> error == Error::FrameTooLong && final(wire)@ == old(
                wire,
            )@,
    {
        let bytes: Vec<u8> = tpdu::encode(unit);
        tpkt::write_frame(wire, &bytes)
    }

    /// Write a TPDU that fits a frame.
    fn write_fitting(wire: &mut Vec<u8>, unit: &Tpdu)
        requires
            unit matches Tpdu::Data { payload, .. } ==> fits(3 + payload@.len()),
        ensures
            final(wire)@ == old(wire)@ + frame(encoded(unit@)),
    {
        proof {
            lemma_encoded_len(unit@);
        }
        let written = Self::write(wire, unit);
        assert(written is Ok);
    }

    /// Read one TPDU from what has been received of its frame so far, or say
    /// how many more bytes to read; `closed` where the peer sends no more.
    ///
    /// # Errors
    /// What is not a frame, what is not a TPDU of class 0, or a connection
    /// that closes mid-frame.
    pub fn read(received: &[u8], closed: bool) -> (result: Result<Reading<Tpdu>, Error>)
        ensures
            result_view(result) == unit_at(received@, closed),
    {
        match tpkt::read_frame(received, closed) {
            Ok(Reading::Need(more)) => Ok(Reading::Need(more)),
            Ok(Reading::Closed) => Ok(Reading::Closed),
            Ok(Reading::Whole(bytes)) => match tpdu::decode(&bytes) {
                Ok(unit) => Ok(Reading::Whole(unit)),
                Err(error) => Err(error),
            },
            Err(error) => Err(error),
        }
    }
}

/// What a TPDU says, where there is one.
pub open spec fn unit_view(unit: Option<Tpdu>) -> Option<TpduView> {
    match unit {
        Some(unit) => Some(unit@),
        None => None,
    }
}

/// The first TPDU's frame leads, and the others' follow.
pub proof fn lemma_wire_leads(unit: TpduView, others: Seq<TpduView>)
    ensures
        wire_of(seq![unit] + others) == frame(encoded(unit)) + wire_of(others),
{
    assert((seq![unit] + others).drop_first() =~= others);
}

/// A call is opened with a CR that names the calling TSAP as the source and
/// the called one as the destination, as reference 1 to none yet, and
/// proposes the size code as it is.
pub proof fn lemma_request_names(local_tsap: Seq<u8>, remote_tsap: Seq<u8>, size_code: u8)
    ensures
        request_of(local_tsap, remote_tsap, size_code) matches TpduView::ConnectRequest(request)
            && {
            &&& request.src_ref == 1
            &&& request.dst_ref == 0
            &&& request.size_code == size_code
            &&& request.src_tsap == local_tsap
            &&& request.dst_tsap == remote_tsap
        },
{
}

/// Whatever references and TSAPs a CC carries or leaves out, the caller's
/// connection is with the peer that it called, from the TSAP that it called
/// from, to the one that it called. Of the CC only the size counts: the
/// smaller of that and the proposed one is settled on.
pub proof fn lemma_caller_keeps_its_tsaps(
    peer: Seq<char>,
    local_tsap: Seq<u8>,
    remote_tsap: Seq<u8>,
    size_code: u8,
    confirm: ConnectView,
)
    ensures
        opened(
            peer,
            local_tsap,
            remote_tsap,
            size_code,
            Some(TpduView::ConnectConfirm(confirm)),
        ) matches Ok(end) && {
            &&& end.peer == peer
            &&& end.local_tsap == local_tsap
            &&& end.remote_tsap == remote_tsap
            &&& end.tpdu_size <= size_limit(size_code)
            &&& end.tpdu_size <= size_limit(confirm.size_code)
            &&& end.tpdu_size == size_limit(size_code) || end.tpdu_size == size_limit(
                confirm.size_code,
            )
        },
{
    if confirm.size_code < size_code {
        lemma_smaller_code_smaller_size(confirm.size_code, size_code);
    } else {
        lemma_smaller_code_smaller_size(size_code, confirm.size_code);
    }
}

/// Two CCs that settle the same size open the same connection.
pub proof fn lemma_only_the_size_of_a_confirm_counts(
    peer: Seq<char>,
    local_tsap: Seq<u8>,
    remote_tsap: Seq<u8>,
    size_code: u8,
    one: ConnectView,
    other: ConnectView,
)
    requires
        one.size_code == other.size_code,
    ensures
        opened(peer, local_tsap, remote_tsap, size_code, Some(TpduView::ConnectConfirm(one)))
            == opened(
            peer,
            local_tsap,
            remote_tsap,
            size_code,
            Some(TpduView::ConnectConfirm(other)),
        ),
{
}

/// A caller that is answered with a DR is told its reason, and one that is
/// answered with anything else that is not a CC, or not at all, is told so.
pub proof fn lemma_no_other_answer_opens(
    peer: Seq<char>,
    local_tsap: Seq<u8>,
    remote_tsap: Seq<u8>,
    size_code: u8,
    answer: Option<TpduView>,
)
    ensures
        answer matches Some(TpduView::Disconnect { reason }) ==> opened(
            peer,
            local_tsap,
            remote_tsap,
            size_code,
            answer,
        ) == Err::<ConnectionView, _>(Error::Refused(reason)),
        answer is None || answer->0 is Data || answer->0 is ConnectRequest ==> opened(
            peer,
            local_tsap,
            remote_tsap,
            size_code,
            answer,
        ) == Err::<ConnectionView, _>(Error::NotConfirmed),
{
}

/// Whatever references and TSAPs a CR carries or leaves out, the called
/// side's connection is from the TSAP that the CR calls to the one that it
/// calls from, and the CC goes back the other way: from reference 2 to the
/// caller's, from the called TSAP to the calling one. Both are on the smaller
/// of the two sizes, and the CC names the smaller of the two codes.
pub proof fn lemma_called_side_takes_the_tsaps(
    peer: Seq<char>,
    size_code: u8,
    request: ConnectView,
)
    ensures
        accepted(peer, size_code, Some(TpduView::ConnectRequest(request))) matches Ok(end) && {
            &&& end.peer == peer
            &&& end.local_tsap == request.dst_tsap
            &&& end.remote_tsap == request.src_tsap
            &&& end.tpdu_size <= size_limit(size_code)
            &&& end.tpdu_size <= size_limit(request.size_code)
            &&& end.tpdu_size == size_limit(size_code) || end.tpdu_size == size_limit(
                request.size_code,
            )
        },
        answer_to(size_code, Some(TpduView::ConnectRequest(request))) matches
            TpduView::ConnectConfirm(confirm) && {
            &&& confirm.src_ref == 2
            &&& confirm.dst_ref == request.src_ref
            &&& confirm.src_tsap == request.dst_tsap
            &&& confirm.dst_tsap == request.src_tsap
            &&& confirm.size_code <= size_code
            &&& confirm.size_code <= request.size_code
            &&& confirm.size_code == size_code || confirm.size_code == request.size_code
        },
{
    if request.size_code < size_code {
        lemma_smaller_code_smaller_size(request.size_code, size_code);
    } else {
        lemma_smaller_code_smaller_size(size_code, request.size_code);
    }
}

/// Whoever opens with anything but a CR, or closes, has a DR for the reason
/// 0x80, and the called side has no connection.
pub proof fn lemma_no_other_opening_connects(
    peer: Seq<char>,
    size_code: u8,
    opening: Option<TpduView>,
)
    requires
        opening is None || !(opening->0 is ConnectRequest),
    ensures
        accepted(peer, size_code, opening) == Err::<ConnectionView, _>(Error::NotRequested),
        answer_to(size_code, opening) == (TpduView::Disconnect { reason: 0x80 }),
{
}

/// An origin is `cotp://`, the peer, and the two TSAPs in hex under their
/// keys, the far end's as the source and this side's as the destination.
pub proof fn lemma_origin_text(connection: ConnectionView)
    ensures
        ({
            let src = "cotp://"@ + connection.peer + "?src-tsap="@;
            let dst = src + hex::encoded(connection.remote_tsap) + "&dst-tsap="@;
            origin_of(connection) == dst + hex::encoded(connection.local_tsap)
        }),
{
}

/// A segment with EOT ends the message and one without it does not, whether
/// or not others came before. A DR ends the connection wherever it comes, a
/// connect is refused wherever it comes, and to close is refused exactly
/// where a message has begun.
pub proof fn lemma_what_a_unit_comes_to(begun: bool, arrived: Option<TpduView>)
    ensures
        arrived matches Some(TpduView::Data { last, .. }) ==> after(begun, arrived) == Ok::<
            _,
            Error,
        >(
            if last {
                Next::Message
            } else {
                Next::More
            },
        ),
        arrived matches Some(TpduView::Disconnect { .. }) ==> after(begun, arrived) == Ok::<
            _,
            Error,
        >(Next::Closed),
        arrived matches Some(TpduView::ConnectRequest(_)) ==> after(begun, arrived) == Err::<
            Next,
            _,
        >(Error::UnexpectedConnect),
        arrived matches Some(TpduView::ConnectConfirm(_)) ==> after(begun, arrived) == Err::<
            Next,
            _,
        >(Error::UnexpectedConnect),
        arrived is None ==> after(begun, arrived) == if begun {
            Err::<Next, _>(Error::ClosedMidMessage)
        } else {
            Ok(Next::Closed)
        },
{
}

/// What a message holds once these TPDUs have been taken as part of it, one
/// after the other.
pub open spec fn gathered(units: Seq<TpduView>) -> Option<Seq<u8>>
    decreases units.len(),
{
    if units.len() == 0 {
        None
    } else {
        grown(gathered(units.drop_last()), Some(units.last()))
    }
}

/// Segments of any lengths, with EOT or without, make up what they bring one
/// behind the other: `payloads` are what `units` bring.
pub proof fn lemma_segments_make_up_what_they_bring(
    units: Seq<TpduView>,
    payloads: Seq<Seq<u8>>,
)
    requires
        0 < units.len() == payloads.len(),
        forall|i: int|
            0 <= i < units.len() ==> #[trigger] units[i] is Data && units[i]->payload
                == payloads[i],
    ensures
        gathered(units) == Some(payloads.flatten()),
    decreases units.len(),
{
    let firsts = units.drop_last();
    let leads = payloads.drop_last();
    assert(units.last() == units[units.len() - 1]);
    assert(units.last() is Data && units.last()->payload == payloads.last());
    payloads.lemma_flatten_and_flatten_alt_are_equivalent();
    leads.lemma_flatten_and_flatten_alt_are_equivalent();
    if firsts.len() > 0 {
        assert forall|i: int| 0 <= i < firsts.len() implies #[trigger] firsts[i] is Data
            && firsts[i]->payload == leads[i] by {
            assert(firsts[i] == units[i]);
        }
        lemma_segments_make_up_what_they_bring(firsts, leads);
        assert(payloads.flatten() =~= leads.flatten() + payloads.last());
    } else {
        assert(gathered(firsts) is None);
        assert(leads.flatten_alt() =~= Seq::empty());
        assert(payloads.flatten() =~= payloads.last());
    }
}

/// Only a segment adds to a message, and it always does, be it of no bytes;
/// whatever else arrives leaves the message as it was, begun or not.
pub proof fn lemma_only_segments_add(message: Option<Seq<u8>>, arrived: Option<TpduView>)
    ensures
        arrived matches Some(TpduView::Data { payload, .. }) ==> {
            &&& grown(message, arrived) is Some
            &&& grown(message, arrived)->0.len() == payload.len() + match message {
                Some(bytes) => bytes.len(),
                None => 0,
            }
            &&& payload.is_suffix_of(grown(message, arrived)->0)
            &&& message matches Some(bytes) ==> bytes.is_prefix_of(grown(message, arrived)->0)
        },
        !(arrived matches Some(TpduView::Data { .. })) ==> grown(message, arrived) == message,
{
}

/// What is said of a TPDU or of a message that may not be there is said of
/// it where it is.
pub proof fn lemma_option_views(unit: Option<Tpdu>, message: Option<Vec<u8>>)
    ensures
        unit matches Some(unit) ==> unit_view(Some(unit)) == Some(unit@),
        unit is None ==> unit_view(unit) is None,
        message matches Some(bytes) ==> message_view(Some(bytes)) == Some(bytes@),
        message is None ==> message_view(message) is None,
{
}

} // verus!
