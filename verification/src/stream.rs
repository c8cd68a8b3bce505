//! What a whole stream of bytes comes to, frame by frame, for the side that
//! reads it: a handshake that both sides leave with the same size and each
//! other's TSAP, and messages that come out as they went in.

use vstd::prelude::*;

use crate::connection::accepted;
use crate::connection::after;
use crate::connection::answer_to;
use crate::connection::grown;
use crate::connection::lemma_negotiable_range;
use crate::connection::lemma_wire_leads;
use crate::connection::negotiable;
use crate::connection::opened;
use crate::connection::request_of;
use crate::connection::segments;
use crate::connection::sent;
use crate::connection::smaller;
use crate::connection::unit_at;
use crate::connection::wire_of;
use crate::connection::ConnectionView;
use crate::connection::Next;
use crate::connection::DATA_OVERHEAD;
use crate::connection::REASON_NOT_REQUESTED;
use crate::error::Error;
use crate::tpdu::carried;
use crate::tpdu::cut_tpdu;
use crate::tpdu::encoded;
use crate::tpdu::lemma_encoded_len;
use crate::tpdu::lemma_round_trip;
use crate::tpdu::lemma_smaller_code_smaller_size;
use crate::tpdu::size_limit;
use crate::tpdu::ConnectView;
use crate::tpdu::TpduView;
use crate::tpdu::MAX_TSAPS;
use crate::tpkt::announced;
use crate::tpkt::fits;
use crate::tpkt::frame;
use crate::tpkt::lemma_frame_round_trip;
use crate::tpkt::lemma_reads_stay_within_the_frame;
use crate::tpkt::Reading;

verus! {

/// What a reader that waits for one message has of a stream.
#[verifier::ext_equal]
pub enum Delivery {
    /// The message, and what follows it on the stream.
    Message(Seq<u8>, Seq<u8>),
    /// No message, for the peer disconnected or closed.
    Closed,
    /// Something that is refused.
    Failed(Error),
}

/// What a reader has that takes TPDU after TPDU off `stream`, which the peer
/// closes at its end, until one ends the message of which `message` came
/// before, if it has begun.
pub open spec fn delivery(message: Option<Seq<u8>>, stream: Seq<u8>) -> Delivery
    decreases stream.len(),
{
    match unit_at(stream, true) {
        Err(error) => Delivery::Failed(error),
        Ok(Reading::Whole(unit)) => {
            let rest = stream.skip(announced(stream));
            match after(message is Some, Some(unit)) {
                Ok(Next::More) => delivery(grown(message, Some(unit)), rest),
                Ok(Next::Message) => Delivery::Message(grown(message, Some(unit))->0, rest),
                Ok(Next::Closed) => Delivery::Closed,
                Err(error) => Delivery::Failed(error),
            }
        },
        Ok(_) => match after(message is Some, None) {
            Ok(_) => Delivery::Closed,
            Err(error) => Delivery::Failed(error),
        },
    }
}

/// A message takes at least a frame off the stream.
proof fn lemma_delivery_shrinks(message: Option<Seq<u8>>, stream: Seq<u8>)
    ensures
        delivery(message, stream) matches Delivery::Message(_, rest) ==> rest.len() < stream.len(),
    decreases stream.len(),
{
    if let Ok(Reading::Whole(unit)) = unit_at(stream, true) {
        if after(message is Some, Some(unit)) == Ok::<Next, Error>(Next::More) {
            lemma_delivery_shrinks(grown(message, Some(unit)), stream.skip(announced(stream)));
        }
    }
}

/// All the messages that a reader takes off `stream` until the peer
/// disconnects or closes.
pub open spec fn deliveries(stream: Seq<u8>) -> Result<Seq<Seq<u8>>, Error>
    decreases stream.len(),
    via deliveries_decreases
{
    match delivery(None, stream) {
        Delivery::Message(message, rest) => match deliveries(rest) {
            Ok(others) => Ok(seq![message] + others),
            Err(error) => Err(error),
        },
        Delivery::Closed => Ok(Seq::empty()),
        Delivery::Failed(error) => Err(error),
    }
}

#[via_fn]
proof fn deliveries_decreases(stream: Seq<u8>) {
    lemma_delivery_shrinks(None, stream);
}

/// Messages as bytes on the wire, one behind the other.
pub open spec fn sent_all(messages: Seq<Seq<u8>>, size: nat) -> Seq<u8>
    decreases messages.len(),
{
    if messages.len() == 0 {
        Seq::empty()
    } else {
        sent(messages[0], size) + sent_all(messages.drop_first(), size)
    }
}

/// The bytes that a segment brings; no other TPDU brings any.
pub open spec fn payload_of(unit: TpduView) -> Seq<u8> {
    match unit {
        TpduView::Data { payload, .. } => payload,
        _ => Seq::empty(),
    }
}

/// What segments bring together.
pub open spec fn joined(units: Seq<TpduView>) -> Seq<u8>
    decreases units.len(),
{
    if units.len() == 0 {
        Seq::empty()
    } else {
        payload_of(units[0]) + joined(units.drop_first())
    }
}

/// A TPDU that a frame carries is read as what its header holds of it,
/// whatever follows it on the stream.
pub proof fn lemma_unit_crosses(unit: TpduView, rest: Seq<u8>, closed: bool)
    requires
        fits(encoded(unit).len()),
    ensures
        unit_at(frame(encoded(unit)) + rest, closed) == Ok::<_, Error>(
            Reading::Whole(cut_tpdu(unit)),
        ),
        cut_tpdu(unit) == unit <==> carried(unit),
        (frame(encoded(unit)) + rest).skip(announced(frame(encoded(unit)) + rest)) == rest,
{
    let bytes = encoded(unit);
    lemma_encoded_len(unit);
    lemma_round_trip(unit);
    lemma_frame_round_trip(bytes, rest, closed);
    let stream = frame(bytes) + rest;
    assert(announced(stream) == announced(frame(bytes)));
    assert(stream.skip(announced(stream)) =~= rest);
}

/// A message's segments are data TPDUs of at most the size settled on, the
/// last of them and no other has EOT, and what they bring together is the
/// message.
pub proof fn lemma_segments(message: Seq<u8>, size: nat)
    requires
        negotiable(size),
    ensures
        segments(message, size).len() > 0,
        forall|i: int|
            0 <= i < segments(message, size).len() ==> {
                &&& encoded(#[trigger] segments(message, size)[i]).len() <= size
                &&& segments(message, size)[i] matches TpduView::Data { last, .. } && (last <==> i
                    == segments(message, size).len() - 1)
            },
        joined(segments(message, size)) == message,
    decreases message.len(),
{
    lemma_negotiable_range(size);
    let room = size - DATA_OVERHEAD;
    let units = segments(message, size);
    if message.len() <= room {
        lemma_encoded_len(units[0]);
        assert(joined(units.drop_first()) =~= Seq::empty());
        assert(joined(units) =~= message);
    } else {
        let rest = message.skip(room);
        let others = segments(rest, size);
        lemma_segments(rest, size);
        lemma_encoded_len(units[0]);
        assert(units.drop_first() =~= others);
        assert(joined(units) =~= message);
        assert forall|i: int| 0 <= i < units.len() implies {
            &&& encoded(#[trigger] units[i]).len() <= size
            &&& units[i] matches TpduView::Data { last, .. } && (last <==> i == units.len() - 1)
        } by {
            if i > 0 {
                assert(units[i] == others[i - 1]);
            }
        }
    }
}

/// Every segment but the last is full, so a message takes no more TPDUs than
/// its length asks for.
pub proof fn lemma_segments_are_full(message: Seq<u8>, size: nat)
    requires
        negotiable(size),
    ensures
        forall|i: int|
            0 <= i < segments(message, size).len() - 1 ==> payload_of(
                #[trigger] segments(message, size)[i],
            ).len() == size - DATA_OVERHEAD,
        message.len() <= segments(message, size).len() * (size - DATA_OVERHEAD),
        segments(message, size).len() == 1 || (segments(message, size).len() - 1) * (size
            - DATA_OVERHEAD) < message.len(),
    decreases message.len(),
{
    lemma_negotiable_range(size);
    let room = size - DATA_OVERHEAD;
    let units = segments(message, size);
    if message.len() > room {
        let others = segments(message.skip(room), size);
        lemma_segments_are_full(message.skip(room), size);
        assert forall|i: int| 0 <= i < units.len() - 1 implies payload_of(
            #[trigger] units[i],
        ).len() == room by {
            if i > 0 {
                assert(units[i] == others[i - 1]);
            }
        }
        assert((others.len() + 1) * room == others.len() * room + room) by (nonlinear_arith);
        assert((others.len() - 1) * room == others.len() * room - room) by (nonlinear_arith);
    } else {
        assert(1 * room == room);
    }
}

/// A message sent is the message delivered, whole, whatever its length, and
/// the stream goes on behind it.
pub proof fn lemma_message_is_delivered(message: Seq<u8>, size: nat, rest: Seq<u8>)
    requires
        negotiable(size),
    ensures
        delivery(None, sent(message, size) + rest) == Delivery::Message(message, rest),
{
    lemma_message_is_completed(None, message, size, rest);
}

/// `message` behind what came before it.
spec fn behind(before: Option<Seq<u8>>, message: Seq<u8>) -> Seq<u8> {
    match before {
        Some(bytes) => bytes + message,
        None => message,
    }
}

/// The rest of a message, sent behind what came before, completes it.
proof fn lemma_message_is_completed(
    before: Option<Seq<u8>>,
    message: Seq<u8>,
    size: nat,
    rest: Seq<u8>,
)
    requires
        negotiable(size),
    ensures
        delivery(before, sent(message, size) + rest) == Delivery::Message(
            behind(before, message),
            rest,
        ),
    decreases message.len(),
{
    lemma_negotiable_range(size);
    let room = size - DATA_OVERHEAD;
    if message.len() <= room {
        let unit = TpduView::Data { last: true, payload: message };
        assert(segments(message, size) =~= seq![unit] + Seq::empty());
        lemma_wire_leads(unit, Seq::empty());
        assert(sent(message, size) + rest =~= frame(encoded(unit)) + rest);
        lemma_encoded_len(unit);
        lemma_unit_crosses(unit, rest, true);
    } else {
        let unit = TpduView::Data { last: false, payload: message.take(room) };
        let left = message.skip(room);
        lemma_wire_leads(unit, segments(left, size));
        assert(sent(message, size) + rest =~= frame(encoded(unit)) + (sent(left, size) + rest));
        lemma_encoded_len(unit);
        lemma_unit_crosses(unit, sent(left, size) + rest, true);
        lemma_message_is_completed(Some(behind(before, message.take(room))), left, size, rest);
        assert(behind(before, message.take(room)) + left =~= behind(before, message));
    }
}

/// Data TPDUs that bring `payloads`, each as the bytes of its frame, the last
/// and no other with EOT.
pub open spec fn data_frames(payloads: Seq<Seq<u8>>) -> Seq<u8>
    decreases payloads.len(),
{
    if payloads.len() == 0 {
        Seq::empty()
    } else {
        let payload = payloads[0];
        seq![
            3u8,
            0,
            ((payload.len() + 7) / 256) as u8,
            ((payload.len() + 7) % 256) as u8,
            2,
            0xF0,
            if payloads.len() == 1 {
                0x80u8
            } else {
                0u8
            },
        ] + payload + data_frames(payloads.drop_first())
    }
}

/// Whatever segments a peer cuts its message into, none of them over what a
/// frame holds, the message delivered is what they bring, one behind the
/// other, and the stream goes on behind it.
pub proof fn lemma_any_segments_are_delivered(payloads: Seq<Seq<u8>>, rest: Seq<u8>)
    requires
        0 < payloads.len(),
        forall|i: int| 0 <= i < payloads.len() ==> (#[trigger] payloads[i]).len() + 7 <= 65535,
    ensures
        delivery(None, data_frames(payloads) + rest) == Delivery::Message(
            payloads.flatten(),
            rest,
        ),
{
    lemma_any_segments_complete(None, payloads, rest);
}

/// The same behind what came before.
proof fn lemma_any_segments_complete(
    before: Option<Seq<u8>>,
    payloads: Seq<Seq<u8>>,
    rest: Seq<u8>,
)
    requires
        0 < payloads.len(),
        forall|i: int| 0 <= i < payloads.len() ==> (#[trigger] payloads[i]).len() + 7 <= 65535,
    ensures
        delivery(before, data_frames(payloads) + rest) == Delivery::Message(
            behind(before, payloads.flatten()),
            rest,
        ),
    decreases payloads.len(),
{
    let payload = payloads[0];
    let others = payloads.drop_first();
    let unit = TpduView::Data { last: payloads.len() == 1, payload };
    let left = data_frames(others) + rest;
    assert(data_frames(payloads) + rest =~= frame(encoded(unit)) + left);
    lemma_encoded_len(unit);
    lemma_unit_crosses(unit, left, true);
    if payloads.len() == 1 {
        assert(left =~= rest);
        assert(others.flatten() =~= Seq::empty());
        assert(payloads.flatten() =~= payload);
    } else {
        assert forall|i: int| 0 <= i < others.len() implies (#[trigger] others[i]).len() + 7
            <= 65535 by {
            assert(others[i] == payloads[i + 1]);
        }
        lemma_any_segments_complete(Some(behind(before, payload)), others, rest);
        assert(behind(before, payload) + others.flatten() =~= behind(before, payloads.flatten()));
    }
}

/// A message that breaks off is not delivered, neither in part nor as the
/// peer's closing: wherever the stream ends inside it, the reader fails.
pub proof fn lemma_broken_message_fails(message: Seq<u8>, size: nat, cut: int)
    requires
        negotiable(size),
        0 < cut < sent(message, size).len(),
    ensures
        delivery(None, sent(message, size).take(cut)) matches Delivery::Failed(error) && (
        error.cut_short() || error == Error::ClosedMidMessage),
{
    lemma_broken_rest_fails(None, message, size, cut);
}

/// The same for the rest of a message behind what came before.
proof fn lemma_broken_rest_fails(
    before: Option<Seq<u8>>,
    message: Seq<u8>,
    size: nat,
    cut: int,
)
    requires
        negotiable(size),
        0 <= cut < sent(message, size).len(),
        cut > 0 || before is Some,
    ensures
        delivery(before, sent(message, size).take(cut)) matches Delivery::Failed(error) && (
        error.cut_short() || error == Error::ClosedMidMessage),
    decreases message.len(),
{
    lemma_negotiable_range(size);
    let room = size - DATA_OVERHEAD;
    let units = segments(message, size);
    let unit = units[0];
    let first = frame(encoded(unit));
    let stream = sent(message, size).take(cut);
    lemma_wire_leads(unit, units.drop_first());
    assert(seq![unit] + units.drop_first() =~= units);
    lemma_encoded_len(unit);
    if cut < first.len() {
        lemma_reads_stay_within_the_frame(encoded(unit), cut);
        assert(stream =~= first.take(cut));
    } else if message.len() <= room {
        assert(wire_of(units.drop_first()).len() == 0);
    } else {
        let left = message.skip(room);
        assert(units.drop_first() =~= segments(left, size));
        let rest = sent(left, size).take(cut - first.len());
        assert(stream =~= first + rest);
        lemma_unit_crosses(unit, rest, true);
        lemma_broken_rest_fails(
            Some(behind(before, message.take(room))),
            left,
            size,
            cut - first.len(),
        );
    }
}

/// A segment without EOT begins a message, whatever it brings: a peer that
/// closes behind a run of such segments closes mid-message.
pub proof fn lemma_close_without_eot_fails(units: Seq<TpduView>)
    requires
        0 < units.len(),
        forall|i: int|
            0 <= i < units.len() ==> {
                &&& #[trigger] units[i] matches TpduView::Data { last: false, .. }
                &&& fits(encoded(units[i]).len())
            },
    ensures
        delivery(None, wire_of(units)) == Delivery::Failed(Error::ClosedMidMessage),
{
    lemma_close_behind_fails(None, units);
}

/// The same behind what came before.
proof fn lemma_close_behind_fails(before: Option<Seq<u8>>, units: Seq<TpduView>)
    requires
        0 < units.len() || before is Some,
        forall|i: int|
            0 <= i < units.len() ==> {
                &&& #[trigger] units[i] matches TpduView::Data { last: false, .. }
                &&& fits(encoded(units[i]).len())
            },
    ensures
        delivery(before, wire_of(units)) == Delivery::Failed(Error::ClosedMidMessage),
    decreases units.len(),
{
    if units.len() > 0 {
        let others = units.drop_first();
        assert forall|i: int| 0 <= i < others.len() implies {
            &&& #[trigger] others[i] matches TpduView::Data { last: false, .. }
            &&& fits(encoded(others[i]).len())
        } by {
            assert(others[i] == units[i + 1]);
        }
        lemma_unit_crosses(units[0], wire_of(others), true);
        lemma_close_behind_fails(grown(before, Some(units[0])), others);
    }
}

/// Messages sent one after the other before a DR are delivered as they were
/// sent, in order, and nothing behind the DR is.
pub proof fn lemma_messages_until_disconnect(
    messages: Seq<Seq<u8>>,
    size: nat,
    reason: u8,
    rest: Seq<u8>,
)
    requires
        negotiable(size),
    ensures
        deliveries(
            sent_all(messages, size) + frame(encoded(TpduView::Disconnect { reason })) + rest,
        ) == Ok::<_, Error>(messages),
    decreases messages.len(),
{
    let unit = TpduView::Disconnect { reason };
    let goodbye = frame(encoded(unit));
    if messages.len() == 0 {
        lemma_encoded_len(unit);
        lemma_unit_crosses(unit, rest, true);
        assert(sent_all(messages, size) + goodbye + rest =~= goodbye + rest);
        assert(messages =~= Seq::empty());
    } else {
        let others = messages.drop_first();
        let behind = sent_all(others, size) + goodbye + rest;
        lemma_messages_until_disconnect(others, size, reason, rest);
        lemma_message_is_delivered(messages[0], size, behind);
        assert(sent_all(messages, size) + goodbye + rest =~= sent(messages[0], size) + behind);
        assert(seq![messages[0]] + others =~= messages);
    }
}

/// Messages sent one after the other before the peer closes are delivered as
/// they were sent, in order.
pub proof fn lemma_messages_until_close(messages: Seq<Seq<u8>>, size: nat)
    requires
        negotiable(size),
    ensures
        deliveries(sent_all(messages, size)) == Ok::<_, Error>(messages),
    decreases messages.len(),
{
    if messages.len() == 0 {
        assert(messages =~= Seq::empty());
    } else {
        let others = messages.drop_first();
        lemma_messages_until_close(others, size);
        lemma_message_is_delivered(messages[0], size, sent_all(others, size));
        assert(seq![messages[0]] + others =~= messages);
    }
}

/// The handshake over the wire: where the two TSAPs have no more than
/// [`MAX_TSAPS`] bytes between them, and only there, each side reads the TPDU
/// that the other wrote.
pub proof fn lemma_handshake_crosses(
    local_tsap: Seq<u8>,
    remote_tsap: Seq<u8>,
    proposed: u8,
    allowed: u8,
    rest: Seq<u8>,
)
    ensures
        ({
            let request = request_of(local_tsap, remote_tsap, proposed);
            let answer = answer_to(allowed, Some(request));
            &&& unit_at(frame(encoded(request)) + rest, false) == Ok::<_, Error>(
                Reading::Whole(request),
            )
            &&& unit_at(frame(encoded(answer)) + rest, false) == Ok::<_, Error>(
                Reading::Whole(answer),
            )
        }) <==> local_tsap.len() + remote_tsap.len() <= MAX_TSAPS,
{
    let request = request_of(local_tsap, remote_tsap, proposed);
    let answer = answer_to(allowed, Some(request));
    lemma_encoded_len(request);
    lemma_encoded_len(answer);
    lemma_unit_crosses(request, rest, false);
    lemma_unit_crosses(answer, rest, false);
}

/// What the handshake comes to: caller and called side settle on the same
/// size, the smaller of what was proposed and what was allowed, and each has
/// the other's TSAP as the far end's.
pub proof fn lemma_handshake_agrees(
    caller: Seq<char>,
    called: Seq<char>,
    local_tsap: Seq<u8>,
    remote_tsap: Seq<u8>,
    proposed: u8,
    allowed: u8,
)
    ensures
        ({
            let request = request_of(local_tsap, remote_tsap, proposed);
            let answer = answer_to(allowed, Some(request));
            let size = if size_limit(proposed) < size_limit(allowed) {
                size_limit(proposed)
            } else {
                size_limit(allowed)
            };
            &&& accepted(caller, allowed, Some(request)) == Ok::<_, Error>(
                ConnectionView {
                    peer: caller,
                    local_tsap: remote_tsap,
                    remote_tsap: local_tsap,
                    tpdu_size: size,
                },
            )
            &&& opened(called, local_tsap, remote_tsap, proposed, Some(answer)) == Ok::<_, Error>(
                ConnectionView { peer: called, local_tsap, remote_tsap, tpdu_size: size },
            )
        }),
{
    lemma_smaller_code_smaller_size(
        smaller(proposed, allowed),
        if proposed < allowed {
            allowed
        } else {
            proposed
        },
    );
}

/// Whatever the TSAPs, a handshake over the wire opens both ends on the same
/// size. The called side has as much of the TSAPs as the CR holds.
pub proof fn lemma_handshake_opens(
    caller: Seq<char>,
    called: Seq<char>,
    local_tsap: Seq<u8>,
    remote_tsap: Seq<u8>,
    proposed: u8,
    allowed: u8,
    rest: Seq<u8>,
)
    ensures
        ({
            let request = request_of(local_tsap, remote_tsap, proposed);
            let opening = cut_tpdu(request);
            let answer = answer_to(allowed, Some(opening));
            let size = size_limit(smaller(proposed, allowed));
            &&& unit_at(frame(encoded(request)) + rest, false) == Ok::<_, Error>(
                Reading::Whole(opening),
            )
            &&& unit_at(frame(encoded(answer)) + rest, false) == Ok::<_, Error>(
                Reading::Whole(answer),
            )
            &&& accepted(caller, allowed, Some(opening)) matches Ok(end) && end.tpdu_size == size
            &&& opened(called, local_tsap, remote_tsap, proposed, Some(answer)) matches Ok(end)
                && end.tpdu_size == size
        }),
{
    let request = request_of(local_tsap, remote_tsap, proposed);
    let answer = answer_to(allowed, Some(cut_tpdu(request)));
    lemma_encoded_len(request);
    lemma_encoded_len(answer);
    lemma_unit_crosses(request, rest, false);
    lemma_unit_crosses(answer, rest, false);
}

/// A caller that does not open with CR is answered with a DR, which it reads
/// as such, and the called side has no connection.
pub proof fn lemma_refusal_is_answered(
    peer: Seq<char>,
    allowed: u8,
    opening: Option<TpduView>,
    rest: Seq<u8>,
)
    requires
        !(opening matches Some(TpduView::ConnectRequest(_))),
    ensures
        accepted(peer, allowed, opening) == Err::<ConnectionView, _>(Error::NotRequested),
        unit_at(frame(encoded(answer_to(allowed, opening))) + rest, false) == Ok::<_, Error>(
            Reading::Whole(TpduView::Disconnect { reason: REASON_NOT_REQUESTED }),
        ),
{
    let answer = answer_to(allowed, opening);
    lemma_encoded_len(answer);
    lemma_unit_crosses(answer, rest, false);
}

} // verus!
