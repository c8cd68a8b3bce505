use std::time::Duration;

use cotp::connection::Next;
use cotp::tpkt::{self, Reading};
use cotp::{Connect, Connection, CotpTransport, Error, Tpdu};

const PEER: &str = "127.0.0.1:49152";

/// One direction of a connection: bytes on their way to a reader, from a
/// peer that closes behind them.
struct Pipe {
    bytes: Vec<u8>,
    at: usize,
}

impl Pipe {
    fn new() -> Pipe {
        Pipe { bytes: Vec::new(), at: 0 }
    }

    fn of(bytes: &[u8]) -> Pipe {
        Pipe { bytes: bytes.to_vec(), at: 0 }
    }

    /// The next TPDU, asking for no more bytes than it is told to.
    fn read(&mut self) -> Result<Option<Tpdu>, Error> {
        let mut received: Vec<u8> = Vec::new();
        let mut closed = false;
        loop {
            match Connection::read(&received, closed)? {
                Reading::Need(more) => {
                    let end = (self.at + more).min(self.bytes.len());
                    closed = end < self.at + more;
                    received.extend_from_slice(&self.bytes[self.at..end]);
                    self.at = end;
                }
                Reading::Closed => return Ok(None),
                Reading::Whole(unit) => return Ok(Some(unit)),
            }
        }
    }

    fn next_data(&mut self) -> Result<Option<Vec<u8>>, Error> {
        let mut message: Option<Vec<u8>> = None;
        loop {
            let arrived = self.read()?;
            match Connection::next_data(&mut message, arrived)? {
                Next::More => {}
                Next::Message => return Ok(message),
                Next::Closed => return Ok(None),
            }
        }
    }

    fn write(&mut self, unit: &Tpdu) {
        Connection::write(&mut self.bytes, unit).expect("fits");
    }
}

/// Both ends of a connection and the pipe from the caller to the called.
fn handshake(
    caller: &CotpTransport,
    called: &CotpTransport,
) -> (Connection, Connection, Pipe) {
    let mut out = Pipe::new();
    let mut back = Pipe::new();
    out.write(&caller.request());
    let opening = out.read().expect("cr");
    let (answer, accepted) = called.accept_one(PEER, opening);
    back.write(&answer);
    let answer = back.read().expect("cc");
    let opened = caller.connect("127.0.0.1:102", answer).expect("connected");
    (opened, accepted.expect("accepted"), out)
}

fn node() -> CotpTransport {
    CotpTransport::new("127.0.0.1:0").timing_out_after(Duration::from_secs(2))
}

/// Send one message over a loopback and take it.
fn round(payload: &[u8]) -> (String, Vec<u8>) {
    let called = CotpTransport::loopback(Duration::from_secs(2));
    let caller = called.loopback_caller(Duration::from_secs(2));
    let (here, there, mut pipe) = handshake(&caller, &called);
    here.send_data(payload, &mut pipe.bytes);
    here.disconnect(&mut pipe.bytes);
    let message = pipe.next_data().expect("data");
    assert!(pipe.next_data().expect("dr").is_none());
    (there.origin(), CotpTransport::take_one(message).expect("message"))
}

#[test]
fn a_long_message_is_segmented_and_reassembled() {
    let long: Vec<u8> = (0..3000u32)
        .map(|n| u8::try_from(n % 251).expect("fits"))
        .collect();
    let caller = CotpTransport::new("a").with_tsaps(vec![1, 0], vec![1, 2]).with_tpdu_size_code(7);
    let called = CotpTransport::new("b").with_tpdu_size_code(10);
    let (here, there, mut pipe) = handshake(&caller, &called);
    assert_eq!(here.tpdu_size(), 128, "the smaller side wins");
    assert_eq!(there.tpdu_size(), 128, "on both sides");
    here.send_data(&long, &mut pipe.bytes);
    here.send_data(b"", &mut pipe.bytes);
    here.disconnect(&mut pipe.bytes);
    assert_eq!(there.remote_tsap(), &[1, 0]);
    assert_eq!(there.local_tsap(), &[1, 2]);
    assert_eq!(there.peer(), PEER);
    assert!(there.origin().ends_with("?src-tsap=0100&dst-tsap=0102"));
    assert_eq!(pipe.next_data().expect("long"), Some(long));
    assert_eq!(pipe.next_data().expect("empty"), Some(Vec::new()));
    assert!(pipe.next_data().expect("dr").is_none());
}

#[test]
fn a_caller_that_does_not_open_with_cr_is_refused() {
    let mut pipe = Pipe::new();
    tpkt::write_frame(&mut pipe.bytes, &[2, 0xF0, 0x80, b'x']).expect("dt");
    let opening = pipe.read().expect("a TPDU");
    let (answer, refused) = Connection::accept(PEER, 10, opening);
    let error = refused.err().expect("refused");
    assert!(error.is_protocol());
    assert_eq!(error, Error::NotRequested);
    let mut back = Pipe::new();
    back.write(&answer);
    match tpkt::read_frame(&back.bytes, true).expect("answer") {
        Reading::Whole(answer) => assert_eq!(answer[1], 0x80, "answered with DR"),
        _ => panic!("no answer"),
    }
    let answer = back.read().expect("dr");
    assert_eq!(answer, Some(Tpdu::Disconnect { reason: 0x80 }));
    let refused = node().connect(PEER, answer).err();
    assert_eq!(refused, Some(Error::Refused(0x80)));
}

#[test]
fn the_loopback_delivers_one_message_as_segments_and_takes_it() {
    let (origin, bytes) = round(b"one tpdu");
    assert_eq!(bytes, b"one tpdu");
    assert!(origin.starts_with("cotp://127.0.0.1:"));
    assert!(origin.ends_with("?src-tsap=0100&dst-tsap=0102"));
    let long: Vec<u8> = (0..=255u8).cycle().take(3000).collect();
    assert_eq!(round(&long).1, long);
}

#[test]
fn messages_of_every_length_about_a_segment_come_out_whole() {
    for len in [0usize, 1, 1020, 1021, 1022, 2042, 2043, 70_000] {
        let message: Vec<u8> = (0..=255u8).cycle().take(len).collect();
        assert_eq!(round(&message).1, message, "{len}");
    }
}

#[test]
fn a_call_delivers_one_message_between_its_tsaps() {
    let far_end = node();
    let first = node().with_tsaps(b"XMIP".to_vec(), b"PLC".to_vec());
    let (here, there, mut pipe) = handshake(&first, &far_end);
    here.send_data(&[0u8; 2000], &mut pipe.bytes);
    here.disconnect(&mut pipe.bytes);
    assert_eq!(there.remote_tsap(), b"XMIP");
    assert_eq!(pipe.next_data().expect("first"), Some(vec![0u8; 2000]));
    assert!(pipe.next_data().expect("dr").is_none());

    let (address, local, remote) =
        node().resolve(&format!("cotp://{PEER}?dst-tsap=0201")).expect("resolved");
    assert_eq!(address, PEER);
    let second = node().with_tsaps(local, remote);
    let (here, there, mut pipe) = handshake(&second, &far_end);
    here.send_data(b"second", &mut pipe.bytes);
    assert!(there.origin().ends_with("?src-tsap=0100&dst-tsap=0201"));
    assert_eq!(pipe.next_data().expect("second"), Some(b"second".to_vec()));
}

#[test]
fn receive_takes_a_callers_messages_until_it_disconnects() {
    let caller = node().with_tsaps(vec![2, 1], vec![1, 2]);
    let (here, there, mut pipe) = handshake(&caller, &node());
    here.send_data(b"first", &mut pipe.bytes);
    here.send_data(&[7u8; 1500], &mut pipe.bytes);
    here.disconnect(&mut pipe.bytes);
    let mut arrived: Vec<Vec<u8>> = Vec::new();
    while let Some(message) = pipe.next_data().expect("receiving") {
        arrived.push(message);
    }
    assert_eq!(arrived.len(), 2);
    assert_eq!(arrived[0], b"first");
    assert_eq!(arrived[1], [7u8; 1500]);
    assert!(there.origin().starts_with("cotp://127.0.0.1:"));
    assert!(there.origin().ends_with("?src-tsap=0201&dst-tsap=0102"));
}

#[test]
fn a_message_on_the_wire() {
    let caller = CotpTransport::new("a").with_tpdu_size_code(7);
    let (here, _, _) = handshake(&caller, &node());
    let mut wire: Vec<u8> = vec![0xEE];
    here.send_data(&[9u8; 126], &mut wire);
    let mut expected: Vec<u8> = vec![0xEE, 3, 0, 0, 132, 2, 0xF0, 0x00];
    expected.extend_from_slice(&[9u8; 125]);
    expected.extend_from_slice(&[3, 0, 0, 8, 2, 0xF0, 0x80, 9]);
    assert_eq!(wire, expected);
    let mut empty: Vec<u8> = Vec::new();
    here.send_data(&[], &mut empty);
    assert_eq!(empty, [3, 0, 0, 7, 2, 0xF0, 0x80]);
    let mut goodbye: Vec<u8> = Vec::new();
    here.disconnect(&mut goodbye);
    assert_eq!(goodbye, [3, 0, 0, 11, 6, 0x80, 0, 0, 0, 0, 0]);
}

#[test]
fn the_handshake_on_the_wire() {
    let request = node().request();
    assert_eq!(
        request,
        Tpdu::ConnectRequest(Connect {
            src_ref: 1,
            dst_ref: 0,
            size_code: 10,
            src_tsap: vec![1, 0],
            dst_tsap: vec![1, 2],
        })
    );
    let (answer, accepted) = Connection::accept(PEER, 13, Some(request));
    assert_eq!(
        answer,
        Tpdu::ConnectConfirm(Connect {
            src_ref: 2,
            dst_ref: 1,
            size_code: 10,
            src_tsap: vec![1, 2],
            dst_tsap: vec![1, 0],
        })
    );
    assert_eq!(accepted.expect("accepted").tpdu_size(), 1024);
}

#[test]
fn an_answer_that_is_not_a_confirm_opens_nothing() {
    assert_eq!(node().connect(PEER, None).err(), Some(Error::NotConfirmed));
    let request = node().request();
    assert_eq!(node().connect(PEER, Some(request)).err(), Some(Error::NotConfirmed));
    let (answer, refused) = Connection::accept(PEER, 10, None);
    assert_eq!(answer, Tpdu::Disconnect { reason: 0x80 });
    assert_eq!(refused.err(), Some(Error::NotRequested));
}

#[test]
fn a_confirm_larger_than_what_was_proposed_does_not_raise_the_size() {
    let confirm = Tpdu::ConnectConfirm(Connect {
        src_ref: 2,
        dst_ref: 1,
        size_code: 13,
        src_tsap: vec![],
        dst_tsap: vec![],
    });
    let open = node().with_tpdu_size_code(8).connect(PEER, Some(confirm)).expect("open");
    assert_eq!(open.tpdu_size(), 256);
    assert_eq!(open.local_tsap(), &[1, 0]);
    assert_eq!(open.remote_tsap(), &[1, 2]);
}

#[test]
fn an_open_connection_that_goes_wrong() {
    let mut wire: Vec<u8> = Vec::new();
    Connection::write(&mut wire, &Tpdu::Data { last: false, payload: vec![1] }).expect("dt");
    assert_eq!(Pipe::of(&wire).next_data(), Err(Error::ClosedMidMessage));
    assert_eq!(Pipe::of(&wire[..6]).next_data(), Err(Error::TpduCutShort));
    assert_eq!(Pipe::of(&wire[..2]).next_data(), Err(Error::HeaderCutShort));
    assert_eq!(Pipe::of(&[]).next_data(), Ok(None));
    let mut connect: Vec<u8> = wire.clone();
    Connection::write(&mut connect, &node().request()).expect("cr");
    assert_eq!(Pipe::of(&connect).next_data(), Err(Error::UnexpectedConnect));
    let mut goodbye: Vec<u8> = wire.clone();
    Connection::write(&mut goodbye, &Tpdu::Disconnect { reason: 1 }).expect("dr");
    assert_eq!(Pipe::of(&goodbye).next_data(), Ok(None), "a DR ends it wherever it comes");
    let mut nothing: Vec<u8> = Vec::new();
    Connection::write(&mut nothing, &Tpdu::Data { last: false, payload: vec![] }).expect("dt");
    assert_eq!(
        Pipe::of(&nothing).next_data(),
        Err(Error::ClosedMidMessage),
        "a segment without EOT was read"
    );
    Connection::write(&mut nothing, &Tpdu::Data { last: true, payload: vec![] }).expect("dt");
    assert_eq!(Pipe::of(&nothing).next_data(), Ok(Some(vec![])), "EOT ends it");
}

#[test]
fn a_message_begins_with_its_first_segment() {
    let mut message: Option<Vec<u8>> = None;
    assert_eq!(Connection::next_data(&mut message, None), Ok(Next::Closed));
    assert_eq!(message, None);
    let segment = Tpdu::Data { last: false, payload: vec![] };
    assert_eq!(Connection::next_data(&mut message, Some(segment)), Ok(Next::More));
    assert_eq!(message, Some(vec![]));
    assert_eq!(Connection::next_data(&mut message, None), Err(Error::ClosedMidMessage));
    let segment = Tpdu::Data { last: true, payload: vec![4, 5] };
    assert_eq!(Connection::next_data(&mut message, Some(segment)), Ok(Next::Message));
    assert_eq!(message, Some(vec![4, 5]));
}

#[test]
fn a_broken_message_fails_wherever_it_breaks() {
    let (here, _, _) = handshake(&node().with_tpdu_size_code(7), &node());
    let mut wire: Vec<u8> = Vec::new();
    here.send_data(&[5u8; 300], &mut wire);
    for cut in 1..wire.len() {
        let error = Pipe::of(&wire[..cut]).next_data().expect_err("broken");
        assert!(!error.is_protocol() || error == Error::ClosedMidMessage, "{cut}");
    }
    assert_eq!(Pipe::of(&wire).next_data(), Ok(Some(vec![5u8; 300])));
}

#[test]
fn a_data_tpdu_over_a_frame_is_not_written() {
    let mut wire: Vec<u8> = vec![1];
    let unit = Tpdu::Data { last: true, payload: vec![0u8; 65_529] };
    assert_eq!(Connection::write(&mut wire, &unit), Err(Error::FrameTooLong));
    assert_eq!(wire, [1]);
    let unit = Tpdu::Data { last: true, payload: vec![0u8; 65_528] };
    assert_eq!(Connection::write(&mut wire, &unit), Ok(()));
    assert_eq!(wire.len(), 1 + 65_535);
}

#[test]
fn what_is_not_a_tpdu_is_refused_by_the_reader() {
    assert_eq!(Pipe::of(&[3, 0, 0, 5, 0]).read(), Err(Error::LengthIndicator));
    assert_eq!(Pipe::of(b"220 mail.example ESMTP\r\n").read(), Err(Error::Version(b'2')));
}

#[test]
fn tsaps_cross_up_to_242_bytes_between_them() {
    let caller = node().with_tsaps(vec![1u8; 200], vec![2u8; 42]);
    let (here, there, _) = handshake(&caller, &node());
    assert_eq!(here.remote_tsap(), there.local_tsap());
    assert_eq!(here.local_tsap(), there.remote_tsap());
    assert_eq!(there.local_tsap(), &[2u8; 42]);
    let caller = node().with_tsaps(vec![1u8; 200], vec![2u8; 43]);
    let (here, there, _) = handshake(&caller, &node());
    assert_eq!(here.remote_tsap(), &[2u8; 43]);
    assert_eq!(there.local_tsap(), &[2u8; 42], "what the CR holds");
    assert_eq!(there.remote_tsap(), &[1u8; 200]);
    assert_eq!(here.tpdu_size(), there.tpdu_size());
}
