use std::time::Duration;

use cotp::{Connection, CotpTransport, Error};

fn node() -> CotpTransport {
    CotpTransport::new("127.0.0.1:0").timing_out_after(Duration::from_secs(2))
}

#[test]
fn a_target_resolves_and_what_is_not_cotp_is_refused() {
    let (address, local, remote) = node()
        .resolve("cotp://plc:102?src-tsap=0100&dst-tsap=0201")
        .expect("resolved");
    assert_eq!(
        (address.as_str(), local, remote),
        ("plc:102", vec![1, 0], vec![2, 1])
    );
    assert_eq!(node().resolve("plc:102").expect("bare").0, "plc:102");
    assert!(node().resolve("cotp://plc?dst-tsap=zz").is_err());
    // What the caller reads where the far end is a mail server.
    let error = Connection::read(b"220 mail.example ESMTP\r\n", false).expect_err("refused");
    assert!(error.is_protocol());
    assert_eq!(error, Error::Version(0x32));
}

#[test]
fn a_bare_target_uses_the_configured_tsaps() {
    let transport = node().with_tsaps(vec![9], vec![8, 7]);
    assert_eq!(
        transport.resolve("plc:102?src-tsap=zz"),
        Ok(("plc:102?src-tsap=zz".to_string(), vec![9], vec![8, 7]))
    );
    assert_eq!(
        transport.resolve("cotp://plc:102"),
        Ok(("plc:102".to_string(), vec![9], vec![8, 7]))
    );
}

#[test]
fn a_query_is_read_piece_by_piece() {
    let transport = node();
    assert_eq!(
        transport.resolve_authority("plc?&src-tsap=0a&&src-tsap=0b0C&other=ff&"),
        Ok(("plc".to_string(), vec![0x0B, 0x0C], vec![1, 2])),
        "the last one counts, other keys do not"
    );
    assert_eq!(
        transport.resolve_authority("plc?dst-tsap"),
        Ok(("plc".to_string(), vec![1, 0], vec![])),
        "a key without a value is an empty TSAP"
    );
    assert_eq!(
        transport.resolve_authority("plc?other=x&dst-tsap=y&src-tsap=z"),
        Err(Error::NotHex("y".to_string())),
        "the first TSAP that is not hex"
    );
    assert_eq!(
        transport.resolve("cotp://plc:102?note=zz"),
        Ok(("plc:102".to_string(), vec![1, 0], vec![1, 2])),
        "a note is no TSAP"
    );
    assert_eq!(
        transport.resolve_authority("plc?dst-tsap=01=02"),
        Err(Error::NotHex("01=02".to_string()))
    );
    assert_eq!(
        transport.resolve_authority("plc?dst-tsap=012"),
        Err(Error::NotHex("012".to_string()))
    );
}

#[test]
fn a_target_ends_at_its_first_slash() {
    assert_eq!(
        node().resolve("cotp://plc:102?dst-tsap=0201/path?src-tsap=zz"),
        Ok(("plc:102".to_string(), vec![1, 0], vec![2, 1]))
    );
}

#[test]
fn an_authority_found_elsewhere_resolves_as_well() {
    assert_eq!(
        node().resolve_with("COTP://plc", Some("plc?src-tsap=0b")),
        Ok(("plc".to_string(), vec![0x0B], vec![1, 2]))
    );
    assert_eq!(
        node().resolve_with("cotp://plc", None),
        Ok(("cotp://plc".to_string(), vec![1, 0], vec![1, 2]))
    );
}

#[test]
fn an_origin_resolves_to_whom_it_came_from() {
    let caller = node().with_tsaps(vec![0xDE, 0xAD], vec![0xBE]);
    let (_, accepted) = node().accept_one("[::1]:4711", Some(caller.request()));
    let origin = accepted.expect("accepted").origin();
    assert_eq!(origin, "cotp://[::1]:4711?src-tsap=dead&dst-tsap=be");
    assert_eq!(
        node().resolve(&origin),
        Ok(("[::1]:4711".to_string(), vec![0xDE, 0xAD], vec![0xBE]))
    );
}

#[test]
fn the_defaults_and_what_changes_them() {
    let transport = CotpTransport::new("0.0.0.0:102");
    assert_eq!(transport.bind, "0.0.0.0:102");
    assert_eq!(transport.local_tsap, [1, 0]);
    assert_eq!(transport.remote_tsap, [1, 2]);
    assert_eq!(transport.size_code, 10);
    assert_eq!(transport.timeout, None);
    let changed = transport
        .with_tsaps(vec![3], vec![4])
        .with_tpdu_size_code(12)
        .timing_out_after(Duration::from_millis(5));
    assert_eq!(changed.bind, "0.0.0.0:102");
    assert_eq!(changed.local_tsap, [3]);
    assert_eq!(changed.remote_tsap, [4]);
    assert_eq!(changed.size_code, 12);
    assert_eq!(changed.timeout, Some(Duration::from_millis(5)));
    let caller = changed.loopback_caller(Duration::from_secs(1));
    assert_eq!(caller.bind, "127.0.0.1:0");
    assert_eq!(caller.local_tsap, [3]);
    assert_eq!(caller.remote_tsap, [4]);
    assert_eq!(caller.size_code, 12);
    assert_eq!(caller.timeout, Some(Duration::from_secs(1)));
    let loopback = CotpTransport::loopback(Duration::from_secs(3));
    assert_eq!(loopback.bind, "127.0.0.1:0");
    assert_eq!(loopback.local_tsap, [1, 0]);
    assert_eq!(loopback.timeout, Some(Duration::from_secs(3)));
}

#[test]
fn a_caller_without_a_message_is_an_error() {
    assert_eq!(CotpTransport::take_one(None), Err(Error::NoMessage));
    assert_eq!(CotpTransport::take_one(Some(vec![])), Ok(vec![]));
}
