use cotp::tpdu::{decode, encode, size_of, Connect, Tpdu};
use cotp::Error;

fn connect() -> Connect {
    Connect {
        src_ref: 1,
        dst_ref: 0,
        size_code: 10,
        src_tsap: vec![0x01, 0x00],
        dst_tsap: vec![0x01, 0x02],
    }
}

fn between(src: usize, dst: usize) -> Tpdu {
    Tpdu::ConnectRequest(Connect {
        src_ref: 0x1234,
        dst_ref: 0xABCD,
        size_code: 9,
        src_tsap: vec![7u8; src],
        dst_tsap: vec![8u8; dst],
    })
}

#[test]
fn every_tpdu_round_trips() {
    for tpdu in [
        Tpdu::ConnectRequest(connect()),
        Tpdu::ConnectConfirm(connect()),
        Tpdu::Data {
            last: true,
            payload: b"hello".to_vec(),
        },
        Tpdu::Data {
            last: false,
            payload: Vec::new(),
        },
        Tpdu::Disconnect { reason: 0x80 },
    ] {
        assert_eq!(decode(&encode(&tpdu)).expect("decode"), tpdu);
    }
    let cr = encode(&Tpdu::ConnectRequest(connect()));
    assert_eq!(&cr[..7], &[17, 0xE0, 0, 0, 0, 1, 0]);
    assert_eq!(&cr[7..], &[0xC0, 1, 10, 0xC1, 2, 1, 0, 0xC2, 2, 1, 2]);
    assert_eq!(size_of(10), 1024);
    assert_eq!(size_of(2), 128, "clamped up");
    assert_eq!(size_of(20), 8192, "clamped down");
}

#[test]
fn what_is_not_class_0_is_refused() {
    assert_eq!(decode(&[]), Err(Error::EmptyTpdu), "empty");
    assert_eq!(decode(&[9, 0xF0, 0x80]), Err(Error::LengthIndicator), "LI past the end");
    assert_eq!(decode(&[2, 0x70, 0]), Err(Error::Code(0x70)), "AK is class 2");
    assert_eq!(
        decode(&[3, 0xF0, 0, 0]),
        Err(Error::DataHeader),
        "DT with a sequence number"
    );
    assert_eq!(decode(&[6, 0xE0, 0, 0, 0, 1, 0x20]), Err(Error::Class), "class 2");
    assert_eq!(
        decode(&[8, 0xE0, 0, 0, 0, 1, 0, 0xC1, 5]),
        Err(Error::ParameterValue),
        "runs off"
    );
    let short = decode(&[3, 0xE0, 0, 0]).expect_err("short");
    assert!(short.is_protocol());
    assert_eq!(short, Error::ConnectTooShort);
}

#[test]
fn the_other_refusals() {
    assert_eq!(decode(&[0, 0xF0, 0x80]), Err(Error::LengthIndicator), "LI of zero");
    assert_eq!(
        decode(&[7, 0xE0, 0, 0, 0, 1, 0, 0xC1]),
        Err(Error::ParameterLength),
        "no length"
    );
    assert_eq!(decode(&[1, 0x15]), Err(Error::Code(0x10)), "the low bits are cleared");
}

#[test]
fn every_size_code() {
    let sizes: Vec<usize> = (6..=14u8).map(size_of).collect();
    assert_eq!(sizes, [128, 128, 256, 512, 1024, 2048, 4096, 8192, 8192]);
    assert_eq!(size_of(0), 128);
    assert_eq!(size_of(255), 8192);
}

#[test]
fn the_wire_form_of_data_and_disconnect() {
    let data = Tpdu::Data { last: true, payload: vec![1, 2] };
    assert_eq!(encode(&data), [2, 0xF0, 0x80, 1, 2]);
    let more = Tpdu::Data { last: false, payload: vec![] };
    assert_eq!(encode(&more), [2, 0xF0, 0x00]);
    assert_eq!(encode(&Tpdu::Disconnect { reason: 9 }), [6, 0x80, 0, 0, 0, 0, 9]);
}

#[test]
fn a_short_disconnect_has_no_reason_and_low_bits_do_not_count() {
    assert_eq!(decode(&[1, 0x80]), Ok(Tpdu::Disconnect { reason: 0 }));
    assert_eq!(decode(&[6, 0x8F, 0, 0, 0, 0, 3]), Ok(Tpdu::Disconnect { reason: 3 }));
    assert_eq!(
        decode(&[2, 0xF1, 0xFF, 4]),
        Ok(Tpdu::Data { last: true, payload: vec![4] })
    );
    assert_eq!(
        decode(&[2, 0xF0, 0x7F]),
        Ok(Tpdu::Data { last: false, payload: vec![] })
    );
}

#[test]
fn parameters_may_be_missing_repeated_empty_or_unknown() {
    let bare = decode(&[6, 0xE0, 0, 0, 1, 2, 0]).expect("bare");
    assert_eq!(
        bare,
        Tpdu::ConnectRequest(Connect {
            src_ref: 0x0102,
            dst_ref: 0,
            size_code: 10,
            src_tsap: vec![],
            dst_tsap: vec![],
        })
    );
    let bytes = [
        21, 0xD3, 0, 5, 0, 6, 0x0F, 0xC0, 1, 8, 0xC6, 1, 0, 0xC1, 1, 1, 0xC1, 1, 2, 0xC0, 0, 99,
    ];
    assert_eq!(
        decode(&bytes[..22]),
        Err(Error::ParameterLength),
        "a lone code at the end"
    );
    let mut whole = bytes.to_vec();
    whole[0] = 20;
    assert_eq!(
        decode(&whole),
        Ok(Tpdu::ConnectConfirm(Connect {
            src_ref: 6,
            dst_ref: 5,
            size_code: 10,
            src_tsap: vec![2],
            dst_tsap: vec![],
        })),
        "the last one counts, an empty size is the default, the payload is ignored"
    );
}

#[test]
fn a_connect_round_trips_where_its_header_holds_its_tsaps() {
    for (src, dst) in [(0, 0), (242, 0), (0, 242), (100, 142)] {
        let tpdu = between(src, dst);
        assert_eq!(decode(&encode(&tpdu)).expect("decode"), tpdu, "{src} {dst}");
    }
}

#[test]
fn tsaps_that_the_header_does_not_hold_are_cut() {
    for (src, dst, sent_src, sent_dst) in [
        (243, 0, 242, 0),
        (0, 243, 0, 242),
        (244, 1, 242, 0),
        (200, 100, 200, 42),
        (255, 255, 242, 0),
        (300, 0, 242, 0),
        (2, 400, 2, 240),
    ] {
        let bytes = encode(&between(src, dst));
        assert_eq!(usize::from(bytes[0]), bytes.len() - 1, "{src} {dst}");
        assert_eq!(bytes, encode(&between(sent_src, sent_dst)), "{src} {dst}");
        assert_eq!(bytes.len(), 14 + sent_src + sent_dst, "{src} {dst}");
        assert_eq!(decode(&bytes), Ok(between(sent_src, sent_dst)), "{src} {dst}");
    }
    let bytes = encode(&between(200, 100));
    assert_eq!(&bytes[10..12], &[0xC1, 200]);
    assert_eq!(&bytes[212..214], &[0xC2, 42]);
}

#[test]
fn every_tpdu_opens_with_its_headers_length() {
    let connect = encode(&Tpdu::ConnectConfirm(connect()));
    assert_eq!(usize::from(connect[0]), connect.len() - 1);
    assert_eq!(encode(&Tpdu::Data { last: true, payload: vec![0u8; 500] })[0], 2);
    assert_eq!(encode(&Tpdu::Disconnect { reason: 1 })[0], 6);
}

#[test]
fn a_parameter_of_another_code_changes_nothing() {
    let bytes = encode(&Tpdu::ConnectRequest(connect()));
    let plain = decode(&bytes).expect("plain");
    for at in [7usize, 10, 14, 18] {
        let mut longer = bytes[..at].to_vec();
        longer.extend_from_slice(&[0xC6, 3, 0xC1, 1, 9]);
        longer.extend_from_slice(&bytes[at..]);
        longer[0] += 5;
        assert_eq!(decode(&longer), Ok(plain.clone()), "{at}");
    }
}
