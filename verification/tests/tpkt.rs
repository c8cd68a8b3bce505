use cotp::tpkt::{read_frame, write_frame, Reading, MAX_FRAME};
use cotp::Error;

#[test]
fn a_frame_round_trips_with_its_length_in_the_header() {
    let mut wire: Vec<u8> = Vec::new();
    write_frame(&mut wire, &[0xF0, 0x80, b'h', b'i']).expect("write");
    assert_eq!(wire, [3, 0, 0, 8, 0xF0, 0x80, b'h', b'i']);
    let back = read_frame(&wire, true).expect("read");
    assert_eq!(back, Reading::Whole(vec![0xF0, 0x80, b'h', b'i']));
    assert_eq!(read_frame(b"", true).expect("closed"), Reading::Closed);
}

#[test]
fn what_is_not_tpkt_is_refused() {
    let refused = read_frame(&[2u8, 0, 0, 5, 0], true).expect_err("v2");
    assert!(refused.is_protocol());
    assert_eq!(refused, Error::Version(2));
    assert_eq!(read_frame(&[3u8, 0, 0, 4], true), Err(Error::FrameTooShort), "no TPDU");
    assert_eq!(read_frame(&[3u8, 0, 0, 9, 1], true), Err(Error::TpduCutShort), "short");
    let mut sink: Vec<u8> = Vec::new();
    assert_eq!(write_frame(&mut sink, &vec![0u8; MAX_FRAME]), Err(Error::FrameTooLong));
    assert!(sink.is_empty());
}

#[test]
fn a_frame_is_asked_for_a_step_at_a_time() {
    let frame = [3u8, 0, 1, 4, 7];
    assert_eq!(read_frame(&frame[..0], false), Ok(Reading::Need(1)));
    assert_eq!(read_frame(&frame[..1], false), Ok(Reading::Need(3)));
    assert_eq!(read_frame(&frame[..3], false), Ok(Reading::Need(1)));
    assert_eq!(read_frame(&frame[..4], false), Ok(Reading::Need(256)));
    assert_eq!(read_frame(&frame[..5], false), Ok(Reading::Need(255)));
}

#[test]
fn a_stream_that_ends_inside_a_frame_is_cut_short() {
    let header = read_frame(&[3u8, 0], true).expect_err("header");
    assert_eq!(header, Error::HeaderCutShort);
    assert!(!header.is_protocol());
    let tpdu = read_frame(&[3u8, 0, 0, 6, 1], true).expect_err("tpdu");
    assert_eq!(tpdu, Error::TpduCutShort);
    assert!(!tpdu.is_protocol());
}

#[test]
fn a_version_is_refused_before_the_tpdu_is_there() {
    assert_eq!(read_frame(&[9u8, 0, 0, 0], false), Err(Error::Version(9)));
    assert_eq!(read_frame(&[9u8, 0, 0], false), Ok(Reading::Need(1)));
}

#[test]
fn a_frame_goes_behind_what_is_on_the_wire_and_leaves_what_follows() {
    let mut wire: Vec<u8> = vec![0xAA];
    write_frame(&mut wire, &[1]).expect("first");
    write_frame(&mut wire, &[2, 3]).expect("second");
    assert_eq!(wire, [0xAA, 3, 0, 0, 5, 1, 3, 0, 0, 6, 2, 3]);
    assert_eq!(read_frame(&wire[1..], false), Ok(Reading::Whole(vec![1])));
    assert_eq!(read_frame(&wire[6..], false), Ok(Reading::Whole(vec![2, 3])));
}

#[test]
fn the_longest_frame_carries_and_the_empty_one_is_refused_by_its_reader() {
    let mut wire: Vec<u8> = Vec::new();
    write_frame(&mut wire, &vec![5u8; MAX_FRAME - 4]).expect("longest");
    assert_eq!(wire.len(), MAX_FRAME);
    assert_eq!(&wire[..4], &[3, 0, 0xFF, 0xFF]);
    assert_eq!(read_frame(&wire, true), Ok(Reading::Whole(vec![5u8; MAX_FRAME - 4])));
    let mut long: Vec<u8> = Vec::new();
    assert_eq!(write_frame(&mut long, &vec![5u8; MAX_FRAME - 3]), Err(Error::FrameTooLong));
    let mut empty: Vec<u8> = Vec::new();
    write_frame(&mut empty, &[]).expect("empty");
    assert_eq!(empty, [3, 0, 0, 4]);
    assert_eq!(read_frame(&empty, true), Err(Error::FrameTooShort));
}

#[test]
fn the_reserved_byte_is_not_looked_at() {
    assert_eq!(read_frame(&[3u8, 0x55, 0, 5, 1], true), Ok(Reading::Whole(vec![1])));
}
