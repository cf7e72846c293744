use avl_decoder::cursor::Cursor;
use avl_decoder::decode::decode;
use avl_decoder::error::{DecodeError, HexError};
use avl_decoder::hex::{decode_hex, encode_hex};
use avl_decoder::model::{Codec, Frame, IoElement};

/// The concrete scenario: one codec-8 record with timestamp
/// 0x0000016B5A1F3E00, priority 1, an all-zero GPS fix except 5 satellites,
/// and a single one-byte IO element {id: 1, value: 100}.
fn scenario_hex() -> String {
    let mut s = String::new();
    s.push_str("00000000"); // preamble
    s.push_str("00000023"); // declared length: 35 bytes after this field
    s.push_str("08"); // codec 8
    s.push_str("01"); // record count
    s.push_str("0000016B5A1F3E00"); // timestamp
    s.push_str("01"); // priority
    s.push_str("00000000"); // longitude
    s.push_str("00000000"); // latitude
    s.push_str("0000"); // altitude
    s.push_str("0000"); // angle
    s.push_str("05"); // satellites
    s.push_str("0000"); // speed
    s.push_str("00"); // event IO id
    s.push_str("01"); // total IO count
    s.push_str("01"); // 1-byte bucket count
    s.push_str("0164"); // pair id=1 value=100
    s.push_str("00"); // 2-byte bucket count
    s.push_str("00"); // 4-byte bucket count
    s.push_str("00"); // 8-byte bucket count
    s.push_str("01"); // trailing count
    s
}

fn scenario_bytes() -> Vec<u8> {
    decode_hex(&scenario_hex()).expect("scenario hex is valid")
}

#[test]
fn scenario_one_record() {
    let bytes = scenario_bytes();
    assert_eq!(bytes.len(), 43);
    let frame: Frame = decode(&bytes).expect("scenario frame decodes");
    assert_eq!(frame.codec, Codec::Codec8);
    assert_eq!(frame.record_count(), 1);
    let rec = &frame.records[0];
    assert_eq!(rec.timestamp, 0x0000016B5A1F3E00);
    assert_eq!(rec.priority, 1);
    assert_eq!(rec.gps.longitude, 0);
    assert_eq!(rec.gps.latitude, 0);
    assert_eq!(rec.gps.altitude, 0);
    assert_eq!(rec.gps.angle, 0);
    assert_eq!(rec.gps.satellites, 5);
    assert_eq!(rec.gps.speed, 0);
    assert_eq!(rec.io.event_io_id, 0);
    let els = rec.io.elements();
    assert_eq!(els.len(), 1);
    assert_eq!(els[0], IoElement { id: 1, value: 100 });
}

#[test]
fn two_records_in_order() {
    // Two minimal records (empty IO blocks), record count 2.
    let mut s = String::new();
    s.push_str("00000000");
    s.push_str("0000003F"); // 2 * 30 + 3 = 63 bytes after the length field
    s.push_str("08");
    s.push_str("02");
    for ts in ["0000016B5A1F3E00", "0000016B5A1F3E01"] {
        s.push_str(ts);
        s.push_str("00"); // priority
        s.push_str("000000000000000000000000"); // lon, lat, alt, angle
        s.push_str("00"); // satellites
        s.push_str("0000"); // speed
        s.push_str("0000"); // event id, total count
        s.push_str("00000000"); // four empty buckets
    }
    s.push_str("02");
    let bytes = decode_hex(&s).expect("hex is valid");
    let frame = decode(&bytes).expect("frame decodes");
    assert_eq!(frame.record_count(), 2);
    assert_eq!(frame.records[0].timestamp, 0x0000016B5A1F3E00);
    assert_eq!(frame.records[1].timestamp, 0x0000016B5A1F3E01);
}

#[test]
fn empty_frame_decodes() {
    // Record count 0: header, no records, trailing 0.
    let bytes = decode_hex("000000000000000308000000").expect("hex is valid");
    let frame = decode(&bytes).expect("empty frame decodes");
    assert_eq!(frame.codec, Codec::Codec8);
    assert_eq!(frame.record_count(), 0);
}

#[test]
fn codec8_extended_two_byte_fields() {
    // One record under codec 8 extended: ids and counts are two bytes wide.
    let mut s = String::new();
    s.push_str("00000000");
    s.push_str("00000029"); // declared length: arbitrary, 41 <= 43 available
    s.push_str("8E"); // codec 142
    s.push_str("01");
    s.push_str("0000016B5A1F3E00");
    s.push_str("02"); // priority
    s.push_str("000000000000000000000000");
    s.push_str("07"); // satellites
    s.push_str("0000");
    s.push_str("0011"); // event IO id 0x11
    s.push_str("0001"); // total count 1
    s.push_str("0000"); // 1-byte bucket count 0
    s.push_str("0001"); // 2-byte bucket count 1
    s.push_str("0100"); // id 0x0100
    s.push_str("ABCD"); // value 0xABCD
    s.push_str("0000"); // 4-byte bucket count 0
    s.push_str("0000"); // 8-byte bucket count 0
    s.push_str("01");
    let bytes = decode_hex(&s).expect("hex is valid");
    let frame = decode(&bytes).expect("extended frame decodes");
    assert_eq!(frame.codec, Codec::Codec8Extended);
    assert_eq!(frame.record_count(), 1);
    let rec = &frame.records[0];
    assert_eq!(rec.priority, 2);
    assert_eq!(rec.gps.satellites, 7);
    assert_eq!(rec.io.event_io_id, 0x11);
    let els = rec.io.elements();
    assert_eq!(els.len(), 1);
    assert_eq!(els[0], IoElement { id: 0x0100, value: 0xABCD });
}

#[test]
fn truncation_always_reports_truncated() {
    // Cutting the valid scenario frame anywhere before its end is Truncated.
    let bytes = scenario_bytes();
    for cut in 0..bytes.len() {
        let short = &bytes[..cut];
        match decode(short) {
            Err(DecodeError::Truncated { .. }) => {}
            other => panic!("cut at {} gave {:?}", cut, other),
        }
    }
}

#[test]
fn truncated_carries_offset_needed_available() {
    // Three bytes: the four-byte preamble read fails at offset 0.
    let r = decode(&[0u8, 0, 0]);
    assert_eq!(r.unwrap_err(), DecodeError::Truncated { offset: 0, needed: 4, available: 3 });
}

#[test]
fn declared_length_beyond_buffer_is_truncated() {
    // Length field says 255 bytes follow, but only 4 do.
    let bytes = decode_hex("00000000000000FF08000000").expect("hex is valid");
    assert_eq!(
        decode(&bytes).unwrap_err(),
        DecodeError::Truncated { offset: 8, needed: 255, available: 4 },
    );
}

#[test]
fn bad_preamble() {
    let mut bytes = scenario_bytes();
    bytes[0] = 0xFF;
    assert_eq!(decode(&bytes).unwrap_err(), DecodeError::BadPreamble { offset: 0 });
}

#[test]
fn unknown_codec_is_fatal() {
    // Codec 0xFF: the record body is never interpreted.
    let mut bytes = scenario_bytes();
    bytes[8] = 0xFF;
    assert_eq!(decode(&bytes).unwrap_err(), DecodeError::UnsupportedCodec { offset: 8, id: 0xFF });
}

#[test]
fn bucket_count_sum_mismatch() {
    // Declared total 2, but the buckets hold one element: CountMismatch at
    // the IO block's offset (10 header + 24 bytes into the record).
    let mut bytes = scenario_bytes();
    bytes[35] = 2; // the declared total IO count
    assert_eq!(
        decode(&bytes).unwrap_err(),
        DecodeError::CountMismatch { offset: 34, expected: 2, actual: 1 },
    );
}

#[test]
fn trailing_count_mismatch() {
    let mut bytes = scenario_bytes();
    let last = bytes.len() - 1;
    bytes[last] = 2;
    assert_eq!(
        decode(&bytes).unwrap_err(),
        DecodeError::RecordCountMismatch { offset: 42, declared: 1, trailing: 2 },
    );
}

#[test]
fn cursor_reads_big_endian_and_tracks_position() {
    let data: Vec<u8> = vec![0x01, 0x02, 0x03, 0x04, 0x05, 0x06, 0x07, 0x08, 0x09, 0x0A, 0xFF];
    let mut cur = Cursor::new(&data);
    assert_eq!(cur.position(), 0);
    assert_eq!(cur.remaining(), 11);
    assert_eq!(cur.read_u8().unwrap(), 0x01);
    assert_eq!(cur.read_u16_be().unwrap(), 0x0203);
    assert_eq!(cur.read_u32_be().unwrap(), 0x04050607);
    assert_eq!(cur.position(), 7);
    assert_eq!(cur.remaining(), 4);
    // An eight-byte read with four bytes left fails without advancing.
    assert_eq!(
        cur.read_u64_be().unwrap_err(),
        DecodeError::Truncated { offset: 7, needed: 8, available: 4 },
    );
    assert_eq!(cur.position(), 7);
    let rest = cur.read_bytes(4).unwrap();
    assert_eq!(rest, &[0x08, 0x09, 0x0A, 0xFF]);
    assert_eq!(cur.remaining(), 0);
}

#[test]
fn cursor_read_u64() {
    let data: Vec<u8> = vec![0x00, 0x00, 0x01, 0x6B, 0x5A, 0x1F, 0x3E, 0x00];
    let mut cur = Cursor::new(&data);
    assert_eq!(cur.read_u64_be().unwrap(), 0x0000016B5A1F3E00);
}

#[test]
fn decode_hex_mixed_case() {
    assert_eq!(decode_hex("0a0BFf").unwrap(), vec![0x0A, 0x0B, 0xFF]);
    assert_eq!(decode_hex("").unwrap(), Vec::<u8>::new());
}

#[test]
fn decode_hex_odd_length() {
    assert_eq!(decode_hex("abc").unwrap_err(), HexError::OddLength);
}

#[test]
fn decode_hex_invalid_digit() {
    assert_eq!(decode_hex("0g").unwrap_err(), HexError::InvalidDigit { offset: 1 });
    assert_eq!(decode_hex("zz").unwrap_err(), HexError::InvalidDigit { offset: 0 });
}

#[test]
fn encode_hex_lower_case() {
    assert_eq!(encode_hex(&[0x00, 0xFF, 0x1A]), "00ff1a");
    assert_eq!(encode_hex(&[]), "");
}

#[test]
fn hex_round_trip() {
    let bytes = scenario_bytes();
    let hex = encode_hex(&bytes);
    assert_eq!(decode_hex(&hex).unwrap(), bytes);
    assert_eq!(hex, scenario_hex().to_lowercase());
}

#[test]
fn frame_round_trip_through_bytes() {
    // Decode, re-encode by hand from the decoded frame, decode again: equal.
    let bytes = scenario_bytes();
    let first = decode(&bytes).expect("decodes");
    let mut rebuilt: Vec<u8> = Vec::new();
    rebuilt.extend_from_slice(&[0, 0, 0, 0]);
    let records_len = 32u32; // one record of 32 bytes
    rebuilt.extend_from_slice(&(records_len + 3).to_be_bytes());
    rebuilt.push(first.codec.wire_id());
    rebuilt.push(first.record_count() as u8);
    for rec in &first.records {
        rebuilt.extend_from_slice(&rec.timestamp.to_be_bytes());
        rebuilt.push(rec.priority);
        rebuilt.extend_from_slice(&rec.gps.longitude.to_be_bytes());
        rebuilt.extend_from_slice(&rec.gps.latitude.to_be_bytes());
        rebuilt.extend_from_slice(&rec.gps.altitude.to_be_bytes());
        rebuilt.extend_from_slice(&rec.gps.angle.to_be_bytes());
        rebuilt.push(rec.gps.satellites);
        rebuilt.extend_from_slice(&rec.gps.speed.to_be_bytes());
        rebuilt.push(rec.io.event_io_id as u8);
        let total = rec.io.ones.len() + rec.io.twos.len() + rec.io.fours.len()
            + rec.io.eights.len();
        rebuilt.push(total as u8);
        rebuilt.push(rec.io.ones.len() as u8);
        for el in &rec.io.ones {
            rebuilt.push(el.id as u8);
            rebuilt.push(el.value as u8);
        }
        rebuilt.push(rec.io.twos.len() as u8);
        rebuilt.push(rec.io.fours.len() as u8);
        rebuilt.push(rec.io.eights.len() as u8);
    }
    rebuilt.push(first.record_count() as u8);
    assert_eq!(rebuilt, bytes);
    let second = decode(&rebuilt).expect("re-encoded frame decodes");
    assert_eq!(second.codec, first.codec);
    assert_eq!(second.record_count(), first.record_count());
    assert_eq!(second.records[0].timestamp, first.records[0].timestamp);
    assert_eq!(second.records[0].io.elements(), first.records[0].io.elements());
}

#[test]
fn gps_fields_pass_through_unvalidated() {
    // Out-of-range angle and zero satellites are legal wire values.
    let mut s = String::new();
    s.push_str("00000000");
    s.push_str("00000021"); // 30 + 3 bytes after the length field
    s.push_str("08");
    s.push_str("01");
    s.push_str("FFFFFFFFFFFFFFFF"); // timestamp: max
    s.push_str("09"); // priority outside {0,1,2}: passed through
    s.push_str("FFFFFFFF"); // longitude
    s.push_str("80000001"); // latitude
    s.push_str("FFFF"); // altitude
    s.push_str("FFFF"); // angle far beyond 359
    s.push_str("00"); // zero satellites: "no fix"
    s.push_str("FFFF"); // speed
    s.push_str("0000"); // event id, total 0
    s.push_str("00000000"); // empty buckets
    s.push_str("01");
    let bytes = decode_hex(&s).expect("hex is valid");
    let frame = decode(&bytes).expect("frame decodes");
    let rec = &frame.records[0];
    assert_eq!(rec.timestamp, u64::MAX);
    assert_eq!(rec.priority, 9);
    assert_eq!(rec.gps.longitude, u32::MAX);
    assert_eq!(rec.gps.latitude, 0x80000001);
    assert_eq!(rec.gps.angle, 0xFFFF);
    assert_eq!(rec.gps.satellites, 0);
    assert_eq!(rec.io.elements().len(), 0);
}

#[test]
fn duplicate_ids_across_buckets_are_preserved() {
    let mut s = String::new();
    s.push_str("00000000");
    s.push_str("00000026"); // declared length: 38 bytes after this field
    s.push_str("08");
    s.push_str("01");
    s.push_str("0000016B5A1F3E00");
    s.push_str("00");
    s.push_str("000000000000000000000000");
    s.push_str("00");
    s.push_str("0000");
    s.push_str("00"); // event id
    s.push_str("02"); // total 2
    s.push_str("01"); // 1-byte bucket: one pair, id 7
    s.push_str("0711");
    s.push_str("01"); // 2-byte bucket: one pair, same id 7
    s.push_str("072222");
    s.push_str("00");
    s.push_str("00");
    s.push_str("01");
    let bytes = decode_hex(&s).expect("hex is valid");
    let frame = decode(&bytes).expect("frame decodes");
    let els = frame.records[0].io.elements();
    assert_eq!(els.len(), 2);
    assert_eq!(els[0], IoElement { id: 7, value: 0x11 });
    assert_eq!(els[1], IoElement { id: 7, value: 0x2222 });
}
