//! Primitives, containers, versions and the shared types on the wire.

use std::cmp::Ordering;

use rsl::fprint::{fingerprint, fingerprint_with, Tables, POLY};
use rsl::marshal::{Reader, Writer};
use rsl::messages::{
    marshal_base, unmarshal_base, verify_checksum, Header, CHECKSUM_OFFSET, MAGIC,
    MSG_VOTE_ACCEPTED,
};
use rsl::text::{decimal_bytes, number_string, parse_number};
use rsl::types::{
    parse_member_id_u64, BallotNumber, ConfigurationInfo, MemberId, MemberSet, RslNode,
    MAX_MEMBER_ID_LEN, MAX_MEMBER_SET_COOKIE_LEN, MEMBER_ID_SIZE,
};
use rsl::version::ProtocolVersion;
use rsl::{round_up_to_page, PAGE_SIZE};

#[test]
fn page_rounding_matches_the_cpp_macro() {
    assert_eq!(round_up_to_page(0), 0);
    assert_eq!(round_up_to_page(1), 512);
    assert_eq!(round_up_to_page(512), 512);
    assert_eq!(round_up_to_page(513), 1024);
    assert_eq!(round_up_to_page(1024), 1024);
    assert_eq!(round_up_to_page(u32::MAX), !(PAGE_SIZE - 1));
}

#[test]
fn page_rounding_is_idempotent() {
    for x in [0, 1, 511, 512, 513, 0xffff_fe00, 0xffff_fe01, u32::MAX] {
        let once = round_up_to_page(x);
        assert_eq!(round_up_to_page(once), once);
    }
}

#[test]
fn empty_is_poly() {
    assert_eq!(fingerprint(b""), POLY);
    assert_eq!(fingerprint(b""), 0xa795d0f2_9b4dcdf8);
}

#[test]
fn slice_by_8_matches_byte_at_a_time() {
    let tables = Tables::new(POLY);
    for len in 0..300usize {
        let data: Vec<u8> = (0..len).map(|i| (i * 31 + 7) as u8).collect();
        let mut fp = POLY;
        for byte in &data {
            fp = tables.absorb_slice(fp, &[*byte]);
        }
        assert_eq!(fingerprint_with(POLY, &data), fp, "mismatch at len {len}");
    }
}

#[test]
fn primitives_round_trip_little_endian() {
    let mut w = Writer::new();
    w.write_u8(0x12);
    w.write_u16(0x3456);
    w.write_u32(0x789a_bcde);
    w.write_u64(0x0102_0304_0506_0708);
    w.write_bool(true);
    let bytes = w.into_bytes();
    assert_eq!(bytes[0], 0x12);
    assert_eq!(&bytes[1..3], &[0x56, 0x34]);
    assert_eq!(&bytes[3..7], &[0xde, 0xbc, 0x9a, 0x78]);

    let mut r = Reader::new(&bytes);
    assert_eq!(r.read_u8(), Some(0x12));
    assert_eq!(r.read_u16(), Some(0x3456));
    assert_eq!(r.read_u32(), Some(0x789a_bcde));
    assert_eq!(r.read_u64(), Some(0x0102_0304_0506_0708));
    assert_eq!(r.read_bool(), Some(true));
    assert!(r.read_u8().is_none());
    assert!(r.overshoot());
}

#[test]
fn string_uses_u32_prefix() {
    let mut w = Writer::new();
    w.write_string(b"abc");
    let bytes = w.into_bytes();
    assert_eq!(&bytes[..4], &[3, 0, 0, 0]);
    assert_eq!(&bytes[4..], b"abc");

    let mut r = Reader::new(&bytes);
    assert_eq!(r.read_string(), Some(&b"abc"[..]));
}

#[test]
fn a_failed_decode_stops_where_it_failed() {
    let version = ProtocolVersion::V6;
    // Too few bytes for the field.
    let short = [b'1'; 63];
    let mut r = Reader::new(&short);
    assert!(MemberId::unmarshal(&mut r, version).is_none());
    assert!(r.overshoot());
    assert_eq!(r.read_pointer(), 0);
    // A field that does not end.
    let full = [b'1'; 80];
    let mut r = Reader::new(&full);
    assert!(MemberId::unmarshal(&mut r, version).is_none());
    assert!(!r.overshoot());
    assert_eq!(r.read_pointer(), 64);
    // The round is there, the owner is not.
    let mut r = Reader::new(&full[..20]);
    assert!(BallotNumber::unmarshal(&mut r, version).is_none());
    assert!(r.overshoot());
    assert_eq!(r.read_pointer(), 4);
}

#[test]
fn a_member_set_is_refused_if_it_is_cut_or_its_cookie_is_too_long() {
    for version in [ProtocolVersion::V3, ProtocolVersion::V6] {
        let mut set = MemberSet {
            members: Vec::new(),
            cookie: vec![7; 8192],
        };
        let mut w = Writer::new();
        set.marshal(&mut w, version);
        let bytes = w.into_bytes();
        assert!(MemberSet::unmarshal(&mut Reader::new(&bytes), version).is_some());
        for cut in [0, 1, 5, 6, 100, bytes.len() - 1] {
            let mut r = Reader::new(&bytes[..cut]);
            assert!(MemberSet::unmarshal(&mut r, version).is_none());
            assert!(r.overshoot());
        }

        set.cookie.push(7);
        let mut w = Writer::new();
        set.marshal(&mut w, version);
        let bytes = w.into_bytes();
        let mut r = Reader::new(&bytes);
        assert!(MemberSet::unmarshal(&mut r, version).is_none());
        assert!(!r.overshoot());
        assert_eq!(r.read_pointer(), 6);
    }
}

#[test]
fn a_string_that_runs_past_the_end_moves_nothing() {
    let bytes = [5u8, 0, 0, 0, b'a'];
    let mut r = Reader::new(&bytes);
    assert_eq!(r.read_string(), None);
    assert!(r.overshoot());
    assert_eq!(r.read_pointer(), 0);
}

#[test]
fn short_and_long_containers_backpatch() {
    let mut w = Writer::new();
    let ph = w.start_container(true);
    w.write_data(b"hello");
    w.close_container(ph);

    let ph = w.start_container(false);
    w.write_data(&[0u8; 300]);
    w.close_container(ph);

    let bytes = w.into_bytes();
    assert_eq!(bytes[0], 5);
    assert_eq!(&bytes[1..6], b"hello");
    assert_eq!(&bytes[6..10], &300u32.to_le_bytes());
}

#[test]
fn overshoot_is_sticky() {
    let bytes = [1u8, 2, 3];
    let mut r = Reader::new(&bytes);
    assert_eq!(r.read_u16(), Some(0x0201));
    assert!(r.read_u32().is_none());
    assert!(r.overshoot());
    assert!(r.read_u8().is_none());
    r.reset_read_pointer();
    assert_eq!(r.read_u8(), Some(1));
}

#[test]
fn read_pointer_moves_stay_in_the_buffer() {
    let bytes = [1u8, 2, 3, 4];
    let mut r = Reader::new(&bytes);
    assert_eq!(r.marshaled_length(), 4);
    assert!(r.forward_read_pointer(2));
    assert_eq!(r.read_pointer(), 2);
    assert!(r.rewind_read_pointer(1));
    assert_eq!(r.read_pointer(), 1);
    assert!(!r.set_read_pointer(5));
    assert!(!r.overshoot());
    assert_eq!(r.read_pointer(), 0);
    assert!(r.read_data(5).is_none());
    assert!(r.overshoot());
    r.reset_overshoot();
    assert!(r.set_read_pointer(0));
    assert_eq!(r.peek_data_pointer(2), Some(&[1u8, 2][..]));
    assert_eq!(r.read_data(4), Some(&bytes[..]));
    assert!(!r.test_read_remaining(1));
}

fn build(desc: &str) -> Writer {
    let mut w = Writer::new();
    match desc {
        "short-empty" => {
            let ph = w.start_container(true);
            w.close_container(ph);
        }
        "short-hello" => {
            let ph = w.start_container(true);
            w.write_data(b"hello");
            w.close_container(ph);
        }
        "short-max-255" => {
            let ramp: Vec<u8> = (0..255).map(|i| i as u8).collect();
            let ph = w.start_container(true);
            w.write_data(&ramp);
            w.close_container(ph);
        }
        "long-empty" => {
            let ph = w.start_container(false);
            w.close_container(ph);
        }
        "long-hello" => {
            let ph = w.start_container(false);
            w.write_data(b"hello");
            w.close_container(ph);
        }
        "long-300" => {
            let ramp: Vec<u8> = (0..300).map(|i| (i & 0xff) as u8).collect();
            let ph = w.start_container(false);
            w.write_data(&ramp);
            w.close_container(ph);
        }
        "nested-long-short" => {
            let outer = w.start_container(false);
            w.write_u32(0xdead_beef);
            let inner = w.start_container(true);
            w.write_data(b"abc");
            w.close_container(inner);
            w.write_u16(0xbeef);
            w.close_container(outer);
        }
        other => panic!("no scenario {other:?}"),
    }
    w
}

#[test]
fn container_vectors_match_cpp_backpatch() {
    let mut short_max = vec![255u8];
    short_max.extend((0..255).map(|i| i as u8));
    let mut long_300 = vec![0x2c, 0x01, 0, 0];
    long_300.extend((0..300).map(|i| (i & 0xff) as u8));
    let vectors: Vec<(&str, Vec<u8>)> = vec![
        ("short-empty", vec![0]),
        ("short-hello", b"\x05hello".to_vec()),
        ("short-max-255", short_max),
        ("long-empty", vec![0, 0, 0, 0]),
        ("long-hello", b"\x05\0\0\0hello".to_vec()),
        ("long-300", long_300),
        (
            "nested-long-short",
            b"\x0a\0\0\0\xef\xbe\xad\xde\x03abc\xef\xbe".to_vec(),
        ),
    ];
    assert_eq!(vectors.len(), 7);
    for (desc, bytes) in &vectors {
        assert_eq!(build(desc).as_bytes(), &bytes[..], "{desc}");
    }
}

#[test]
fn configuration_info_round_trips_and_sizes_match() {
    let member_set = MemberSet {
        members: vec![
            RslNode {
                member_id: MemberId::from_str("101"),
                ip: 0x0100_007f,
                rsl_port: 8080,
                rsl_learn_port: 8081,
                app_port: 0,
                host_name: b"host-a".to_vec(),
            },
            RslNode {
                member_id: MemberId::from_str("202"),
                ip: 0x0100_017f,
                rsl_port: 9090,
                rsl_learn_port: 9091,
                app_port: 0,
                host_name: b"host-b".to_vec(),
            },
        ],
        cookie: b"cfg".to_vec(),
    };
    let cfg = ConfigurationInfo::new(0x0a0b_0c0d, 0x1001, member_set);

    for version in [ProtocolVersion::V4, ProtocolVersion::V6] {
        let mut w = Writer::new();
        cfg.marshal(&mut w, version);
        let bytes = w.into_bytes();
        assert_eq!(bytes.len() as u32, cfg.marshal_len(version));
        assert_eq!(&bytes[..4], &0x0a0b_0c0du32.to_le_bytes());
        assert_eq!(&bytes[4..12], &0x1001u64.to_le_bytes());

        let mut r = Reader::new(&bytes);
        assert_eq!(
            ConfigurationInfo::unmarshal(&mut r, version),
            Some(cfg.clone())
        );
    }
}

#[test]
fn configuration_info_rejects_short_buffers() {
    let cfg = ConfigurationInfo::new(1, 2, MemberSet::default());
    let mut w = Writer::new();
    cfg.marshal(&mut w, ProtocolVersion::V6);
    let bytes = w.into_bytes();
    for cut in 0..bytes.len() {
        let mut r = Reader::new(&bytes[..cut]);
        assert!(ConfigurationInfo::unmarshal(&mut r, ProtocolVersion::V6).is_none());
    }
}

#[test]
fn a_long_member_set_cookie_is_rejected() {
    for (len, ok) in [
        (MAX_MEMBER_SET_COOKIE_LEN, true),
        (MAX_MEMBER_SET_COOKIE_LEN + 1, false),
    ] {
        let mut w = Writer::new();
        w.write_u16(0);
        w.write_string(&vec![7u8; len as usize]);
        let bytes = w.into_bytes();
        let mut r = Reader::new(&bytes);
        assert_eq!(
            MemberSet::unmarshal(&mut r, ProtocolVersion::V6).is_some(),
            ok
        );
    }
}

#[test]
fn member_id_pre_v3_is_u64() {
    let id = MemberId::from_str("101");
    let mut w = Writer::new();
    id.marshal(&mut w, ProtocolVersion::V1);
    assert_eq!(w.as_bytes(), &101u64.to_le_bytes());

    let bytes = w.into_bytes();
    let mut r = Reader::new(&bytes);
    let back = MemberId::unmarshal(&mut r, ProtocolVersion::V1).unwrap();
    assert_eq!(back.value(), b"101");
}

#[test]
fn member_id_v4_is_zero_padded_64() {
    let id = MemberId::from_str("202");
    let mut w = Writer::new();
    id.marshal(&mut w, ProtocolVersion::V4);
    let bytes = w.into_bytes();
    assert_eq!(bytes.len(), 64);
    assert_eq!(&bytes[..3], b"202");
    assert!(bytes[3..].iter().all(|&b| b == 0));

    let mut noisy = bytes.clone();
    noisy[10] = 0xff;
    let mut r = Reader::new(&noisy);
    let back = MemberId::unmarshal(&mut r, ProtocolVersion::V4).unwrap();
    assert_eq!(back.value(), b"202");
}

#[test]
fn member_id_v4_without_nul_is_rejected() {
    let field = [b'A'; MEMBER_ID_SIZE];
    let mut r = Reader::new(&field);
    assert!(MemberId::unmarshal(&mut r, ProtocolVersion::V4).is_none());

    let mut field = [b'A'; MEMBER_ID_SIZE];
    field[63] = 0;
    let mut r = Reader::new(&field);
    let id = MemberId::unmarshal(&mut r, ProtocolVersion::V4).unwrap();
    assert_eq!(id.value().len(), MAX_MEMBER_ID_LEN);
}

#[test]
fn member_id_u64_parse_matches_strtoull() {
    let parse = |s: &str| parse_member_id_u64(s.as_bytes());
    assert_eq!(parse(""), 0);
    assert_eq!(parse("101"), 101);
    assert_eq!(parse("0x1f"), 0x1f);
    assert_eq!(parse("017"), 0o17);
    assert_eq!(parse("0"), 0);
    assert_eq!(parse(" \t42"), 42);
    assert_eq!(parse("+7"), 7);
    assert_eq!(parse("-1"), u64::MAX);
    assert_eq!(parse("18446744073709551615"), u64::MAX);
    assert_eq!(parse("18446744073709551616"), u64::MAX);
    assert_eq!(parse("99999999999999999999999"), u64::MAX);
    assert_eq!(parse("0xffffffffffffffffff"), u64::MAX);
}

#[test]
fn text_that_is_no_number_is_told_apart() {
    assert_eq!(parse_number(b"123abc"), None);
    assert_eq!(parse_number(b"abc"), None);
    assert_eq!(parse_number(b"08"), None);
    assert_eq!(parse_number(b"0x"), None);
    assert_eq!(parse_number(b"-"), None);
    assert_eq!(parse_number(b"-5"), Some(u64::MAX - 4));
}

#[test]
fn numbers_are_written_without_leading_zeros() {
    assert_eq!(decimal_bytes(0), b"0");
    assert_eq!(decimal_bytes(u64::MAX), b"18446744073709551615");
    assert_eq!(number_string(1000), "1000");
    for n in [0u64, 9, 10, 99, 100, u64::MAX] {
        assert_eq!(parse_number(&decimal_bytes(n)), Some(n));
    }
}

#[test]
fn empty_member_id_pre_v3_is_zero() {
    let mut w = Writer::new();
    MemberId::empty().marshal(&mut w, ProtocolVersion::V2);
    assert_eq!(w.as_bytes(), &[0u8; 8]);
    let mut r = Reader::new(w.as_bytes());
    assert_eq!(
        MemberId::unmarshal(&mut r, ProtocolVersion::V2)
            .unwrap()
            .value(),
        b""
    );
}

#[test]
fn member_ids_are_text_where_they_are_utf8() {
    assert_eq!(MemberId::from_str("caf\u{e9}").as_str(), Some("caf\u{e9}"));
    assert_eq!(MemberId::from_bytes(b"101").as_str(), Some("101"));
    assert_eq!(MemberId::from_bytes(&[0xff, 0xfe]).as_str(), None);
    assert_eq!(MemberId::from_bytes(&[0xc3]).as_str(), None);
}

#[test]
fn ballots_are_ordered_by_id_and_member() {
    let low = BallotNumber::new(1, MemberId::from_str("9"));
    let mid = BallotNumber::new(2, MemberId::from_str("2"));
    let high = BallotNumber::new(2, MemberId::from_str("10"));
    assert_eq!(low.compare(&mid), Ordering::Less);
    assert_eq!(mid.compare(&high), Ordering::Less);
    assert_eq!(high.compare(&low), Ordering::Greater);
    assert_eq!(mid.compare(&mid.clone()), Ordering::Equal);
    assert!(low < high);
    assert_eq!(
        MemberId::from_str("2").compare(&MemberId::from_str("10")),
        Ordering::Less
    );
}

#[test]
fn versions_gate_the_fields() {
    assert_eq!(ProtocolVersion::from_wire(0), None);
    assert_eq!(ProtocolVersion::from_wire(7), None);
    for (i, v) in ProtocolVersion::ALL.into_iter().enumerate() {
        let n = i as u16 + 1;
        assert_eq!(v.raw(), n);
        assert_eq!(ProtocolVersion::from_wire(n), Some(v));
        assert_eq!(v.has_primary_cookie(), n >= 2);
        assert_eq!(v.has_configuration_number(), n >= 3);
        assert_eq!(v.has_reconfiguration(), n >= 3);
        assert_eq!(v.has_checkpoint_header(), n >= 3);
        assert_eq!(v.member_id_is_fixed64(), n >= 4);
        assert_eq!(v.member_set_uses_learn_port(), n >= 4);
        assert_eq!(v.has_checkpoint_blocks(), n >= 4);
        assert_eq!(v.has_relinquish_primary(), n >= 5);
        assert_eq!(v.has_payload(), n >= 6);
    }
}

#[test]
fn headers_with_a_bad_front_are_refused() {
    let header = Header::new(
        ProtocolVersion::V6,
        MSG_VOTE_ACCEPTED,
        MemberId::from_str("1"),
        2,
        3,
        BallotNumber::new(4, MemberId::from_str("5")),
        6,
    );
    let bytes = marshal_base(&header);
    assert_eq!(bytes.len() as u32, Header::base_size(ProtocolVersion::V6));
    assert!(verify_checksum(&bytes));
    assert_eq!(&bytes[CHECKSUM_OFFSET + 8..CHECKSUM_OFFSET + 12], &MAGIC.to_le_bytes());
    let back = unmarshal_base(&bytes).unwrap();
    assert_eq!(back.decree, 2);
    assert_eq!(back.payload, 6);

    let mut bad = bytes.clone();
    bad[0] = 9;
    assert!(unmarshal_base(&bad).is_none());
    let mut bad = bytes.clone();
    bad[14] ^= 1;
    assert!(unmarshal_base(&bad).is_none());
    let mut bad = bytes.clone();
    bad[2..6].copy_from_slice(&(bytes.len() as u32 - 1).to_le_bytes());
    assert!(unmarshal_base(&bad).is_none());
    for cut in 0..bytes.len() {
        assert!(unmarshal_base(&bytes[..cut]).is_none());
    }
}
