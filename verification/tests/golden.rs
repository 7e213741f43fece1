//! Known messages, byte for byte. The records are this crate's own, made for these
//! tests.

use rsl::fprint::{fingerprint, fingerprint_with, POLY};
use rsl::messages::{
    verify_checksum, BootstrapMsg, Header, JoinMessage, MarshalError, Msg, MsgKind,
    PrepareAccepted, PrepareMsg, StatusResponse, Vote, MSG_BOOTSTRAP, MSG_JOIN, MSG_PREPARE,
    MSG_PREPARE_ACCEPTED, MSG_STATUS_RESPONSE, MSG_VOTE, MSG_VOTE_ACCEPTED,
};
use rsl::types::{BallotNumber, MemberId, MemberSet, RslNode};
use rsl::version::ProtocolVersion;

/// A message's kind and version, and its bytes in hexadecimal.
const RECORDS: [(MsgKind, u16, &str); 46] = [
    (MsgKind::Base, 1, "010030000000bc18705562d314f6cefa0df002006500000000000000887766554433221105000000ca00000000000000"),
    (MsgKind::Vote, 1, "01004b000000522ab277afb5f4b3cefa0df001006500000000000000887766554433221105000000ca000000000000000500000066697273740e0000007365636f6e642072657175657374"),
    (MsgKind::Join, 1, "01004a0000002a7c9ad975746959cefa0df00c006500000000000000887766554433221105000000ca000000000000003412010000000000000002000000000000000300000000000000"),
    (MsgKind::Prepare, 1, "0100300000004bf30b5e658265cecefa0df003006500000000000000887766554433221105000000ca00000000000000"),
    (MsgKind::PrepareAccepted, 1, "010065000000496543eb9ae59818cefa0df004006500000000000000887766554433221105000000ca000000000000000100350000000000000000000000cefa0df001006500000000000000887766554433221105000000ca000000000000000100000072"),
    (MsgKind::StatusResponse, 1, "010074000000e41e09f5dcab71e0cefa0df007006500000000000000887766554433221105000000ca000000000000000900000000000000060000002f01000000000000ffffffffffffffff0a000000000000000b000000000000000c0000000000000008000000000000000000000004000000"),
    (MsgKind::Bootstrap, 1, "01006900000063f002fe8e070150cefa0df00e006500000000000000887766554433221105000000ca00000000000000020065000000000000007f000001901f00000600686f73742d61ca000000000000007f010001822300000600686f73742d6203000000636667"),
    (MsgKind::Base, 2, "020030000000bc18705562d314f6cefa0df002006500000000000000887766554433221105000000ca00000000000000"),
    (MsgKind::Vote, 2, "020055000000b874211c768512d8cefa0df001006500000000000000887766554433221105000000ca0000000000000006000000636f6f6b69650500000066697273740e0000007365636f6e642072657175657374"),
    (MsgKind::Join, 2, "02004a0000002a7c9ad975746959cefa0df00c006500000000000000887766554433221105000000ca000000000000003412010000000000000002000000000000000300000000000000"),
    (MsgKind::Prepare, 2, "0200360000007a6894596c697c95cefa0df003006500000000000000887766554433221105000000ca00000000000000020000007063"),
    (MsgKind::PrepareAccepted, 2, "02006a00000034656f291f26038dcefa0df004006500000000000000887766554433221105000000ca0000000000000002003a0000000000000000000000cefa0df001006500000000000000887766554433221105000000ca0000000000000001000000780100000072"),
    (MsgKind::StatusResponse, 2, "020074000000e41e09f5dcab71e0cefa0df007006500000000000000887766554433221105000000ca000000000000000900000000000000060000002f01000000000000ffffffffffffffff0a000000000000000b000000000000000c0000000000000008000000000000000000000004000000"),
    (MsgKind::Bootstrap, 2, "02006900000063f002fe8e070150cefa0df00e006500000000000000887766554433221105000000ca00000000000000020065000000000000007f000001901f00000600686f73742d61ca000000000000007f010001822300000600686f73742d6203000000636667"),
    (MsgKind::Base, 3, "03003400000043c07c341327ed56cefa0df00200650000000000000088776655443322110700000005000000ca00000000000000"),
    (MsgKind::Vote, 3, "03005a000000d35c65c500aece58cefa0df00100650000000000000088776655443322110700000005000000ca0000000000000006000000636f6f6b6965000500000066697273740e0000007365636f6e642072657175657374"),
    (MsgKind::Vote, 3, "03007200000080aa45bb377813bacefa0df00100650000000000000088776655443322110700000005000000ca000000000000000000000001020065000000000000007f000001901f00000600686f73742d61ca000000000000007f010001822300000600686f73742d6203000000636667"),
    (MsgKind::Join, 3, "03004e000000738ff144e285c70dcefa0df00c00650000000000000088776655443322110700000005000000ca000000000000003412010000000000000002000000000000000300000000000000"),
    (MsgKind::Prepare, 3, "03003a000000ecbde2e7c9280a41cefa0df00300650000000000000088776655443322110700000005000000ca00000000000000020000007063"),
    (MsgKind::PrepareAccepted, 3, "0300730000008821f71619c56ddecefa0df00400650000000000000088776655443322110700000005000000ca0000000000000003003f0000000000000000000000cefa0df00100650000000000000088776655443322110700000005000000ca000000000000000100000078000100000072"),
    (MsgKind::StatusResponse, 3, "03007800000041405f3156a8c67ecefa0df00700650000000000000088776655443322110700000005000000ca000000000000000900000000000000060000002f01000000000000ffffffffffffffff0a000000000000000b000000000000000c0000000000000008000000000000000000000004000000"),
    (MsgKind::Bootstrap, 3, "03006d0000009706bbb37b5a3199cefa0df00e00650000000000000088776655443322110700000005000000ca00000000000000020065000000000000007f000001901f00000600686f73742d61ca000000000000007f010001822300000600686f73742d6203000000636667"),
    (MsgKind::Base, 4, "0400a400000092ea7e6c5eddc57ecefa0df00200313031000000000000000000000000000000000000000000000000000000000000000000000000000000000000000000000000000000000000000000000000008877665544332211070000000500000032303200000000000000000000000000000000000000000000000000000000000000000000000000000000000000000000000000000000000000000000000000"),
    (MsgKind::Vote, 4, "0400ca000000f2b984c6ce23e6cdcefa0df0010031303100000000000000000000000000000000000000000000000000000000000000000000000000000000000000000000000000000000000000000000000000887766554433221107000000050000003230320000000000000000000000000000000000000000000000000000000000000000000000000000000000000000000000000000000000000000000000000006000000636f6f6b6965000500000066697273740e0000007365636f6e642072657175657374"),
    (MsgKind::Vote, 4, "0400520100003a401335b1411a44cefa0df0010031303100000000000000000000000000000000000000000000000000000000000000000000000000000000000000000000000000000000000000000000000000887766554433221107000000050000003230320000000000000000000000000000000000000000000000000000000000000000000000000000000000000000000000000000000000000000000000000000000000010200313031000000000000000000000000000000000000000000000000000000000000000000000000000000000000000000000000000000000000000000000000007f000001901f911f0600686f73742d61323032000000000000000000000000000000000000000000000000000000000000000000000000000000000000000000000000000000000000000000000000007f010001822383230600686f73742d6203000000636667"),
    (MsgKind::Join, 4, "0400be0000009458d006f6cf9fadcefa0df00c003130310000000000000000000000000000000000000000000000000000000000000000000000000000000000000000000000000000000000000000000000000088776655443322110700000005000000323032000000000000000000000000000000000000000000000000000000000000000000000000000000000000000000000000000000000000000000000000003412010000000000000002000000000000000300000000000000"),
    (MsgKind::Prepare, 4, "0400aa00000024bae36987c4866acefa0df00300313031000000000000000000000000000000000000000000000000000000000000000000000000000000000000000000000000000000000000000000000000008877665544332211070000000500000032303200000000000000000000000000000000000000000000000000000000000000000000000000000000000000000000000000000000000000000000000000020000007063"),
    (MsgKind::PrepareAccepted, 4, "04005301000045c55065aa4622a2cefa0df004003130310000000000000000000000000000000000000000000000000000000000000000000000000000000000000000000000000000000000000000000000000088776655443322110700000005000000323032000000000000000000000000000000000000000000000000000000000000000000000000000000000000000000000000000000000000000000000000000400af0000000000000000000000cefa0df001003130310000000000000000000000000000000000000000000000000000000000000000000000000000000000000000000000000000000000000000000000000088776655443322110700000005000000323032000000000000000000000000000000000000000000000000000000000000000000000000000000000000000000000000000000000000000000000000000100000078000100000072"),
    (MsgKind::StatusResponse, 4, "0400580100000018ff2190891d9bcefa0df0070031303100000000000000000000000000000000000000000000000000000000000000000000000000000000000000000000000000000000000000000000000000887766554433221107000000050000003230320000000000000000000000000000000000000000000000000000000000000000000000000000000000000000000000000000000000000000000000000009000000000000000600000033303300000000000000000000000000000000000000000000000000000000000000000000000000000000000000000000000000000000000000000000000000ffffffffffffffff0a000000000000000b000000000000000c00000000000000080000000000000000000000000000000000000000000000000000000000000000000000000000000000000000000000000000000000000000000000000000000000000004000000"),
    (MsgKind::Bootstrap, 4, "04004d010000e129963f0b996a4bcefa0df00e003130310000000000000000000000000000000000000000000000000000000000000000000000000000000000000000000000000000000000000000000000000088776655443322110700000005000000323032000000000000000000000000000000000000000000000000000000000000000000000000000000000000000000000000000000000000000000000000000200313031000000000000000000000000000000000000000000000000000000000000000000000000000000000000000000000000000000000000000000000000007f000001901f911f0600686f73742d61323032000000000000000000000000000000000000000000000000000000000000000000000000000000000000000000000000000000000000000000000000007f010001822383230600686f73742d6203000000636667"),
    (MsgKind::Base, 5, "0500a400000092ea7e6c5eddc57ecefa0df00200313031000000000000000000000000000000000000000000000000000000000000000000000000000000000000000000000000000000000000000000000000008877665544332211070000000500000032303200000000000000000000000000000000000000000000000000000000000000000000000000000000000000000000000000000000000000000000000000"),
    (MsgKind::Vote, 5, "0500cb000000f21df4f7bf9cc87acefa0df0010031303100000000000000000000000000000000000000000000000000000000000000000000000000000000000000000000000000000000000000000000000000887766554433221107000000050000003230320000000000000000000000000000000000000000000000000000000000000000000000000000000000000000000000000000000000000000000000000006000000636f6f6b696500010500000066697273740e0000007365636f6e642072657175657374"),
    (MsgKind::Vote, 5, "050053010000eba7234c6a429b4fcefa0df0010031303100000000000000000000000000000000000000000000000000000000000000000000000000000000000000000000000000000000000000000000000000887766554433221107000000050000003230320000000000000000000000000000000000000000000000000000000000000000000000000000000000000000000000000000000000000000000000000000000000010200313031000000000000000000000000000000000000000000000000000000000000000000000000000000000000000000000000000000000000000000000000007f000001901f911f0600686f73742d61323032000000000000000000000000000000000000000000000000000000000000000000000000000000000000000000000000000000000000000000000000007f010001822383230600686f73742d620300000063666700"),
    (MsgKind::Join, 5, "0500be0000009458d006f6cf9fadcefa0df00c003130310000000000000000000000000000000000000000000000000000000000000000000000000000000000000000000000000000000000000000000000000088776655443322110700000005000000323032000000000000000000000000000000000000000000000000000000000000000000000000000000000000000000000000000000000000000000000000003412010000000000000002000000000000000300000000000000"),
    (MsgKind::Prepare, 5, "0500aa00000024bae36987c4866acefa0df00300313031000000000000000000000000000000000000000000000000000000000000000000000000000000000000000000000000000000000000000000000000008877665544332211070000000500000032303200000000000000000000000000000000000000000000000000000000000000000000000000000000000000000000000000000000000000000000000000020000007063"),
    (MsgKind::PrepareAccepted, 5, "050054010000ef89d74ac5b1ebb4cefa0df004003130310000000000000000000000000000000000000000000000000000000000000000000000000000000000000000000000000000000000000000000000000088776655443322110700000005000000323032000000000000000000000000000000000000000000000000000000000000000000000000000000000000000000000000000000000000000000000000000500b00000000000000000000000cefa0df00100313031000000000000000000000000000000000000000000000000000000000000000000000000000000000000000000000000000000000000000000000000008877665544332211070000000500000032303200000000000000000000000000000000000000000000000000000000000000000000000000000000000000000000000000000000000000000000000000010000007800000100000072"),
    (MsgKind::StatusResponse, 5, "0500580100000018ff2190891d9bcefa0df0070031303100000000000000000000000000000000000000000000000000000000000000000000000000000000000000000000000000000000000000000000000000887766554433221107000000050000003230320000000000000000000000000000000000000000000000000000000000000000000000000000000000000000000000000000000000000000000000000009000000000000000600000033303300000000000000000000000000000000000000000000000000000000000000000000000000000000000000000000000000000000000000000000000000ffffffffffffffff0a000000000000000b000000000000000c00000000000000080000000000000000000000000000000000000000000000000000000000000000000000000000000000000000000000000000000000000000000000000000000000000004000000"),
    (MsgKind::Bootstrap, 5, "05004d010000e129963f0b996a4bcefa0df00e003130310000000000000000000000000000000000000000000000000000000000000000000000000000000000000000000000000000000000000000000000000088776655443322110700000005000000323032000000000000000000000000000000000000000000000000000000000000000000000000000000000000000000000000000000000000000000000000000200313031000000000000000000000000000000000000000000000000000000000000000000000000000000000000000000000000000000000000000000000000007f000001901f911f0600686f73742d61323032000000000000000000000000000000000000000000000000000000000000000000000000000000000000000000000000000000000000000000000000007f010001822383230600686f73742d6203000000636667"),
    (MsgKind::Base, 6, "0600ac00000017e0c15dfe893defcefa0df0020031303100000000000000000000000000000000000000000000000000000000000000000000000000000000000000000000000000000000000000000000000000887766554433221107000000050000003230320000000000000000000000000000000000000000000000000000000000000000000000000000000000000000000000000000000000000000000000000000ffeeddccbbaa99"),
    (MsgKind::Vote, 6, "0600d3000000062e088b6df13912cefa0df0010031303100000000000000000000000000000000000000000000000000000000000000000000000000000000000000000000000000000000000000000000000000887766554433221107000000050000003230320000000000000000000000000000000000000000000000000000000000000000000000000000000000000000000000000000000000000000000000000000ffeeddccbbaa9906000000636f6f6b696500010500000066697273740e0000007365636f6e642072657175657374"),
    (MsgKind::Vote, 6, "06005b0100003738ef73326d8f67cefa0df0010031303100000000000000000000000000000000000000000000000000000000000000000000000000000000000000000000000000000000000000000000000000887766554433221107000000050000003230320000000000000000000000000000000000000000000000000000000000000000000000000000000000000000000000000000000000000000000000000000ffeeddccbbaa9900000000010200313031000000000000000000000000000000000000000000000000000000000000000000000000000000000000000000000000000000000000000000000000007f000001901f911f0600686f73742d61323032000000000000000000000000000000000000000000000000000000000000000000000000000000000000000000000000000000000000000000000000007f010001822383230600686f73742d620300000063666700"),
    (MsgKind::Join, 6, "0600c600000055efca30e0bbcd02cefa0df00c0031303100000000000000000000000000000000000000000000000000000000000000000000000000000000000000000000000000000000000000000000000000887766554433221107000000050000003230320000000000000000000000000000000000000000000000000000000000000000000000000000000000000000000000000000000000000000000000000000ffeeddccbbaa993412010000000000000002000000000000000300000000000000"),
    (MsgKind::Prepare, 6, "0600b2000000a654fb6d042593b7cefa0df0030031303100000000000000000000000000000000000000000000000000000000000000000000000000000000000000000000000000000000000000000000000000887766554433221107000000050000003230320000000000000000000000000000000000000000000000000000000000000000000000000000000000000000000000000000000000000000000000000000ffeeddccbbaa99020000007063"),
    (MsgKind::PrepareAccepted, 6, "060064010000824c49edb0d37240cefa0df0040031303100000000000000000000000000000000000000000000000000000000000000000000000000000000000000000000000000000000000000000000000000887766554433221107000000050000003230320000000000000000000000000000000000000000000000000000000000000000000000000000000000000000000000000000000000000000000000000000ffeeddccbbaa990600b80000000000000000000000cefa0df0010031303100000000000000000000000000000000000000000000000000000000000000000000000000000000000000000000000000000000000000000000000000887766554433221107000000050000003230320000000000000000000000000000000000000000000000000000000000000000000000000000000000000000000000000000000000000000000000000000ffeeddccbbaa99010000007800000100000072"),
    (MsgKind::StatusResponse, 6, "060060010000aff0de8a3a4563e1cefa0df0070031303100000000000000000000000000000000000000000000000000000000000000000000000000000000000000000000000000000000000000000000000000887766554433221107000000050000003230320000000000000000000000000000000000000000000000000000000000000000000000000000000000000000000000000000000000000000000000000000ffeeddccbbaa9909000000000000000600000033303300000000000000000000000000000000000000000000000000000000000000000000000000000000000000000000000000000000000000000000000000ffffffffffffffff0a000000000000000b000000000000000c00000000000000080000000000000000000000000000000000000000000000000000000000000000000000000000000000000000000000000000000000000000000000000000000000000004000000"),
    (MsgKind::Bootstrap, 6, "060055010000e6e4f20e0de7b7f6cefa0df00e0031303100000000000000000000000000000000000000000000000000000000000000000000000000000000000000000000000000000000000000000000000000887766554433221107000000050000003230320000000000000000000000000000000000000000000000000000000000000000000000000000000000000000000000000000000000000000000000000000ffeeddccbbaa990200313031000000000000000000000000000000000000000000000000000000000000000000000000000000000000000000000000000000000000000000000000007f000001901f911f0600686f73742d61323032000000000000000000000000000000000000000000000000000000000000000000000000000000000000000000000000000000000000000000000000007f010001822383230600686f73742d6203000000636667"),
];

const FPRINTS: [(&[u8], u64); 7] = [
    (b"", 0xa795_d0f2_9b4d_cdf8),
    (b"a", 0xd62b_afc9_4e21_52f3),
    (b"abc", 0x8472_4f5d_5fed_6f76),
    (b"12345678", 0xc3a5_c271_ccda_176f),
    (b"hello world", 0xfc9e_8cad_fe7d_a061),
    (&[0u8; 16], 0x8826_057c_1fd0_b03f),
    (b"abcabcab", 0x8b8f5e8f3a235b35),
];

fn from_hex(s: &str) -> Vec<u8> {
    (0..s.len())
        .step_by(2)
        .map(|i| u8::from_str_radix(&s[i..i + 2], 16).unwrap())
        .collect()
}

fn load() -> Vec<(MsgKind, u16, Vec<u8>)> {
    RECORDS
        .iter()
        .map(|(kind, version, hex)| (*kind, *version, from_hex(hex)))
        .collect()
}

#[test]
fn corpus_is_present_and_populated() {
    assert_eq!(load().len(), 46);
    assert_eq!(FPRINTS.len(), 7);
}

#[test]
fn all_fingerprints_match() {
    for (input, checksum) in FPRINTS {
        assert_eq!(fingerprint(input), checksum, "{input:?}");
    }
    let ramp: Vec<u8> = (0..=255).collect();
    assert_eq!(fingerprint(&ramp), 0xb901_88ff_122a_bd99);
}

#[test]
fn every_record_round_trips_byte_exact() {
    for (kind, version, bytes) in load() {
        let ctx = format!("{kind:?} / v{version}");
        let msg = Msg::unmarshal(kind, &bytes).unwrap_or_else(|| panic!("{ctx}: no parse"));
        assert_eq!(msg.header().version.raw(), version, "{ctx}: version");
        assert_eq!(msg.header().un_marshal_len as usize, bytes.len(), "{ctx}: length");
        assert!(verify_checksum(&bytes), "{ctx}: checksum");
        assert_eq!(
            msg.header().checksum,
            u64::from_le_bytes(bytes[6..14].try_into().unwrap()),
            "{ctx}: checksum field"
        );
        assert_eq!(msg.marshal_with_checksum(), Ok(bytes), "{ctx}: bytes");
    }
}

fn header(version: u16, msg_id: u16) -> Header {
    Header::new(
        ProtocolVersion::from_wire(version).unwrap(),
        msg_id,
        MemberId::from_str("101"),
        0x1122_3344_5566_7788,
        7,
        BallotNumber::new(5, MemberId::from_str("202")),
        0x99aa_bbcc_ddee_ff00,
    )
}

fn members() -> MemberSet {
    MemberSet {
        members: vec![
            RslNode {
                member_id: MemberId::from_str("101"),
                ip: 0x0100_007f,
                rsl_port: 8080,
                rsl_learn_port: 8081,
                app_port: 0,
                host_name: b"host-a".to_vec(),
            },
            RslNode {
                member_id: MemberId::from_str("202"),
                ip: 0x0100_017f,
                rsl_port: 9090,
                rsl_learn_port: 9091,
                app_port: 0,
                host_name: b"host-b".to_vec(),
            },
        ],
        cookie: b"cfg".to_vec(),
    }
}

fn built(kind: MsgKind, v: u16, reconfiguration: bool) -> Msg {
    match kind {
        MsgKind::Base => Msg::Base(header(v, MSG_VOTE_ACCEPTED)),
        MsgKind::Vote if reconfiguration => Msg::Vote(Vote {
            header: header(v, MSG_VOTE),
            primary_cookie: Vec::new(),
            is_reconfiguration: true,
            members_in_new_configuration: Some(members()),
            relinquish_primary: false,
            requests: Vec::new(),
        }),
        MsgKind::Vote => Msg::Vote(Vote {
            header: header(v, MSG_VOTE),
            primary_cookie: b"cookie".to_vec(),
            is_reconfiguration: false,
            members_in_new_configuration: None,
            relinquish_primary: true,
            requests: vec![b"first".to_vec(), b"second request".to_vec()],
        }),
        MsgKind::Join => Msg::Join(JoinMessage {
            header: header(v, MSG_JOIN),
            learn_port: 0x1234,
            min_decree_in_log: 1,
            checkpointed_decree: 2,
            checkpoint_size: 3,
        }),
        MsgKind::Prepare => Msg::Prepare(PrepareMsg {
            header: header(v, MSG_PREPARE),
            primary_cookie: b"pc".to_vec(),
        }),
        MsgKind::PrepareAccepted => Msg::PrepareAccepted(PrepareAccepted {
            header: header(v, MSG_PREPARE_ACCEPTED),
            vote: Vote {
                header: header(v, MSG_VOTE),
                primary_cookie: b"x".to_vec(),
                is_reconfiguration: false,
                members_in_new_configuration: None,
                relinquish_primary: false,
                requests: vec![b"r".to_vec()],
            },
        }),
        MsgKind::StatusResponse => Msg::StatusResponse(StatusResponse {
            header: header(v, MSG_STATUS_RESPONSE),
            query_decree: 9,
            query_ballot: BallotNumber::new(6, MemberId::from_str("303")),
            last_received_ago: -1,
            min_decree_in_log: 10,
            checkpointed_decree: 11,
            checkpoint_size: 12,
            max_ballot: BallotNumber::new(8, MemberId::empty()),
            state: 4,
        }),
        MsgKind::Bootstrap => Msg::Bootstrap(BootstrapMsg {
            header: header(v, MSG_BOOTSTRAP),
            member_set: members(),
        }),
    }
}

/// The bytes come from the fields alone; no reader is on the path.
#[test]
fn every_record_reconstructs_from_fields() {
    let mut seen_votes = 0;
    for (kind, v, bytes) in load() {
        let mut reconfiguration = false;
        if kind == MsgKind::Vote {
            // Each version's plain vote comes first, then its reconfiguration.
            reconfiguration = seen_votes == v;
            seen_votes = v;
        }
        let msg = built(kind, v, reconfiguration);
        assert_eq!(msg.marshal_with_checksum(), Ok(bytes), "{kind:?} / v{v}");
    }
}

#[test]
fn written_lengths_are_foretold() {
    for v in 1..=6 {
        let Msg::Vote(vote) = built(MsgKind::Vote, v, v >= 3) else {
            panic!("not a vote")
        };
        assert_eq!(
            vote.marshal_len() as usize,
            vote.marshal_with_checksum().unwrap().len()
        );
        let Msg::Join(join) = built(MsgKind::Join, v, false) else {
            panic!("not a join")
        };
        assert_eq!(join.marshal_len() as usize, join.marshal_with_checksum().len());
        let Msg::Prepare(prepare) = built(MsgKind::Prepare, v, false) else {
            panic!("not a prepare")
        };
        assert_eq!(
            prepare.marshal_len() as usize,
            prepare.marshal_with_checksum().len()
        );
        let Msg::PrepareAccepted(accepted) = built(MsgKind::PrepareAccepted, v, false) else {
            panic!("not an accepted prepare")
        };
        assert_eq!(
            accepted.marshal_len() as usize,
            accepted.marshal_with_checksum().unwrap().len()
        );
        let Msg::StatusResponse(status) = built(MsgKind::StatusResponse, v, false) else {
            panic!("not a status")
        };
        assert_eq!(
            status.marshal_len() as usize,
            status.marshal_with_checksum().len()
        );
        let Msg::Bootstrap(bootstrap) = built(MsgKind::Bootstrap, v, false) else {
            panic!("not a bootstrap")
        };
        assert_eq!(
            bootstrap.marshal_len() as usize,
            bootstrap.marshal_with_checksum().len()
        );
    }
}

#[test]
fn lethal_votes_are_refused() {
    let Msg::Vote(mut vote) = built(MsgKind::Vote, 6, true) else {
        panic!("not a vote")
    };
    vote.add_request(b"r".to_vec());
    assert_eq!(
        vote.marshal_with_checksum(),
        Err(MarshalError::ReconfigurationVoteWithRequests)
    );
    assert_eq!(
        MarshalError::ReconfigurationVoteWithRequests.message(),
        "a reconfiguration vote cannot carry requests"
    );
    vote.requests.clear();
    vote.members_in_new_configuration = None;
    let accepted = PrepareAccepted {
        header: header(6, MSG_PREPARE_ACCEPTED),
        vote,
    };
    assert_eq!(
        accepted.marshal_with_checksum(),
        Err(MarshalError::ReconfigurationVoteWithoutMembers)
    );
}

#[test]
fn every_flipped_byte_is_caught() {
    for (_, _, bytes) in load() {
        for i in 0..bytes.len() {
            // The version is read before anything is checked, and no checksum
            // covers it.
            if i < 2 {
                continue;
            }
            let mut bad = bytes.clone();
            bad[i] ^= 0x10;
            assert!(!verify_checksum(&bad), "byte {i}");
        }
        assert!(!verify_checksum(&bytes[..bytes.len() - 1]));
        let mut long = bytes.clone();
        long.push(0);
        assert!(!verify_checksum(&long));
    }
}

#[test]
fn fingerprints_chain() {
    let data = b"the quick brown fox jumps over the lazy dog";
    for cut in 0..=data.len() {
        let first = fingerprint_with(POLY, &data[..cut]);
        assert_eq!(fingerprint_with(first, &data[cut..]), fingerprint(data));
    }
}
