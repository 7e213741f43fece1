//! Pseudo-random input: nothing panics, and what parses is written back alike.

use rsl::messages::{
    verify_checksum, BootstrapMsg, Header, JoinMessage, MarshalError, Msg, MsgKind,
    PrepareAccepted, PrepareMsg, StatusResponse, Vote, MSG_BOOTSTRAP, MSG_JOIN, MSG_PREPARE,
    MSG_PREPARE_ACCEPTED, MSG_STATUS_RESPONSE, MSG_VOTE, MSG_VOTE_ACCEPTED,
};
use rsl::types::{BallotNumber, MemberId, MemberSet, RslNode};
use rsl::version::ProtocolVersion;

const KINDS: [MsgKind; 7] = [
    MsgKind::Base,
    MsgKind::Vote,
    MsgKind::Join,
    MsgKind::Prepare,
    MsgKind::PrepareAccepted,
    MsgKind::StatusResponse,
    MsgKind::Bootstrap,
];

fn check(kind: MsgKind, buf: &[u8]) {
    if let Some(msg) = Msg::unmarshal(kind, buf) {
        let b1 = match msg.marshal_with_checksum() {
            Ok(b) => b,
            Err(MarshalError::ReconfigurationVoteWithRequests) => return,
            Err(e) => panic!("unexpected marshal error from a parsed message: {e:?}"),
        };
        assert!(verify_checksum(&b1));
        let msg2 = Msg::unmarshal(kind, &b1).expect("re-parse of own output failed");
        let b2 = msg2.marshal_with_checksum().expect("re-marshal failed");
        assert_eq!(b1, b2, "not idempotent under marshal/parse");
    }
}

struct Rng(u64);

impl Rng {
    fn next(&mut self) -> u64 {
        let mut x = self.0;
        x ^= x >> 12;
        x ^= x << 25;
        x ^= x >> 27;
        self.0 = x;
        x.wrapping_mul(0x2545_f491_4f6c_dd1d)
    }

    fn byte(&mut self) -> u8 {
        (self.next() & 0xff) as u8
    }

    fn below(&mut self, n: u64) -> u64 {
        self.next() % n
    }

    fn bytes(&mut self, max: u64) -> Vec<u8> {
        let len = self.below(max);
        (0..len).map(|_| self.byte()).collect()
    }

    fn member_id(&mut self) -> MemberId {
        if self.below(7) == 0 {
            MemberId::empty()
        } else {
            MemberId::from_str(&self.next().to_string())
        }
    }

    fn ballot(&mut self) -> BallotNumber {
        let id = self.next() as u32;
        BallotNumber::new(id, self.member_id())
    }

    fn header(&mut self, version: ProtocolVersion, msg_id: u16) -> Header {
        let member = self.member_id();
        let decree = self.next();
        let configuration = self.next() as u32;
        let ballot = self.ballot();
        let payload = self.next();
        Header::new(version, msg_id, member, decree, configuration, ballot, payload)
    }

    fn member_set(&mut self) -> MemberSet {
        let n = self.below(4);
        let members = (0..n)
            .map(|_| RslNode {
                member_id: self.member_id(),
                ip: self.next() as u32,
                rsl_port: self.next() as u16,
                rsl_learn_port: self.next() as u16,
                app_port: self.next() as u16,
                host_name: self.bytes(40),
            })
            .collect();
        MemberSet {
            members,
            cookie: self.bytes(32),
        }
    }

    fn vote(&mut self, version: ProtocolVersion) -> Vote {
        let reconfiguration = version.has_reconfiguration() && self.below(2) == 0;
        let header = self.header(version, MSG_VOTE);
        let primary_cookie = self.bytes(24);
        let members = if reconfiguration {
            Some(self.member_set())
        } else {
            None
        };
        let mut requests = Vec::new();
        if !reconfiguration {
            for _ in 0..self.below(4) {
                let mut request = self.bytes(39);
                request.push(1);
                requests.push(request);
            }
        }
        Vote {
            header,
            primary_cookie,
            is_reconfiguration: reconfiguration,
            members_in_new_configuration: members,
            relinquish_primary: self.below(2) == 0,
            requests,
        }
    }

    fn message(&mut self) -> (MsgKind, Msg) {
        let v = ProtocolVersion::from_wire(1 + self.below(6) as u16).unwrap();
        match self.below(7) {
            0 => (MsgKind::Base, Msg::Base(self.header(v, MSG_VOTE_ACCEPTED))),
            1 => (MsgKind::Vote, Msg::Vote(self.vote(v))),
            2 => (
                MsgKind::Join,
                Msg::Join(JoinMessage {
                    header: self.header(v, MSG_JOIN),
                    learn_port: self.next() as u16,
                    min_decree_in_log: self.next(),
                    checkpointed_decree: self.next(),
                    checkpoint_size: self.next(),
                }),
            ),
            3 => (
                MsgKind::Prepare,
                Msg::Prepare(PrepareMsg {
                    header: self.header(v, MSG_PREPARE),
                    primary_cookie: self.bytes(24),
                }),
            ),
            4 => (
                MsgKind::PrepareAccepted,
                Msg::PrepareAccepted(PrepareAccepted {
                    header: self.header(v, MSG_PREPARE_ACCEPTED),
                    vote: self.vote(v),
                }),
            ),
            5 => (
                MsgKind::StatusResponse,
                Msg::StatusResponse(StatusResponse {
                    header: self.header(v, MSG_STATUS_RESPONSE),
                    query_decree: self.next(),
                    query_ballot: self.ballot(),
                    last_received_ago: self.next() as i64,
                    min_decree_in_log: self.next(),
                    checkpointed_decree: self.next(),
                    checkpoint_size: self.next(),
                    max_ballot: self.ballot(),
                    state: self.next() as u32,
                }),
            ),
            _ => (
                MsgKind::Bootstrap,
                Msg::Bootstrap(BootstrapMsg {
                    header: self.header(v, MSG_BOOTSTRAP),
                    member_set: self.member_set(),
                }),
            ),
        }
    }
}

#[test]
fn random_bytes_never_panic_and_reparse_is_idempotent() {
    let mut rng = Rng(0x9e37_79b9_7f4a_7c15);
    for _ in 0..80_000 {
        let len = (rng.next() % 200) as usize;
        let buf: Vec<u8> = (0..len).map(|_| rng.byte()).collect();
        for &kind in &KINDS {
            check(kind, &buf);
        }
    }
}

#[test]
fn corpus_mutations_never_panic() {
    let mut source = Rng(0x0f1e_2d3c_4b5a_6978);
    let mut rng = Rng(0x1234_5678_9abc_def0);
    for _ in 0..122 {
        let (_, msg) = source.message();
        let bytes = msg.marshal_with_checksum().unwrap();
        for &kind in &KINDS {
            check(kind, &bytes);
        }
        for _ in 0..200 {
            let mut buf = bytes.clone();
            let flips = 1 + (rng.next() % 4) as usize;
            for _ in 0..flips {
                let idx = (rng.next() as usize) % buf.len();
                buf[idx] ^= rng.byte();
            }
            if rng.next() % 4 == 0 {
                let keep = (rng.next() as usize) % (buf.len() + 1);
                buf.truncate(keep);
            }
            for &kind in &KINDS {
                check(kind, &buf);
            }
        }
    }
}

#[test]
fn arbitrary_messages_reach_a_byte_fixpoint() {
    let mut rng = Rng(0x5eed_5eed_5eed_5eed);
    for _ in 0..2000 {
        let (kind, msg) = rng.message();
        let b0 = msg.marshal_with_checksum().expect("valid message failed to marshal");
        let parsed = Msg::unmarshal(kind, &b0).expect("marshaled message failed to parse");
        assert!(verify_checksum(&b0));
        let b1 = parsed.marshal_with_checksum().expect("re-marshal failed");
        assert_eq!(b0, b1);
    }
}
