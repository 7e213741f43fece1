//! Protocol versions, and which fields each of them puts on the wire.
//!
//! Every version-dependent branch of the encoders and decoders goes through the
//! predicates of this module, so the field rules live in one place.

use vstd::prelude::*;

verus! {

/// A protocol version, a little-endian `u16` on the wire.
///
/// Six versions exist, `1` to `6`. [`ProtocolVersion::from_wire`] admits those
/// and nothing else.
#[derive(Clone, Copy, PartialEq, Eq, Structural, PartialOrd, Ord, Debug, Hash)]
pub enum ProtocolVersion {
    /// First protocol version.
    V1,
    /// Adds a primary cookie to the message body.
    V2,
    /// Adds replica-set management: configuration numbers and member sets.
    V3,
    /// Adds checkpoint checksums, bootstrap, and 64-byte member ids.
    V4,
    /// Adds the flag by which a vote gives up the primary role.
    V5,
    /// Adds a payload to votes from secondaries.
    V6,
}

impl ProtocolVersion {
    /// Every valid version, in ascending order.
    pub const ALL: [ProtocolVersion; 6] = [
        ProtocolVersion::V1,
        ProtocolVersion::V2,
        ProtocolVersion::V3,
        ProtocolVersion::V4,
        ProtocolVersion::V5,
        ProtocolVersion::V6,
    ];

    /// The number that stands for the version on the wire.
    pub open spec fn num(self) -> u16 {
        match self {
            ProtocolVersion::V1 => 1,
            ProtocolVersion::V2 => 2,
            ProtocolVersion::V3 => 3,
            ProtocolVersion::V4 => 4,
            ProtocolVersion::V5 => 5,
            ProtocolVersion::V6 => 6,
        }
    }

    /// The version that `raw` stands for, if there is one.
    pub open spec fn of_wire(raw: u16) -> Option<ProtocolVersion> {
        if raw == 1 {
            Some(ProtocolVersion::V1)
        } else if raw == 2 {
            Some(ProtocolVersion::V2)
        } else if raw == 3 {
            Some(ProtocolVersion::V3)
        } else if raw == 4 {
            Some(ProtocolVersion::V4)
        } else if raw == 5 {
            Some(ProtocolVersion::V5)
        } else if raw == 6 {
            Some(ProtocolVersion::V6)
        } else {
            None
        }
    }

    /// Parses a version off the wire, rejecting unknown values.
    pub fn from_wire(raw: u16) -> (r: Option<ProtocolVersion>)
        ensures
            r == Self::of_wire(raw),
            r is Some <==> 1 <= raw <= 6,
            r is Some ==> r->Some_0.num() == raw,
    {
        match raw {
            1 => Some(ProtocolVersion::V1),
            2 => Some(ProtocolVersion::V2),
            3 => Some(ProtocolVersion::V3),
            4 => Some(ProtocolVersion::V4),
            5 => Some(ProtocolVersion::V5),
            6 => Some(ProtocolVersion::V6),
            _ => None,
        }
    }

    /// The raw `u16` as it stands on the wire.
    pub fn raw(self) -> (r: u16)
        ensures
            r == self.num(),
            1 <= r <= 6,
            Self::of_wire(r) == Some(self),
    {
        match self {
            ProtocolVersion::V1 => 1,
            ProtocolVersion::V2 => 2,
            ProtocolVersion::V3 => 3,
            ProtocolVersion::V4 => 4,
            ProtocolVersion::V5 => 5,
            ProtocolVersion::V6 => 6,
        }
    }

    /// From version 4 on a member id is a fixed 64-byte field, before that a
    /// `u64`.
    pub fn member_id_is_fixed64(self) -> (r: bool)
        ensures
            r == (self.num() > 3),
    {
        self.raw() > 3
    }

    /// The configuration number is present from version 3 on.
    pub fn has_configuration_number(self) -> (r: bool)
        ensures
            r == (self.num() >= 3),
    {
        self.raw() >= 3
    }

    /// Messages carry a payload from version 6 on.
    pub fn has_payload(self) -> (r: bool)
        ensures
            r == (self.num() >= 6),
    {
        self.raw() >= 6
    }

    /// Votes and prepares carry the primary cookie from version 2 on.
    pub fn has_primary_cookie(self) -> (r: bool)
        ensures
            r == (self.num() >= 2),
    {
        self.raw() >= 2
    }

    /// Votes carry the reconfiguration byte and member set from version 3 on.
    pub fn has_reconfiguration(self) -> (r: bool)
        ensures
            r == (self.num() >= 3),
    {
        self.raw() >= 3
    }

    /// Votes carry the byte by which the primary steps down from version 5 on.
    pub fn has_relinquish_primary(self) -> (r: bool)
        ensures
            r == (self.num() >= 5),
    {
        self.raw() >= 5
    }

    /// A checkpoint header has fields of its own from version 3 on. Before that
    /// a checkpoint file is a bare page-rounded vote.
    pub fn has_checkpoint_header(self) -> (r: bool)
        ensures
            r == (self.num() >= 3),
    {
        self.raw() >= 3
    }

    /// From version 4 on a checkpoint header carries the saved flag, the file
    /// size and the block size, and the user state is a stream of checksummed
    /// blocks.
    pub fn has_checkpoint_blocks(self) -> (r: bool)
        ensures
            r == (self.num() >= 4),
    {
        self.raw() >= 4
    }

    /// A member set carries each node's learn port from version 4 on, and its
    /// application port before that.
    pub fn member_set_uses_learn_port(self) -> (r: bool)
        ensures
            r == (self.num() > 3),
    {
        self.raw() > 3
    }
}

/// A version and its number stand for each other, on the wire and back.
pub proof fn law_version_round_trips(v: ProtocolVersion, raw: u16)
    ensures
        ProtocolVersion::of_wire(v.num()) == Some(v),
        ProtocolVersion::of_wire(raw) is Some ==> ProtocolVersion::of_wire(raw)->Some_0.num()
            == raw,
        ProtocolVersion::of_wire(raw) is Some <==> 1 <= raw <= 6,
{
}

/// The versions are listed in the order of their numbers, which start at one and
/// leave none out.
pub proof fn law_versions_are_counted_from_one(i: int)
    requires
        0 <= i < 6,
    ensures
        ProtocolVersion::ALL@[i].num() == i + 1,
        ProtocolVersion::of_wire((i + 1) as u16) == Some(ProtocolVersion::ALL@[i]),
{
}

} // verus!
