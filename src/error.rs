//! The ways a document can fail to decode.
use vstd::prelude::*;

verus! {

/// A role of the trust hierarchy, as named by a document's `_type` tag.
#[derive(Clone, Copy, Debug, PartialEq, Eq, Structural)]
pub enum Role {
    Root,
    Snapshot,
    Targets,
    Timestamp,
}

impl Role {
    /// The tag that names this role on the wire.
    pub fn tag(&self) -> (r: &'static str)
        ensures
            r@ == self.spec_tag(),
    {
        proof {
            reveal_strlit("root");
            reveal_strlit("snapshot");
            reveal_strlit("targets");
            reveal_strlit("timestamp");
        }
        match self {
            Role::Root => "root",
            Role::Snapshot => "snapshot",
            Role::Targets => "targets",
            Role::Timestamp => "timestamp",
        }
    }

    pub open spec fn spec_tag(&self) -> Seq<char> {
        match self {
            Role::Root => "root"@,
            Role::Snapshot => "snapshot"@,
            Role::Targets => "targets"@,
            Role::Timestamp => "timestamp"@,
        }
    }
}

/// A decode failure.
#[derive(Debug)]
pub enum Error {
    /// The `_type` tag names another role than the one being decoded.
    WrongRole { expected: Role, found: Role },
    /// The `spec_version` is not one this codec accepts.
    UnknownSpecVersion { version: String },
    /// A map of the encoding holds the same key twice.
    DuplicateKey { key: String },
    /// A role definition lists the same key identifier twice.
    DuplicateRoleKeyId { role: Role, key_id: String },
    /// A delegation lists the same key identifier twice.
    NonUniqueDelegationKeyIds,
    /// A delegation lists the same path pattern twice.
    NonUniqueDelegationPaths,
    /// Two delegations carry the same role name.
    NonUniqueDelegationNames,
    /// The `expires` text is not a conformant timestamp.
    MalformedTimestamp { text: String },
    /// A snapshot `meta` key lacks the `.json` suffix.
    MalformedSnapshotPath { path: String },
}

} // verus!
