//! The validated in-memory form of the metadata documents.
use vstd::prelude::*;
use crate::datetime::DateTime;
use crate::description::{MetadataDescription, TargetDescription};
use crate::key::IdentifiedKey;
use crate::order::{is_sorted_keys, is_sorted_strs, collect_unique_entries, collect_unique_strs, has_duplicate_key, has_duplicate_str, has_str, sorted_keys, sorted_strs};

verus! {

/// The keys trusted for a role and how many of them must sign.
pub struct RoleDefinition {
    pub threshold: u32,
    /// Strictly increasing.
    pub key_ids: Vec<String>,
}

impl RoleDefinition {
    pub open spec fn wf(&self) -> bool {
        sorted_strs(self.key_ids@)
    }

    pub fn is_wf(&self) -> (r: bool)
        ensures
            r == self.wf(),
    {
        is_sorted_strs(&self.key_ids)
    }

    /// A role definition over the given key identifiers; `None` where an
    /// identifier repeats.
    pub fn new(threshold: u32, key_ids: Vec<String>) -> (r: Option<Self>)
        ensures
            r is None <==> has_duplicate_str(key_ids@),
            r is Some ==> r->0.wf() && r->0.threshold == threshold && (forall|v: Seq<char>|
                has_str(r->0.key_ids@, v) <==> has_str(key_ids@, v)),
    {
        match collect_unique_strs(key_ids) {
            Ok(ids) => Some(RoleDefinition { threshold, key_ids: ids }),
            Err(_) => None,
        }
    }
}

/// A grant of signing authority over some target paths to a named role.
pub struct Delegation {
    pub name: String,
    pub terminating: bool,
    pub threshold: u32,
    /// Strictly increasing.
    pub key_ids: Vec<String>,
    /// Strictly increasing.
    pub paths: Vec<String>,
}

impl Delegation {
    pub open spec fn wf(&self) -> bool {
        sorted_strs(self.key_ids@) && sorted_strs(self.paths@)
    }

    pub fn is_wf(&self) -> (r: bool)
        ensures
            r == self.wf(),
    {
        is_sorted_strs(&self.key_ids) && is_sorted_strs(&self.paths)
    }

    /// A delegation over the given key identifiers and path patterns; `None`
    /// where either list repeats an entry.
    pub fn new(name: String, terminating: bool, threshold: u32, key_ids: Vec<String>, paths: Vec<String>) -> (r: Option<Self>)
        ensures
            r is None <==> (has_duplicate_str(key_ids@) || has_duplicate_str(paths@)),
            r is Some ==> r->0.wf() && r->0.name == name && r->0.terminating == terminating
                && r->0.threshold == threshold && (forall|v: Seq<char>|
                has_str(r->0.key_ids@, v) <==> has_str(key_ids@, v)) && (forall|v: Seq<char>|
                has_str(r->0.paths@, v) <==> has_str(paths@, v)),
    {
        match collect_unique_strs(key_ids) {
            Ok(ids) => match collect_unique_strs(paths) {
                Ok(ps) => Some(Delegation { name, terminating, threshold, key_ids: ids, paths: ps }),
                Err(_) => None,
            },
            Err(_) => None,
        }
    }
}

/// No two delegations carry the same name.
pub open spec fn names_unique(roles: Seq<Delegation>) -> bool {
    forall|i: int, j: int| 0 <= i < j < roles.len() ==> #[trigger] roles[i].name@ != #[trigger] roles[j].name@
}

/// Whether two of `roles` carry the same name.
pub fn has_duplicate_name(roles: &Vec<Delegation>) -> (r: bool)
    ensures
        r == !names_unique(roles@),
{
    let mut i: usize = 0;
    while i < roles.len()
        invariant
            i <= roles@.len(),
            forall|a: int, b: int| 0 <= a < b < roles@.len() && a < i ==> #[trigger] roles@[a].name@ != #[trigger] roles@[b].name@,
        decreases roles@.len() - i,
    {
        let mut j: usize = i + 1;
        while j < roles.len()
            invariant
                i < roles@.len(),
                i < j <= roles@.len(),
                forall|a: int, b: int| 0 <= a < b < roles@.len() && a < i ==> #[trigger] roles@[a].name@ != #[trigger] roles@[b].name@,
                forall|b: int| i < b < j ==> roles@[i as int].name@ != #[trigger] roles@[b].name@,
            decreases roles@.len() - j,
        {
            if roles[i].name == roles[j].name {
                return true;
            }
            j += 1;
        }
        i += 1;
    }
    false
}

/// The keys that delegations use, and the delegations in search order.
pub struct Delegations {
    /// Keys strictly increase.
    pub keys: Vec<(String, IdentifiedKey)>,
    pub roles: Vec<Delegation>,
}

impl Delegations {
    pub open spec fn wf(&self) -> bool {
        &&& sorted_keys(self.keys@)
        &&& names_unique(self.roles@)
        &&& forall|i: int| 0 <= i < self.roles@.len() ==> (#[trigger] self.roles@[i]).wf()
    }

    pub fn is_wf(&self) -> (r: bool)
        ensures
            r == self.wf(),
    {
        if !is_sorted_keys(&self.keys) || has_duplicate_name(&self.roles) {
            return false;
        }
        let mut i: usize = 0;
        while i < self.roles.len()
            invariant
                i <= self.roles@.len(),
                forall|j: int| 0 <= j < i ==> (#[trigger] self.roles@[j]).wf(),
            decreases self.roles@.len() - i,
        {
            if !self.roles[i].is_wf() {
                return false;
            }
            i += 1;
        }
        true
    }

    /// Delegations over the given key pool; `None` where a key identifier or
    /// a delegation name repeats.
    pub fn new(keys: Vec<(String, IdentifiedKey)>, roles: Vec<Delegation>) -> (r: Option<Self>)
        requires
            forall|i: int| 0 <= i < roles@.len() ==> (#[trigger] roles@[i]).wf(),
        ensures
            r is None <==> (has_duplicate_key(keys@) || !names_unique(roles@)),
            r is Some ==> r->0.wf() && r->0.roles@ == roles@ && (forall|e: (String, IdentifiedKey)|
                r->0.keys@.contains(e) <==> keys@.contains(e)),
    {
        if has_duplicate_name(&roles) {
            return None;
        }
        match collect_unique_entries(keys) {
            Ok(ks) => Some(Delegations { keys: ks, roles }),
            Err(_) => None,
        }
    }

    /// No keys and no delegations.
    pub fn empty() -> (r: Self)
        ensures
            r.wf(),
            r.keys@.len() == 0,
            r.roles@.len() == 0,
    {
        Delegations { keys: Vec::new(), roles: Vec::new() }
    }

    pub fn is_empty(&self) -> (r: bool)
        ensures
            r == (self.keys@.len() == 0 && self.roles@.len() == 0),
    {
        self.keys.len() == 0 && self.roles.len() == 0
    }
}

/// Every key of `keys` is filed under the identifier computed for it.
pub open spec fn keys_match_ids(keys: Seq<(String, IdentifiedKey)>) -> bool {
    forall|i: int| 0 <= i < keys.len() ==> (#[trigger] keys[i]).0@ == keys[i].1.key_id@
}

/// The root of trust: the key pool and which keys each top-level role uses.
pub struct RootMetadata {
    pub version: u32,
    pub expires: DateTime,
    pub consistent_snapshot: bool,
    /// Keys strictly increase.
    pub keys: Vec<(String, IdentifiedKey)>,
    pub root: RoleDefinition,
    pub snapshot: RoleDefinition,
    pub targets: RoleDefinition,
    pub timestamp: RoleDefinition,
}

impl RootMetadata {
    pub open spec fn wf(&self) -> bool {
        &&& self.expires.wf()
        &&& sorted_keys(self.keys@)
        &&& keys_match_ids(self.keys@)
        &&& self.root.wf()
        &&& self.snapshot.wf()
        &&& self.targets.wf()
        &&& self.timestamp.wf()
    }

    pub fn is_wf(&self) -> (r: bool)
        ensures
            r == self.wf(),
    {
        if !self.expires.is_wf() || !is_sorted_keys(&self.keys) {
            return false;
        }
        let mut i: usize = 0;
        while i < self.keys.len()
            invariant
                i <= self.keys@.len(),
                forall|j: int| 0 <= j < i ==> (#[trigger] self.keys@[j]).0@ == self.keys@[j].1.key_id@,
            decreases self.keys@.len() - i,
        {
            if self.keys[i].0 != self.keys[i].1.key_id {
                return false;
            }
            i += 1;
        }
        self.root.is_wf() && self.snapshot.is_wf() && self.targets.is_wf() && self.timestamp.is_wf()
    }
}

/// Points at the current snapshot document.
pub struct TimestampMetadata {
    pub version: u32,
    pub expires: DateTime,
    pub snapshot: MetadataDescription,
}

impl TimestampMetadata {
    pub open spec fn wf(&self) -> bool {
        self.expires.wf() && self.snapshot.wf()
    }

    pub fn is_wf(&self) -> (r: bool)
        ensures
            r == self.wf(),
    {
        self.expires.is_wf() && self.snapshot.is_wf()
    }
}

/// Describes each targets document, by logical path.
pub struct SnapshotMetadata {
    pub version: u32,
    pub expires: DateTime,
    /// Paths strictly increase.
    pub meta: Vec<(String, MetadataDescription)>,
}

impl SnapshotMetadata {
    pub open spec fn wf(&self) -> bool {
        &&& self.expires.wf()
        &&& sorted_keys(self.meta@)
        &&& forall|i: int| 0 <= i < self.meta@.len() ==> (#[trigger] self.meta@[i]).1.wf()
    }

    pub fn is_wf(&self) -> (r: bool)
        ensures
            r == self.wf(),
    {
        if !self.expires.is_wf() || !is_sorted_keys(&self.meta) {
            return false;
        }
        let mut i: usize = 0;
        while i < self.meta.len()
            invariant
                i <= self.meta@.len(),
                forall|j: int| 0 <= j < i ==> (#[trigger] self.meta@[j]).1.wf(),
            decreases self.meta@.len() - i,
        {
            if !self.meta[i].1.is_wf() {
                return false;
            }
            i += 1;
        }
        true
    }
}

/// Describes target files, by path, and delegates trust over paths.
pub struct TargetsMetadata {
    pub version: u32,
    pub expires: DateTime,
    /// Paths strictly increase.
    pub targets: Vec<(String, TargetDescription)>,
    pub delegations: Delegations,
}

impl TargetsMetadata {
    pub open spec fn wf(&self) -> bool {
        &&& self.expires.wf()
        &&& sorted_keys(self.targets@)
        &&& forall|i: int| 0 <= i < self.targets@.len() ==> (#[trigger] self.targets@[i]).1.wf()
        &&& self.delegations.wf()
    }

    pub fn is_wf(&self) -> (r: bool)
        ensures
            r == self.wf(),
    {
        if !self.expires.is_wf() || !is_sorted_keys(&self.targets) || !self.delegations.is_wf() {
            return false;
        }
        let mut i: usize = 0;
        while i < self.targets.len()
            invariant
                i <= self.targets@.len(),
                forall|j: int| 0 <= j < i ==> (#[trigger] self.targets@[j]).1.wf(),
            decreases self.targets@.len() - i,
        {
            if !self.targets[i].1.is_wf() {
                return false;
            }
            i += 1;
        }
        true
    }
}

} // verus!
