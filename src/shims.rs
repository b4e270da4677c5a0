//! The wire form of each document and the codecs between it and the
//! validated in-memory form. Encoding is a pure projection that orders every
//! list; decoding checks the role tag, the protocol version and the expiry,
//! then rejects repeated map keys, key identifiers and path patterns.
use vstd::prelude::*;
use crate::datetime::{canonical_text, fields_of, format_datetime, is_malformed_timestamp, parse_datetime, rfc3339_utc, year_of};
use crate::description::{MetadataDescription, TargetDescription};
use crate::error::{Error, Role};
use crate::key::IdentifiedKey;
use crate::metadata;
use crate::order::{first_repeat_key, first_repeat_str, find_repeated_key, has_key, insert_entry, collect_unique_entries, collect_unique_strs, has_duplicate_key, has_duplicate_str, has_str, sorted_keys, sorted_strs, str_less, str_lt, lemma_str_lt_irreflexive, lemma_str_lt_transitive, lemma_str_lt_total, lemma_str_lt_asymmetric, lemma_sorted_strs_no_duplicate, lemma_sorted_keys_no_duplicate, lemma_sorted_strs_unique};
use crate::version::{is_valid_spec_version, valid_spec_version, SPEC_VERSION};

verus! {

// ---------------------------------------------------------------- errors

/// `e` reports the unaccepted protocol version `v`.
pub open spec fn is_unknown_version(e: Error, v: Seq<char>) -> bool {
    match e {
        Error::UnknownSpecVersion { version } => version@ == v,
        _ => false,
    }
}

/// `e` reports the first key of `entries` that repeats an earlier one.
pub open spec fn is_duplicate_key<V>(e: Error, entries: Seq<(String, V)>) -> bool {
    match e {
        Error::DuplicateKey { key } => exists|j: int| first_repeat_key(entries, j) && #[trigger] entries[j].0@ == key@,
        _ => false,
    }
}

/// `e` reports, for `role`, the first key identifier of `ids` that repeats
/// an earlier one.
pub open spec fn is_duplicate_role_key_id(e: Error, role: Role, ids: Seq<String>) -> bool {
    match e {
        Error::DuplicateRoleKeyId { role: found, key_id } => found == role && exists|j: int|
            first_repeat_str(ids, j) && #[trigger] ids[j]@ == key_id@,
        _ => false,
    }
}

/// The expiry text is a timestamp this codec reads.
pub open spec fn expires_ok(s: Seq<char>) -> bool {
    rfc3339_utc(s) is Some && 0 <= year_of(rfc3339_utc(s)) <= 9999
}

/// The envelope checks, in order: the role tag, the protocol version, the
/// expiry. Holds where all pass.
pub open spec fn envelope_ok(typ: Role, expected: Role, spec_version: Seq<char>, expires: Seq<char>) -> bool {
    typ == expected && is_valid_spec_version(spec_version) && expires_ok(expires)
}

/// The outcome of a decode on a failed envelope: the first check that fails
/// is the one reported.
pub open spec fn envelope_failure<T>(
    r: Result<T, Error>,
    typ: Role,
    expected: Role,
    spec_version: Seq<char>,
    expires: Seq<char>,
) -> bool {
    &&& typ != expected ==> r is Err && r->Err_0 == (Error::WrongRole { expected, found: typ })
    &&& typ == expected && !is_valid_spec_version(spec_version) ==> r is Err && is_unknown_version(r->Err_0, spec_version)
    &&& typ == expected && is_valid_spec_version(spec_version) && !expires_ok(expires) ==> r is Err
        && is_malformed_timestamp(r->Err_0, expires)
}

/// Runs the envelope checks; on success returns the parsed expiry.
fn check_envelope(typ: Role, expected: Role, spec_version: &String, expires: &String) -> (r: Result<crate::datetime::DateTime, Error>)
    ensures
        envelope_failure(r, typ, expected, spec_version@, expires@),
        r is Ok <==> envelope_ok(typ, expected, spec_version@, expires@),
        r is Ok ==> r->Ok_0.wf() && fields_of(r->Ok_0) == rfc3339_utc(expires@)->0,
        forall|t: crate::datetime::DateTime|
            t.wf() && expires@ == canonical_text(fields_of(t)) ==> expires_ok(expires@) && (r is Ok ==> r->Ok_0 == t),
{
    let parsed = parse_datetime(expires.as_str());
    if typ != expected {
        return Err(Error::WrongRole { expected, found: typ });
    }
    if !valid_spec_version(spec_version.as_str()) {
        return Err(Error::UnknownSpecVersion { version: spec_version.clone() });
    }
    parsed
}

/// Decodes a map from its entries in the order the encoding holds them,
/// failing on a repeated key rather than letting the last entry win. The
/// entries come out in increasing order of key.
pub fn deserialize<V>(entries: Vec<(String, V)>) -> (r: Result<Vec<(String, V)>, Error>)
    ensures
        r is Err <==> has_duplicate_key(entries@),
        r is Err ==> is_duplicate_key(r->Err_0, entries@),
        r is Ok ==> sorted_keys(r->Ok_0@) && r->Ok_0@.len() == entries@.len() && (forall|e: (String, V)|
            r->Ok_0@.contains(e) <==> entries@.contains(e)),
        sorted_keys(entries@) ==> r is Ok && r->Ok_0@ == entries@,
{
    match collect_unique_entries(entries) {
        Ok(m) => Ok(m),
        Err(key) => Err(Error::DuplicateKey { key }),
    }
}

// ---------------------------------------------------------------- descriptions

/// The outcome of checking the maps of a target description: repeated hash
/// algorithms are reported before repeated custom field names.
pub open spec fn target_description_check(d: TargetDescription, r: Result<(), Error>) -> bool {
    &&& r is Ok <==> d.wf()
    &&& has_duplicate_key(d.hashes@) ==> r is Err && is_duplicate_key(r->Err_0, d.hashes@)
    &&& !has_duplicate_key(d.hashes@) && has_duplicate_key(d.custom@) ==> r is Err && is_duplicate_key(
        r->Err_0,
        d.custom@,
    )
}

/// The outcome of checking the hash map of a metadata description.
pub open spec fn metadata_description_check(d: MetadataDescription, r: Result<(), Error>) -> bool {
    &&& r is Ok <==> d.wf()
    &&& !d.wf() ==> r is Err && is_duplicate_key(r->Err_0, d.hashes@)
}

/// The first key of `entries` that repeats, as a decode failure.
fn check_unique_keys<V>(entries: &Vec<(String, V)>) -> (r: Result<(), Error>)
    ensures
        r is Ok <==> !has_duplicate_key(entries@),
        r is Err ==> is_duplicate_key(r->Err_0, entries@),
{
    match find_repeated_key(entries) {
        Some(j) => Err(Error::DuplicateKey { key: entries[j].0.clone() }),
        None => Ok(()),
    }
}

/// Checks that no map of a target description repeats a key.
pub fn check_target_description(d: &TargetDescription) -> (r: Result<(), Error>)
    ensures
        target_description_check(*d, r),
{
    match check_unique_keys(&d.hashes) {
        Ok(()) => check_unique_keys(&d.custom),
        Err(e) => Err(e),
    }
}

/// Checks that the hash map of a metadata description repeats no algorithm.
pub fn check_metadata_description(d: &MetadataDescription) -> (r: Result<(), Error>)
    ensures
        metadata_description_check(*d, r),
{
    check_unique_keys(&d.hashes)
}

/// Every description among `entries` is well formed.
pub open spec fn target_descriptions_ok(entries: Seq<(String, TargetDescription)>) -> bool {
    forall|i: int| 0 <= i < entries.len() ==> (#[trigger] entries[i]).1.wf()
}

/// Every description among `entries` is well formed.
pub open spec fn metadata_descriptions_ok(entries: Seq<(String, MetadataDescription)>) -> bool {
    forall|i: int| 0 <= i < entries.len() ==> (#[trigger] entries[i]).1.wf()
}

/// Checks the target descriptions in order; fails as the first ill-formed
/// one does.
fn check_target_descriptions(entries: &Vec<(String, TargetDescription)>) -> (r: Result<(), Error>)
    ensures
        r is Ok <==> target_descriptions_ok(entries@),
        r is Err ==> exists|i: int|
            0 <= i < entries@.len() && !(#[trigger] entries@[i]).1.wf() && (forall|j: int|
                0 <= j < i ==> (#[trigger] entries@[j]).1.wf()) && target_description_check(entries@[i].1, r),
{
    let mut i: usize = 0;
    while i < entries.len()
        invariant
            i <= entries@.len(),
            forall|j: int| 0 <= j < i ==> (#[trigger] entries@[j]).1.wf(),
        decreases entries@.len() - i,
    {
        let r = check_target_description(&entries[i].1);
        if r.is_err() {
            return r;
        }
        i += 1;
    }
    Ok(())
}

/// Checks the metadata descriptions in order; fails as the first ill-formed
/// one does.
fn check_metadata_descriptions(entries: &Vec<(String, MetadataDescription)>) -> (r: Result<(), Error>)
    ensures
        r is Ok <==> metadata_descriptions_ok(entries@),
        r is Err ==> exists|i: int|
            0 <= i < entries@.len() && !(#[trigger] entries@[i]).1.wf() && (forall|j: int|
                0 <= j < i ==> (#[trigger] entries@[j]).1.wf()) && metadata_description_check(entries@[i].1, r),
{
    let mut i: usize = 0;
    while i < entries.len()
        invariant
            i <= entries@.len(),
            forall|j: int| 0 <= j < i ==> (#[trigger] entries@[j]).1.wf(),
        decreases entries@.len() - i,
    {
        let r = check_metadata_description(&entries[i].1);
        if r.is_err() {
            return r;
        }
        i += 1;
    }
    Ok(())
}

// ---------------------------------------------------------------- role definitions

/// The wire form of a role definition: `{threshold, keyids}`.
pub struct RoleDefinition {
    pub threshold: u32,
    pub key_ids: Vec<String>,
}

/// The wire form that encoding gives `m`.
pub open spec fn encode_role(m: metadata::RoleDefinition) -> RoleDefinition {
    RoleDefinition { threshold: m.threshold, key_ids: m.key_ids }
}

/// `m` is what `w` decodes to: the same threshold and key identifiers, in
/// increasing order; a list already in that order is kept as it is.
pub open spec fn role_decoded(m: metadata::RoleDefinition, w: RoleDefinition) -> bool {
    &&& m.wf()
    &&& m.threshold == w.threshold
    &&& forall|v: Seq<char>| has_str(m.key_ids@, v) <==> has_str(w.key_ids@, v)
    &&& sorted_strs(w.key_ids@) ==> m.key_ids@ == w.key_ids@
}

/// The outcome of decoding `w` as the definition of `role`.
pub open spec fn role_decode_spec(w: RoleDefinition, role: Role, r: Result<metadata::RoleDefinition, Error>) -> bool {
    &&& r is Err <==> has_duplicate_str(w.key_ids@)
    &&& r is Err ==> is_duplicate_role_key_id(r->Err_0, role, w.key_ids@)
    &&& r is Ok ==> role_decoded(r->Ok_0, w)
}

impl RoleDefinition {
    /// Encodes a role definition; its key identifiers come out in increasing
    /// order.
    pub fn from(role: metadata::RoleDefinition) -> (r: Self)
        requires
            role.wf(),
        ensures
            r == encode_role(role),
            sorted_strs(r.key_ids@),
    {
        RoleDefinition { threshold: role.threshold, key_ids: role.key_ids }
    }

    /// Decodes the definition of `role`, failing on a repeated key identifier.
    pub fn try_into(self, role: Role) -> (r: Result<metadata::RoleDefinition, Error>)
        ensures
            role_decode_spec(self, role, r),
    {
        match collect_unique_strs(self.key_ids) {
            Ok(ids) => Ok(metadata::RoleDefinition { threshold: self.threshold, key_ids: ids }),
            Err(key_id) => Err(Error::DuplicateRoleKeyId { role, key_id }),
        }
    }
}

/// The four top-level role definitions of a root document.
pub struct RoleDefinitions {
    pub root: RoleDefinition,
    pub snapshot: RoleDefinition,
    pub targets: RoleDefinition,
    pub timestamp: RoleDefinition,
}

/// Keeps the keys filed under the identifier computed from their material.
/// Older roots carry keys under identifiers of an earlier scheme; those are
/// dropped, not refused, so that such roots still decode.
fn keep_matching_keys(keys: Vec<(String, IdentifiedKey)>) -> (r: Vec<(String, IdentifiedKey)>)
    ensures
        metadata::keys_match_ids(r@),
        forall|e: (String, IdentifiedKey)| r@.contains(e) <==> (keys@.contains(e) && e.0@ == e.1.key_id@),
        sorted_keys(keys@) ==> sorted_keys(r@),
        metadata::keys_match_ids(keys@) ==> r@ == keys@,
{
    let ghost orig = keys@;
    let mut rest = keys;
    let mut out: Vec<(String, IdentifiedKey)> = Vec::new();
    let n = rest.len();
    let mut i: usize = 0;
    while rest.len() > 0
        invariant
            i + rest@.len() == n,
            n == orig.len(),
            orig == keys@,
            rest@ == orig.skip(i as int),
            metadata::keys_match_ids(out@),
            forall|e: (String, IdentifiedKey)| out@.contains(e) <==> (orig.take(i as int).contains(e) && e.0@ == e.1.key_id@),
            sorted_keys(orig) ==> sorted_keys(out@),
            sorted_keys(orig) ==> forall|a: int, b: int|
                0 <= a < out@.len() && i <= b < n ==> str_lt(#[trigger] out@[a].0@, #[trigger] orig[b].0@),
            metadata::keys_match_ids(orig) ==> out@ == orig.take(i as int),
        decreases rest@.len(),
    {
        let e = rest.remove(0);
        assert(e == orig[i as int]);
        let ghost prev = out@;
        let ghost t0 = orig.take(i as int);
        let ghost t1 = orig.take(i + 1);
        assert(t1 =~= t0.push(e));
        if e.0 == e.1.key_id {
            out.push(e);
            proof {
                assert forall|x: (String, IdentifiedKey)| out@.contains(x) <==> (t1.contains(x) && x.0@ == x.1.key_id@) by {
                    if out@.contains(x) {
                        let q = choose|q: int| 0 <= q < out@.len() && out@[q] == x;
                        if q < prev.len() {
                            assert(prev[q] == x);
                            assert(prev.contains(x));
                            let m = choose|m: int| 0 <= m < t0.len() && t0[m] == x;
                            assert(t1[m] == x);
                        } else {
                            assert(t1[i as int] == x);
                        }
                    }
                    if t1.contains(x) && x.0@ == x.1.key_id@ {
                        let m = choose|m: int| 0 <= m < t1.len() && t1[m] == x;
                        if m < i {
                            assert(t0[m] == x);
                            assert(t0.contains(x));
                            assert(prev.contains(x) <==> (t0.contains(x) && x.0@ == x.1.key_id@));
                            let q = choose|q: int| 0 <= q < prev.len() && prev[q] == x;
                            assert(out@[q] == x);
                        } else {
                            assert(out@[prev.len() as int] == x);
                        }
                    }
                }
                if sorted_keys(orig) {
                    assert forall|a: int, b: int| 0 <= a < out@.len() && i + 1 <= b < n implies str_lt(
                        #[trigger] out@[a].0@,
                        #[trigger] orig[b].0@,
                    ) by {
                        if a == prev.len() {
                            assert(out@[a] == orig[i as int]);
                        } else {
                            assert(out@[a] == prev[a]);
                        }
                    }
                    assert forall|a: int, b: int| 0 <= a < b < out@.len() implies str_lt(
                        #[trigger] out@[a].0@,
                        #[trigger] out@[b].0@,
                    ) by {
                        if b == prev.len() {
                            assert(out@[b] == orig[i as int]);
                            assert(out@[a] == prev[a]);
                        } else {
                            assert(out@[a] == prev[a]);
                            assert(out@[b] == prev[b]);
                        }
                    }
                }
                if metadata::keys_match_ids(orig) {
                    assert(out@ =~= t1);
                }
            }
        } else {
            proof {
                assert forall|x: (String, IdentifiedKey)| out@.contains(x) <==> (t1.contains(x) && x.0@ == x.1.key_id@) by {
                    if out@.contains(x) {
                        assert(t0.contains(x));
                        let m = choose|m: int| 0 <= m < t0.len() && t0[m] == x;
                        assert(t1[m] == x);
                    }
                    if t1.contains(x) && x.0@ == x.1.key_id@ {
                        let m = choose|m: int| 0 <= m < t1.len() && t1[m] == x;
                        if m < i {
                            assert(t0[m] == x);
                            assert(t0.contains(x));
                        }
                    }
                }
                assert(metadata::keys_match_ids(orig) ==> orig[i as int].0@ == orig[i as int].1.key_id@);
            }
        }
        i += 1;
    }
    assert(orig.take(n as int) =~= orig);
    out
}

// ---------------------------------------------------------------- root

/// The wire form of root metadata.
pub struct RootMetadata {
    pub typ: Role,
    pub spec_version: String,
    pub version: u32,
    pub consistent_snapshot: bool,
    pub expires: String,
    pub keys: Vec<(String, IdentifiedKey)>,
    pub roles: RoleDefinitions,
}

/// `w` is what encoding gives `m`.
pub open spec fn root_encoded(w: RootMetadata, m: metadata::RootMetadata) -> bool {
    &&& w.typ == Role::Root
    &&& w.spec_version@ == "1.0"@
    &&& w.version == m.version
    &&& w.consistent_snapshot == m.consistent_snapshot
    &&& w.expires@ == canonical_text(fields_of(m.expires))
    &&& w.keys == m.keys
    &&& w.roles.root == encode_role(m.root)
    &&& w.roles.snapshot == encode_role(m.snapshot)
    &&& w.roles.targets == encode_role(m.targets)
    &&& w.roles.timestamp == encode_role(m.timestamp)
}

/// Every check that decoding a root document makes passes.
pub open spec fn root_checks_pass(w: RootMetadata) -> bool {
    &&& envelope_ok(w.typ, Role::Root, w.spec_version@, w.expires@)
    &&& !has_duplicate_key(w.keys@)
    &&& !has_duplicate_str(w.roles.root.key_ids@)
    &&& !has_duplicate_str(w.roles.snapshot.key_ids@)
    &&& !has_duplicate_str(w.roles.targets.key_ids@)
    &&& !has_duplicate_str(w.roles.timestamp.key_ids@)
}

/// `m` is what `w` decodes to. Keys filed under an identifier other than
/// the one computed for them are left out.
pub open spec fn root_decoded(m: metadata::RootMetadata, w: RootMetadata) -> bool {
    &&& m.wf()
    &&& m.version == w.version
    &&& m.consistent_snapshot == w.consistent_snapshot
    &&& fields_of(m.expires) == rfc3339_utc(w.expires@)->0
    &&& forall|t: crate::datetime::DateTime| t.wf() && w.expires@ == canonical_text(fields_of(t)) ==> m.expires == t
    &&& forall|e: (String, IdentifiedKey)| m.keys@.contains(e) <==> (w.keys@.contains(e) && e.0@ == e.1.key_id@)
    &&& sorted_keys(w.keys@) && metadata::keys_match_ids(w.keys@) ==> m.keys@ == w.keys@
    &&& role_decoded(m.root, w.roles.root)
    &&& role_decoded(m.snapshot, w.roles.snapshot)
    &&& role_decoded(m.targets, w.roles.targets)
    &&& role_decoded(m.timestamp, w.roles.timestamp)
}

/// The outcome of decoding the root document `w`: the envelope first, then
/// the key pool, then the four role definitions in order.
pub open spec fn root_decode_spec(w: RootMetadata, r: Result<metadata::RootMetadata, Error>) -> bool {
    let env = envelope_ok(w.typ, Role::Root, w.spec_version@, w.expires@);
    let keys_ok = env && !has_duplicate_key(w.keys@);
    let root_ok = keys_ok && !has_duplicate_str(w.roles.root.key_ids@);
    let snapshot_ok = root_ok && !has_duplicate_str(w.roles.snapshot.key_ids@);
    let targets_ok = snapshot_ok && !has_duplicate_str(w.roles.targets.key_ids@);
    &&& envelope_failure(r, w.typ, Role::Root, w.spec_version@, w.expires@)
    &&& forall|t: crate::datetime::DateTime| t.wf() && w.expires@ == canonical_text(fields_of(t)) ==> expires_ok(w.expires@)
    &&& env && has_duplicate_key(w.keys@) ==> r is Err && is_duplicate_key(r->Err_0, w.keys@)
    &&& keys_ok && has_duplicate_str(w.roles.root.key_ids@) ==> r is Err
        && is_duplicate_role_key_id(r->Err_0, Role::Root, w.roles.root.key_ids@)
    &&& root_ok && has_duplicate_str(w.roles.snapshot.key_ids@) ==> r is Err
        && is_duplicate_role_key_id(r->Err_0, Role::Snapshot, w.roles.snapshot.key_ids@)
    &&& snapshot_ok && has_duplicate_str(w.roles.targets.key_ids@) ==> r is Err
        && is_duplicate_role_key_id(r->Err_0, Role::Targets, w.roles.targets.key_ids@)
    &&& targets_ok && has_duplicate_str(w.roles.timestamp.key_ids@) ==> r is Err
        && is_duplicate_role_key_id(r->Err_0, Role::Timestamp, w.roles.timestamp.key_ids@)
    &&& r is Ok <==> root_checks_pass(w)
    &&& r is Ok ==> root_decoded(r->Ok_0, w)
}

impl RootMetadata {
    /// Encodes root metadata.
    pub fn from(meta: metadata::RootMetadata) -> (r: Self)
        requires
            meta.wf(),
        ensures
            root_encoded(r, meta),
    {
        proof {
            reveal_strlit("1.0");
        }
        let metadata::RootMetadata { version, expires, consistent_snapshot, keys, root, snapshot, targets, timestamp } = meta;
        RootMetadata {
            typ: Role::Root,
            spec_version: SPEC_VERSION.to_owned(),
            version,
            expires: format_datetime(&expires),
            consistent_snapshot,
            keys,
            roles: RoleDefinitions {
                root: RoleDefinition::from(root),
                snapshot: RoleDefinition::from(snapshot),
                targets: RoleDefinition::from(targets),
                timestamp: RoleDefinition::from(timestamp),
            },
        }
    }

    /// Decodes root metadata.
    pub fn try_into(self) -> (r: Result<metadata::RootMetadata, Error>)
        ensures
            root_decode_spec(self, r),
    {
        let RootMetadata { typ, spec_version, version, consistent_snapshot, expires, keys, roles } = self;
        let expires = match check_envelope(typ, Role::Root, &spec_version, &expires) {
            Ok(t) => t,
            Err(e) => return Err(e),
        };
        let keys = match deserialize(keys) {
            Ok(k) => k,
            Err(e) => return Err(e),
        };
        let RoleDefinitions { root, snapshot, targets, timestamp } = roles;
        let root = match root.try_into(Role::Root) {
            Ok(d) => d,
            Err(e) => return Err(e),
        };
        let snapshot = match snapshot.try_into(Role::Snapshot) {
            Ok(d) => d,
            Err(e) => return Err(e),
        };
        let targets = match targets.try_into(Role::Targets) {
            Ok(d) => d,
            Err(e) => return Err(e),
        };
        let timestamp = match timestamp.try_into(Role::Timestamp) {
            Ok(d) => d,
            Err(e) => return Err(e),
        };
        let keys = keep_matching_keys(keys);
        Ok(metadata::RootMetadata { version, expires, consistent_snapshot, keys, root, snapshot, targets, timestamp })
    }
}

/// Two role definitions with the same threshold and key identifiers.
pub open spec fn same_role(a: metadata::RoleDefinition, b: metadata::RoleDefinition) -> bool {
    a.threshold == b.threshold && a.key_ids@ == b.key_ids@
}

/// Two root documents with the same contents.
pub open spec fn same_root(a: metadata::RootMetadata, b: metadata::RootMetadata) -> bool {
    &&& a.version == b.version
    &&& a.expires == b.expires
    &&& a.consistent_snapshot == b.consistent_snapshot
    &&& a.keys@ == b.keys@
    &&& same_role(a.root, b.root)
    &&& same_role(a.snapshot, b.snapshot)
    &&& same_role(a.targets, b.targets)
    &&& same_role(a.timestamp, b.timestamp)
}

proof fn lemma_role_round_trip(m: metadata::RoleDefinition, d: metadata::RoleDefinition)
    requires
        m.wf(),
        role_decoded(d, encode_role(m)),
    ensures
        same_role(d, m),
{
}

/// Decoding the encoding of valid root metadata succeeds and gives back the
/// same contents.
pub proof fn lemma_root_round_trip(m: metadata::RootMetadata, w: RootMetadata, r: Result<metadata::RootMetadata, Error>)
    requires
        m.wf(),
        root_encoded(w, m),
        root_decode_spec(w, r),
    ensures
        r is Ok,
        same_root(r->Ok_0, m),
{
    reveal_strlit("1.0");
    assert(is_valid_spec_version(w.spec_version@));
    assert(expires_ok(w.expires@));
    lemma_sorted_keys_no_duplicate(w.keys@);
    lemma_sorted_strs_no_duplicate(m.root.key_ids@);
    lemma_sorted_strs_no_duplicate(m.snapshot.key_ids@);
    lemma_sorted_strs_no_duplicate(m.targets.key_ids@);
    lemma_sorted_strs_no_duplicate(m.timestamp.key_ids@);
    let d = r->Ok_0;
    lemma_role_round_trip(m.root, d.root);
    lemma_role_round_trip(m.snapshot, d.snapshot);
    lemma_role_round_trip(m.targets, d.targets);
    lemma_role_round_trip(m.timestamp, d.timestamp);
}

/// Encoding is canonical: encoding, decoding and encoding again gives the
/// same wire form as the first encoding.
pub proof fn lemma_root_canonical(
    m: metadata::RootMetadata,
    w: RootMetadata,
    r: Result<metadata::RootMetadata, Error>,
    w2: RootMetadata,
)
    requires
        m.wf(),
        root_encoded(w, m),
        root_decode_spec(w, r),
        r is Ok ==> root_encoded(w2, r->Ok_0),
    ensures
        r is Ok,
        w2.typ == w.typ,
        w2.spec_version@ == w.spec_version@,
        w2.version == w.version,
        w2.consistent_snapshot == w.consistent_snapshot,
        w2.expires@ == w.expires@,
        w2.keys@ == w.keys@,
        w2.roles.root.threshold == w.roles.root.threshold && w2.roles.root.key_ids@ == w.roles.root.key_ids@,
        w2.roles.snapshot.threshold == w.roles.snapshot.threshold && w2.roles.snapshot.key_ids@ == w.roles.snapshot.key_ids@,
        w2.roles.targets.threshold == w.roles.targets.threshold && w2.roles.targets.key_ids@ == w.roles.targets.key_ids@,
        w2.roles.timestamp.threshold == w.roles.timestamp.threshold && w2.roles.timestamp.key_ids@ == w.roles.timestamp.key_ids@,
{
    lemma_root_round_trip(m, w, r);
}

// ---------------------------------------------------------------- timestamp

/// The single member of a timestamp document's `meta`: `snapshot.json`.
pub struct TimestampMeta {
    pub snapshot: MetadataDescription,
}

/// The wire form of timestamp metadata.
pub struct TimestampMetadata {
    pub typ: Role,
    pub spec_version: String,
    pub version: u32,
    pub expires: String,
    pub meta: TimestampMeta,
}

/// `w` is what encoding gives `m`.
pub open spec fn timestamp_encoded(w: TimestampMetadata, m: metadata::TimestampMetadata) -> bool {
    &&& w.typ == Role::Timestamp
    &&& w.spec_version@ == "1.0"@
    &&& w.version == m.version
    &&& w.expires@ == canonical_text(fields_of(m.expires))
    &&& w.meta.snapshot == m.snapshot
}

/// The outcome of decoding the timestamp document `w`: the envelope first,
/// then the hashes of the snapshot description.
pub open spec fn timestamp_decode_spec(w: TimestampMetadata, r: Result<metadata::TimestampMetadata, Error>) -> bool {
    &&& envelope_failure(r, w.typ, Role::Timestamp, w.spec_version@, w.expires@)
    &&& forall|t: crate::datetime::DateTime| t.wf() && w.expires@ == canonical_text(fields_of(t)) ==> expires_ok(w.expires@)
    &&& envelope_ok(w.typ, Role::Timestamp, w.spec_version@, w.expires@) && !w.meta.snapshot.wf() ==> r is Err
        && is_duplicate_key(r->Err_0, w.meta.snapshot.hashes@)
    &&& r is Ok <==> (envelope_ok(w.typ, Role::Timestamp, w.spec_version@, w.expires@) && w.meta.snapshot.wf())
    &&& r is Ok ==> {
        let m = r->Ok_0;
        &&& m.wf()
        &&& m.version == w.version
        &&& fields_of(m.expires) == rfc3339_utc(w.expires@)->0
        &&& forall|t: crate::datetime::DateTime| t.wf() && w.expires@ == canonical_text(fields_of(t)) ==> m.expires == t
        &&& m.snapshot == w.meta.snapshot
    }
}

impl TimestampMetadata {
    /// Encodes timestamp metadata.
    pub fn from(metadata: metadata::TimestampMetadata) -> (r: Self)
        requires
            metadata.wf(),
        ensures
            timestamp_encoded(r, metadata),
    {
        proof {
            reveal_strlit("1.0");
        }
        let metadata::TimestampMetadata { version, expires, snapshot } = metadata;
        TimestampMetadata {
            typ: Role::Timestamp,
            spec_version: SPEC_VERSION.to_owned(),
            version,
            expires: format_datetime(&expires),
            meta: TimestampMeta { snapshot },
        }
    }

    /// Decodes timestamp metadata.
    pub fn try_into(self) -> (r: Result<metadata::TimestampMetadata, Error>)
        ensures
            timestamp_decode_spec(self, r),
    {
        let TimestampMetadata { typ, spec_version, version, expires, meta } = self;
        let expires = match check_envelope(typ, Role::Timestamp, &spec_version, &expires) {
            Ok(t) => t,
            Err(e) => return Err(e),
        };
        match check_metadata_description(&meta.snapshot) {
            Ok(()) => Ok(metadata::TimestampMetadata { version, expires, snapshot: meta.snapshot }),
            Err(e) => Err(e),
        }
    }
}

/// Decoding the encoding of valid timestamp metadata succeeds and gives back
/// the same contents.
pub proof fn lemma_timestamp_round_trip(
    m: metadata::TimestampMetadata,
    w: TimestampMetadata,
    r: Result<metadata::TimestampMetadata, Error>,
)
    requires
        m.wf(),
        timestamp_encoded(w, m),
        timestamp_decode_spec(w, r),
    ensures
        r is Ok,
        r->Ok_0.version == m.version,
        r->Ok_0.expires == m.expires,
        r->Ok_0.snapshot == m.snapshot,
{
    reveal_strlit("1.0");
    assert(is_valid_spec_version(w.spec_version@));
    assert(expires_ok(w.expires@));
}

// ---------------------------------------------------------------- delegations

/// The wire form of a delegation.
pub struct Delegation {
    pub name: String,
    pub terminating: bool,
    pub threshold: u32,
    pub key_ids: Vec<String>,
    pub paths: Vec<String>,
}

/// The wire form that encoding gives `m`.
pub open spec fn encode_delegation(m: metadata::Delegation) -> Delegation {
    Delegation { name: m.name, terminating: m.terminating, threshold: m.threshold, key_ids: m.key_ids, paths: m.paths }
}

/// `m` is what `w` decodes to.
pub open spec fn delegation_decoded(m: metadata::Delegation, w: Delegation) -> bool {
    &&& m.wf()
    &&& m.name == w.name
    &&& m.terminating == w.terminating
    &&& m.threshold == w.threshold
    &&& forall|v: Seq<char>| has_str(m.key_ids@, v) <==> has_str(w.key_ids@, v)
    &&& forall|v: Seq<char>| has_str(m.paths@, v) <==> has_str(w.paths@, v)
    &&& sorted_strs(w.key_ids@) ==> m.key_ids@ == w.key_ids@
    &&& sorted_strs(w.paths@) ==> m.paths@ == w.paths@
}

/// Every check that decoding a delegation makes passes.
pub open spec fn delegation_checks_pass(w: Delegation) -> bool {
    !has_duplicate_str(w.key_ids@) && !has_duplicate_str(w.paths@)
}

/// The outcome of decoding the delegation `w`: repeated key identifiers are
/// reported before repeated paths.
pub open spec fn delegation_decode_spec(w: Delegation, r: Result<metadata::Delegation, Error>) -> bool {
    &&& has_duplicate_str(w.key_ids@) ==> r is Err && r->Err_0 is NonUniqueDelegationKeyIds
    &&& !has_duplicate_str(w.key_ids@) && has_duplicate_str(w.paths@) ==> r is Err && r->Err_0 is NonUniqueDelegationPaths
    &&& r is Ok <==> delegation_checks_pass(w)
    &&& r is Ok ==> delegation_decoded(r->Ok_0, w)
}

impl Delegation {
    /// Encodes a delegation; its key identifiers and paths come out in
    /// increasing order.
    pub fn from(delegation: metadata::Delegation) -> (r: Self)
        requires
            delegation.wf(),
        ensures
            r == encode_delegation(delegation),
            sorted_strs(r.key_ids@),
            sorted_strs(r.paths@),
    {
        let metadata::Delegation { name, terminating, threshold, key_ids, paths } = delegation;
        Delegation { name, terminating, threshold, key_ids, paths }
    }

    /// Decodes a delegation, failing on a repeated key identifier or path.
    pub fn try_into(self) -> (r: Result<metadata::Delegation, Error>)
        ensures
            delegation_decode_spec(self, r),
    {
        let Delegation { name, terminating, threshold, key_ids, paths } = self;
        let key_ids = match collect_unique_strs(key_ids) {
            Ok(k) => k,
            Err(_) => return Err(Error::NonUniqueDelegationKeyIds),
        };
        let paths = match collect_unique_strs(paths) {
            Ok(p) => p,
            Err(_) => return Err(Error::NonUniqueDelegationPaths),
        };
        Ok(metadata::Delegation { name, terminating, threshold, key_ids, paths })
    }
}

/// The names of `roles` strictly increase.
pub open spec fn names_sorted(roles: Seq<Delegation>) -> bool {
    forall|i: int, j: int| 0 <= i < j < roles.len() ==> str_lt(#[trigger] roles[i].name@, #[trigger] roles[j].name@)
}

/// Inserts `d` into `roles`, whose names strictly increase, at the place its
/// name takes. No delegation of `roles` may carry that name.
fn insert_by_name(roles: &mut Vec<Delegation>, d: Delegation)
    requires
        names_sorted(old(roles)@),
        forall|i: int| 0 <= i < old(roles)@.len() ==> (#[trigger] old(roles)@[i]).name@ != d.name@,
    ensures
        names_sorted(final(roles)@),
        exists|p: int| 0 <= p <= old(roles)@.len() && final(roles)@ == old(roles)@.insert(p, d),
{
    let mut p: usize = 0;
    while p < roles.len() && str_less(roles[p].name.as_str(), d.name.as_str())
        invariant
            p <= roles@.len(),
            names_sorted(roles@),
            forall|i: int| 0 <= i < p ==> str_lt(#[trigger] roles@[i].name@, d.name@),
            forall|i: int| 0 <= i < roles@.len() ==> (#[trigger] roles@[i]).name@ != d.name@,
        decreases roles@.len() - p,
    {
        p += 1;
    }
    proof {
        assert forall|i: int| p <= i < roles@.len() implies str_lt(d.name@, #[trigger] roles@[i].name@) by {
            lemma_str_lt_total(roles@[p as int].name@, d.name@);
            if i > p {
                lemma_str_lt_transitive(d.name@, roles@[p as int].name@, roles@[i].name@);
            }
        }
    }
    let ghost prev = roles@;
    let ghost dn = d.name@;
    roles.insert(p, d);
    proof {
        assert forall|i: int, j: int| 0 <= i < j < roles@.len() implies str_lt(
            #[trigger] roles@[i].name@,
            #[trigger] roles@[j].name@,
        ) by {
            if i < p && j > p {
                lemma_str_lt_transitive(prev[i].name@, dn, prev[j - 1].name@);
            }
        }
    }
}

/// The wire form of a delegation tree: the key pool and the delegations.
pub struct Delegations {
    pub keys: Vec<(String, IdentifiedKey)>,
    pub roles: Vec<Delegation>,
}

/// The wire forms of `roles`, in the same order.
pub open spec fn encode_roles(roles: Seq<metadata::Delegation>) -> Seq<Delegation> {
    roles.map_values(|d: metadata::Delegation| encode_delegation(d))
}

/// `w` is what encoding gives `m`: the delegations come out sorted by name.
pub open spec fn delegations_encoded(w: Delegations, m: metadata::Delegations) -> bool {
    &&& w.keys == m.keys
    &&& names_sorted(w.roles@)
    &&& w.roles@.len() == m.roles@.len()
    &&& forall|x: Delegation| w.roles@.contains(x) <==> encode_roles(m.roles@).contains(x)
}

/// Every check that decoding a delegation tree makes passes.
pub open spec fn delegations_checks_pass(w: Delegations) -> bool {
    &&& !has_duplicate_key(w.keys@)
    &&& forall|i: int| 0 <= i < w.roles@.len() ==> delegation_checks_pass(#[trigger] w.roles@[i])
    &&& wire_names_unique(w.roles@)
}

/// No two wire delegations carry the same name.
pub open spec fn wire_names_unique(roles: Seq<Delegation>) -> bool {
    forall|i: int, j: int| 0 <= i < j < roles.len() ==> #[trigger] roles[i].name@ != #[trigger] roles[j].name@
}

/// The outcome of decoding the delegation tree `w`: the key pool first,
/// then each delegation in order, then the uniqueness of names. The order of
/// the delegations is kept.
pub open spec fn delegations_decode_spec(w: Delegations, r: Result<metadata::Delegations, Error>) -> bool {
    let keys_ok = !has_duplicate_key(w.keys@);
    let roles_ok = forall|i: int| 0 <= i < w.roles@.len() ==> delegation_checks_pass(#[trigger] w.roles@[i]);
    &&& has_duplicate_key(w.keys@) ==> r is Err && is_duplicate_key(r->Err_0, w.keys@)
    &&& keys_ok && !roles_ok ==> r is Err && exists|i: int|
        0 <= i < w.roles@.len() && !delegation_checks_pass(#[trigger] w.roles@[i]) && (forall|j: int|
            0 <= j < i ==> delegation_checks_pass(#[trigger] w.roles@[j])) && delegation_decode_spec(
            w.roles@[i],
            Err(r->Err_0),
        )
    &&& keys_ok && roles_ok && !wire_names_unique(w.roles@) ==> r is Err && r->Err_0 is NonUniqueDelegationNames
    &&& r is Ok <==> delegations_checks_pass(w)
    &&& r is Ok ==> {
        let m = r->Ok_0;
        &&& m.wf()
        &&& forall|e: (String, IdentifiedKey)| m.keys@.contains(e) <==> w.keys@.contains(e)
        &&& sorted_keys(w.keys@) ==> m.keys@ == w.keys@
        &&& m.roles@.len() == w.roles@.len()
        &&& forall|i: int| 0 <= i < w.roles@.len() ==> delegation_decoded(#[trigger] m.roles@[i], w.roles@[i])
    }
}

/// Two lists sorted by strictly increasing name that hold the same
/// delegations are the same list.
pub proof fn lemma_names_sorted_unique(a: Seq<Delegation>, b: Seq<Delegation>)
    requires
        names_sorted(a),
        names_sorted(b),
        forall|x: Delegation| a.contains(x) <==> b.contains(x),
    ensures
        a == b,
    decreases a.len(),
{
    if a.len() == 0 {
        if b.len() > 0 {
            assert(b.contains(b[0]));
        }
        assert(a =~= b);
    } else {
        assert(a.contains(a[0]));
        let j = choose|j: int| 0 <= j < b.len() && b[j] == a[0];
        assert(b.contains(b[0]));
        let k = choose|k: int| 0 <= k < a.len() && a[k] == b[0];
        if j > 0 {
            if k > 0 {
                lemma_str_lt_asymmetric(a[0].name@, b[0].name@);
            } else {
                lemma_str_lt_irreflexive(b[0].name@);
            }
        }
        let ta = a.drop_first();
        let tb = b.drop_first();
        assert forall|x: Delegation| ta.contains(x) <==> tb.contains(x) by {
            if ta.contains(x) {
                let m = choose|m: int| 0 <= m < ta.len() && ta[m] == x;
                assert(a[m + 1] == x);
                assert(a.contains(x));
                let q = choose|q: int| 0 <= q < b.len() && b[q] == x;
                if q == 0 {
                    lemma_str_lt_irreflexive(a[0].name@);
                }
                assert(tb[q - 1] == x);
            }
            if tb.contains(x) {
                let m = choose|m: int| 0 <= m < tb.len() && tb[m] == x;
                assert(b[m + 1] == x);
                assert(b.contains(x));
                let q = choose|q: int| 0 <= q < a.len() && a[q] == x;
                if q == 0 {
                    lemma_str_lt_irreflexive(b[0].name@);
                }
                assert(ta[q - 1] == x);
            }
        }
        lemma_names_sorted_unique(ta, tb);
        assert(a =~= seq![a[0]] + ta);
        assert(b =~= seq![b[0]] + tb);
    }
}

impl Delegations {
    /// Encodes a delegation tree; the delegations come out sorted by name.
    pub fn from(delegations: metadata::Delegations) -> (r: Self)
        requires
            delegations.wf(),
        ensures
            delegations_encoded(r, delegations),
    {
        let metadata::Delegations { keys, roles } = delegations;
        let ghost orig = roles@;
        let mut rest = roles;
        let mut out: Vec<Delegation> = Vec::new();
        let n = rest.len();
        let mut i: usize = 0;
        while rest.len() > 0
            invariant
                i + rest@.len() == n,
                n == orig.len(),
                rest@ == orig.skip(i as int),
                metadata::names_unique(orig),
                forall|j: int| 0 <= j < orig.len() ==> (#[trigger] orig[j]).wf(),
                names_sorted(out@),
                out@.len() == i,
                forall|x: Delegation| out@.contains(x) <==> encode_roles(orig.take(i as int)).contains(x),
            decreases rest@.len(),
        {
            let d = rest.remove(0);
            assert(d == orig[i as int]);
            let ghost prev = out@;
            let ghost e = encode_delegation(d);
            let ghost t0 = encode_roles(orig.take(i as int));
            let ghost t1 = encode_roles(orig.take(i + 1));
            assert(t1 =~= t0.push(e));
            proof {
                assert forall|q: int| 0 <= q < prev.len() implies (#[trigger] prev[q]).name@ != e.name@ by {
                    assert(prev.contains(prev[q]));
                    assert(t0.contains(prev[q]));
                    let m = choose|m: int| 0 <= m < t0.len() && t0[m] == prev[q];
                    assert(t0[m] == encode_delegation(orig[m]));
                }
            }
            let w = Delegation::from(d);
            insert_by_name(&mut out, w);
            proof {
                let p = choose|p: int| 0 <= p <= prev.len() && out@ == prev.insert(p, e);
                assert forall|x: Delegation| out@.contains(x) <==> t1.contains(x) by {
                    crate::order::lemma_insert_contains(prev, p, e, x);
                    crate::order::lemma_insert_contains(t0, t0.len() as int, e, x);
                    assert(t0.insert(t0.len() as int, e) =~= t1);
                    assert(prev.contains(x) <==> t0.contains(x));
                }
            }
            i += 1;
        }
        assert(orig.take(n as int) =~= orig);
        Delegations { keys, roles: out }
    }

    /// Decodes a delegation tree, keeping the order of the delegations.
    pub fn try_into(self) -> (r: Result<metadata::Delegations, Error>)
        ensures
            delegations_decode_spec(self, r),
    {
        let Delegations { keys, roles } = self;
        let keys = match deserialize(keys) {
            Ok(k) => k,
            Err(e) => return Err(e),
        };
        let ghost orig = roles@;
        let mut rest = roles;
        let mut out: Vec<metadata::Delegation> = Vec::new();
        let n = rest.len();
        let mut i: usize = 0;
        while rest.len() > 0
            invariant
                i + rest@.len() == n,
                n == orig.len(),
                rest@ == orig.skip(i as int),
                out@.len() == i,
                orig == self.roles@,
                !has_duplicate_key(self.keys@),
                forall|j: int| 0 <= j < i ==> delegation_checks_pass(#[trigger] orig[j]),
                forall|j: int| 0 <= j < i ==> delegation_decoded(#[trigger] out@[j], orig[j]),
            decreases rest@.len(),
        {
            let w = rest.remove(0);
            assert(w == orig[i as int]);
            match w.try_into() {
                Ok(d) => out.push(d),
                Err(e) => {
                    assert(!delegation_checks_pass(orig[i as int]));
                    assert(delegation_decode_spec(orig[i as int], Err(e)));
                    return Err(e);
                },
            }
            i += 1;
        }
        if metadata::has_duplicate_name(&out) {
            proof {
                let (a, b) = choose|a: int, b: int| 0 <= a < b < out@.len() && #[trigger] out@[a].name@ == #[trigger] out@[b].name@;
                assert(orig[a].name@ == orig[b].name@);
            }
            return Err(Error::NonUniqueDelegationNames);
        }
        proof {
            assert forall|a: int, b: int| 0 <= a < b < orig.len() implies #[trigger] orig[a].name@ != #[trigger] orig[b].name@ by {
                assert(out@[a].name@ != out@[b].name@);
            }
        }
        Ok(metadata::Delegations { keys, roles: out })
    }
}

/// Encoding a delegation tree does not depend on the order of its
/// delegations: two trees with the same key pool and the same delegations
/// in any order encode alike.
pub proof fn lemma_delegations_order_independent(
    m1: metadata::Delegations,
    m2: metadata::Delegations,
    w1: Delegations,
    w2: Delegations,
)
    requires
        m1.wf(),
        m2.wf(),
        m1.keys == m2.keys,
        forall|d: metadata::Delegation| m1.roles@.contains(d) <==> m2.roles@.contains(d),
        delegations_encoded(w1, m1),
        delegations_encoded(w2, m2),
    ensures
        w1.keys == w2.keys,
        w1.roles@ == w2.roles@,
{
    assert forall|x: Delegation| w1.roles@.contains(x) <==> w2.roles@.contains(x) by {
        if encode_roles(m1.roles@).contains(x) {
            let j = choose|j: int| 0 <= j < m1.roles@.len() && encode_roles(m1.roles@)[j] == x;
            assert(m1.roles@.contains(m1.roles@[j]));
            let k = choose|k: int| 0 <= k < m2.roles@.len() && m2.roles@[k] == m1.roles@[j];
            assert(encode_roles(m2.roles@)[k] == x);
        }
        if encode_roles(m2.roles@).contains(x) {
            let j = choose|j: int| 0 <= j < m2.roles@.len() && encode_roles(m2.roles@)[j] == x;
            assert(m2.roles@.contains(m2.roles@[j]));
            let k = choose|k: int| 0 <= k < m1.roles@.len() && m1.roles@[k] == m2.roles@[j];
            assert(encode_roles(m1.roles@)[k] == x);
        }
    }
    lemma_names_sorted_unique(w1.roles@, w2.roles@);
}

// ---------------------------------------------------------------- targets

/// The wire form of targets metadata. An empty delegation tree is left out
/// of the encoded text and read back as empty.
pub struct TargetsMetadata {
    pub typ: Role,
    pub spec_version: String,
    pub version: u32,
    pub expires: String,
    pub targets: Vec<(String, TargetDescription)>,
    pub delegations: Delegations,
}

/// `w` is what encoding gives `m`.
pub open spec fn targets_encoded(w: TargetsMetadata, m: metadata::TargetsMetadata) -> bool {
    &&& w.typ == Role::Targets
    &&& w.spec_version@ == "1.0"@
    &&& w.version == m.version
    &&& w.expires@ == canonical_text(fields_of(m.expires))
    &&& w.targets == m.targets
    &&& delegations_encoded(w.delegations, m.delegations)
}

/// The outcome of decoding the targets document `w`: the envelope first,
/// then the maps of each target description in order, then the target map,
/// then the delegation tree.
pub open spec fn targets_decode_spec(w: TargetsMetadata, r: Result<metadata::TargetsMetadata, Error>) -> bool {
    let env = envelope_ok(w.typ, Role::Targets, w.spec_version@, w.expires@);
    &&& envelope_failure(r, w.typ, Role::Targets, w.spec_version@, w.expires@)
    &&& forall|t: crate::datetime::DateTime| t.wf() && w.expires@ == canonical_text(fields_of(t)) ==> expires_ok(w.expires@)
    &&& env && !target_descriptions_ok(w.targets@) ==> r is Err && exists|i: int|
        0 <= i < w.targets@.len() && !(#[trigger] w.targets@[i]).1.wf() && (forall|j: int|
            0 <= j < i ==> (#[trigger] w.targets@[j]).1.wf()) && target_description_check(w.targets@[i].1, Err(r->Err_0))
    &&& env && target_descriptions_ok(w.targets@) && has_duplicate_key(w.targets@) ==> r is Err
        && is_duplicate_key(r->Err_0, w.targets@)
    &&& env && target_descriptions_ok(w.targets@) && !has_duplicate_key(w.targets@) && !delegations_checks_pass(
        w.delegations,
    ) ==> r is Err && delegations_decode_spec(w.delegations, Err(r->Err_0))
    &&& r is Ok <==> (env && target_descriptions_ok(w.targets@) && !has_duplicate_key(w.targets@)
        && delegations_checks_pass(w.delegations))
    &&& r is Ok ==> {
        let m = r->Ok_0;
        &&& m.wf()
        &&& m.version == w.version
        &&& fields_of(m.expires) == rfc3339_utc(w.expires@)->0
        &&& forall|t: crate::datetime::DateTime| t.wf() && w.expires@ == canonical_text(fields_of(t)) ==> m.expires == t
        &&& forall|e: (String, TargetDescription)| m.targets@.contains(e) <==> w.targets@.contains(e)
        &&& sorted_keys(w.targets@) ==> m.targets@ == w.targets@
        &&& delegations_decode_spec(w.delegations, Ok(m.delegations))
    }
}

impl TargetsMetadata {
    /// Encodes targets metadata.
    pub fn from(metadata: metadata::TargetsMetadata) -> (r: Self)
        requires
            metadata.wf(),
        ensures
            targets_encoded(r, metadata),
    {
        proof {
            reveal_strlit("1.0");
        }
        let metadata::TargetsMetadata { version, expires, targets, delegations } = metadata;
        TargetsMetadata {
            typ: Role::Targets,
            spec_version: SPEC_VERSION.to_owned(),
            version,
            expires: format_datetime(&expires),
            targets,
            delegations: Delegations::from(delegations),
        }
    }

    /// Decodes targets metadata.
    pub fn try_into(self) -> (r: Result<metadata::TargetsMetadata, Error>)
        ensures
            targets_decode_spec(self, r),
    {
        let TargetsMetadata { typ, spec_version, version, expires, targets, delegations } = self;
        let expires = match check_envelope(typ, Role::Targets, &spec_version, &expires) {
            Ok(t) => t,
            Err(e) => return Err(e),
        };
        match check_target_descriptions(&targets) {
            Ok(()) => {},
            Err(e) => return Err(e),
        }
        let ghost wt = targets@;
        let targets = match deserialize(targets) {
            Ok(t) => t,
            Err(e) => return Err(e),
        };
        let delegations = match delegations.try_into() {
            Ok(d) => d,
            Err(e) => return Err(e),
        };
        proof {
            assert forall|i: int| 0 <= i < targets@.len() implies (#[trigger] targets@[i]).1.wf() by {
                assert(targets@.contains(targets@[i]));
                assert(wt.contains(targets@[i]));
                let j = choose|j: int| 0 <= j < wt.len() && wt[j] == targets@[i];
            }
        }
        Ok(metadata::TargetsMetadata { version, expires, targets, delegations })
    }
}

/// Two delegations with the same contents.
pub open spec fn same_delegation(a: metadata::Delegation, b: metadata::Delegation) -> bool {
    &&& a.name == b.name
    &&& a.terminating == b.terminating
    &&& a.threshold == b.threshold
    &&& a.key_ids@ == b.key_ids@
    &&& a.paths@ == b.paths@
}

/// The names of in-memory delegations strictly increase.
pub open spec fn delegation_names_sorted(roles: Seq<metadata::Delegation>) -> bool {
    forall|i: int, j: int| 0 <= i < j < roles.len() ==> str_lt(#[trigger] roles[i].name@, #[trigger] roles[j].name@)
}

/// Decoding the encoding of valid targets metadata succeeds and gives back
/// the same contents. Encoding sorts the delegations by name and decoding
/// keeps their order, so this holds where they are in that order already.
pub proof fn lemma_targets_round_trip(
    m: metadata::TargetsMetadata,
    w: TargetsMetadata,
    r: Result<metadata::TargetsMetadata, Error>,
)
    requires
        m.wf(),
        delegation_names_sorted(m.delegations.roles@),
        targets_encoded(w, m),
        targets_decode_spec(w, r),
    ensures
        r is Ok,
        r->Ok_0.version == m.version,
        r->Ok_0.expires == m.expires,
        r->Ok_0.targets@ == m.targets@,
        r->Ok_0.delegations.keys@ == m.delegations.keys@,
        r->Ok_0.delegations.roles@.len() == m.delegations.roles@.len(),
        forall|i: int|
            0 <= i < m.delegations.roles@.len() ==> same_delegation(
                #[trigger] r->Ok_0.delegations.roles@[i],
                m.delegations.roles@[i],
            ),
{
    reveal_strlit("1.0");
    assert(is_valid_spec_version(w.spec_version@));
    assert(expires_ok(w.expires@));
    lemma_sorted_keys_no_duplicate(w.targets@);
    lemma_sorted_keys_no_duplicate(w.delegations.keys@);
    let enc = encode_roles(m.delegations.roles@);
    lemma_names_sorted_unique(w.delegations.roles@, enc);
    let wr = w.delegations.roles@;
    assert forall|i: int| 0 <= i < wr.len() implies delegation_checks_pass(#[trigger] wr[i]) by {
        assert(wr[i] == encode_delegation(m.delegations.roles@[i]));
        assert(m.delegations.roles@[i].wf());
        lemma_sorted_strs_no_duplicate(wr[i].key_ids@);
        lemma_sorted_strs_no_duplicate(wr[i].paths@);
    }
    assert forall|a: int, b: int| 0 <= a < b < wr.len() implies #[trigger] wr[a].name@ != #[trigger] wr[b].name@ by {
        assert(wr[a] == encode_delegation(m.delegations.roles@[a]));
        assert(wr[b] == encode_delegation(m.delegations.roles@[b]));
    }
    let d = r->Ok_0.delegations;
    assert forall|i: int| 0 <= i < m.delegations.roles@.len() implies same_delegation(
        #[trigger] d.roles@[i],
        m.delegations.roles@[i],
    ) by {
        assert(wr[i] == encode_delegation(m.delegations.roles@[i]));
        assert(m.delegations.roles@[i].wf());
        assert(delegation_decoded(d.roles@[i], wr[i]));
    }
}

// ---------------------------------------------------------------- snapshot

/// The suffix that snapshot `meta` keys carry: `.json`.
pub open spec fn json_suffix() -> Seq<char> {
    seq!['.', 'j', 's', 'o', 'n']
}

/// `k` ends with `.json`.
pub open spec fn has_json_suffix(k: Seq<char>) -> bool {
    k.len() >= 5 && k.subrange(k.len() - 5, k.len() as int) == json_suffix()
}

/// Some entry of `s` has the key `k` and the description `d`.
pub open spec fn has_entry<V>(s: Seq<(String, V)>, k: Seq<char>, d: V) -> bool {
    exists|i: int| 0 <= i < s.len() && #[trigger] s[i].0@ == k && s[i].1 == d
}

/// `e` reports a key of `meta` that lacks the `.json` suffix.
pub open spec fn is_malformed_path(e: Error, meta: Seq<(String, MetadataDescription)>) -> bool {
    match e {
        Error::MalformedSnapshotPath { path } => !has_json_suffix(path@) && has_key(meta, path@),
        _ => false,
    }
}

/// Whether `k` ends with `.json`.
fn ends_with_json(k: &String) -> (r: bool)
    ensures
        r == has_json_suffix(k@),
{
    let n = k.as_str().unicode_len();
    if n < 5 {
        return false;
    }
    let s = k.as_str();
    let r = s.get_char(n - 5) == '.' && s.get_char(n - 4) == 'j' && s.get_char(n - 3) == 's'
        && s.get_char(n - 2) == 'o' && s.get_char(n - 1) == 'n';
    proof {
        let t = k@.subrange(n - 5, n as int);
        if r {
            assert(t =~= json_suffix());
        } else {
            assert(t[0] != '.' || t[1] != 'j' || t[2] != 's' || t[3] != 'o' || t[4] != 'n');
        }
    }
    r
}

/// `p` followed by `.json`.
fn add_json(p: &String) -> (r: String)
    ensures
        r@ == p@ + json_suffix(),
{
    proof {
        reveal_strlit(".json");
    }
    let mut k = p.clone();
    k.append(".json");
    assert(".json"@ =~= json_suffix());
    k
}

/// `k` without its `.json` suffix.
fn strip_json(k: &String) -> (r: String)
    requires
        has_json_suffix(k@),
    ensures
        r@ + json_suffix() == k@,
        r@ == k@.subrange(0, k@.len() - 5),
{
    let n = k.as_str().unicode_len();
    let r = k.as_str().substring_char(0, n - 5).to_owned();
    assert(r@ + json_suffix() =~= k@);
    r
}

/// The wire form of snapshot metadata.
pub struct SnapshotMetadata {
    pub typ: Role,
    pub spec_version: String,
    pub version: u32,
    pub expires: String,
    pub meta: Vec<(String, MetadataDescription)>,
}

/// `w` is what encoding gives `m`: each logical path gains the `.json`
/// suffix, and the entries come out in increasing order of key.
pub open spec fn snapshot_encoded(w: SnapshotMetadata, m: metadata::SnapshotMetadata) -> bool {
    &&& w.typ == Role::Snapshot
    &&& w.spec_version@ == "1.0"@
    &&& w.version == m.version
    &&& w.expires@ == canonical_text(fields_of(m.expires))
    &&& sorted_keys(w.meta@)
    &&& w.meta@.len() == m.meta@.len()
    &&& forall|i: int| 0 <= i < w.meta@.len() ==> has_json_suffix(#[trigger] w.meta@[i].0@)
    &&& forall|p: Seq<char>, d: MetadataDescription| has_entry(m.meta@, p, d) <==> has_entry(w.meta@, p + json_suffix(), d)
}

/// Every check that decoding a snapshot document makes passes.
pub open spec fn snapshot_checks_pass(w: SnapshotMetadata) -> bool {
    &&& envelope_ok(w.typ, Role::Snapshot, w.spec_version@, w.expires@)
    &&& metadata_descriptions_ok(w.meta@)
    &&& !has_duplicate_key(w.meta@)
    &&& forall|i: int| 0 <= i < w.meta@.len() ==> has_json_suffix(#[trigger] w.meta@[i].0@)
}

/// The outcome of decoding the snapshot document `w`: the envelope first,
/// then the hashes of each description in order, then repeated keys, then
/// keys without the `.json` suffix.
pub open spec fn snapshot_decode_spec(w: SnapshotMetadata, r: Result<metadata::SnapshotMetadata, Error>) -> bool {
    let env = envelope_ok(w.typ, Role::Snapshot, w.spec_version@, w.expires@);
    &&& envelope_failure(r, w.typ, Role::Snapshot, w.spec_version@, w.expires@)
    &&& forall|t: crate::datetime::DateTime| t.wf() && w.expires@ == canonical_text(fields_of(t)) ==> expires_ok(w.expires@)
    &&& env && !metadata_descriptions_ok(w.meta@) ==> r is Err && exists|i: int|
        0 <= i < w.meta@.len() && !(#[trigger] w.meta@[i]).1.wf() && (forall|j: int|
            0 <= j < i ==> (#[trigger] w.meta@[j]).1.wf()) && metadata_description_check(w.meta@[i].1, Err(r->Err_0))
    &&& env && metadata_descriptions_ok(w.meta@) && has_duplicate_key(w.meta@) ==> r is Err && is_duplicate_key(
        r->Err_0,
        w.meta@,
    )
    &&& env && metadata_descriptions_ok(w.meta@) && !has_duplicate_key(w.meta@) && !snapshot_checks_pass(w)
        ==> r is Err && is_malformed_path(r->Err_0, w.meta@)
    &&& r is Ok <==> snapshot_checks_pass(w)
    &&& r is Ok ==> {
        let m = r->Ok_0;
        &&& m.wf()
        &&& m.version == w.version
        &&& fields_of(m.expires) == rfc3339_utc(w.expires@)->0
        &&& forall|t: crate::datetime::DateTime| t.wf() && w.expires@ == canonical_text(fields_of(t)) ==> m.expires == t
        &&& m.meta@.len() == w.meta@.len()
        &&& forall|p: Seq<char>, d: MetadataDescription| has_entry(m.meta@, p, d) <==> has_entry(w.meta@, p + json_suffix(), d)
    }
}

proof fn lemma_suffix_cancel(a: Seq<char>, b: Seq<char>)
    requires
        a + json_suffix() == b + json_suffix(),
    ensures
        a == b,
{
    assert(a =~= (a + json_suffix()).subrange(0, a.len() as int));
    assert(b =~= (b + json_suffix()).subrange(0, b.len() as int));
}

proof fn lemma_insert_has_entry<V>(prev: Seq<(String, V)>, p: int, x: (String, V), k: Seq<char>, d: V)
    requires
        0 <= p <= prev.len(),
    ensures
        has_entry(prev.insert(p, x), k, d) <==> (has_entry(prev, k, d) || (x.0@ == k && x.1 == d)),
{
    let s = prev.insert(p, x);
    if has_entry(s, k, d) {
        let q = choose|q: int| 0 <= q < s.len() && #[trigger] s[q].0@ == k && s[q].1 == d;
        if q < p {
            assert(prev[q] == s[q]);
        } else if q > p {
            assert(prev[q - 1] == s[q]);
        }
    }
    if has_entry(prev, k, d) {
        let q = choose|q: int| 0 <= q < prev.len() && #[trigger] prev[q].0@ == k && prev[q].1 == d;
        if q < p {
            assert(s[q] == prev[q]);
        } else {
            assert(s[q + 1] == prev[q]);
        }
    }
    if x.0@ == k && x.1 == d {
        assert(s[p] == x);
    }
}

proof fn lemma_has_entry_same_contents<V>(a: Seq<(String, V)>, b: Seq<(String, V)>, k: Seq<char>, d: V)
    requires
        forall|e: (String, V)| a.contains(e) <==> b.contains(e),
    ensures
        has_entry(a, k, d) <==> has_entry(b, k, d),
{
    if has_entry(a, k, d) {
        let q = choose|q: int| 0 <= q < a.len() && #[trigger] a[q].0@ == k && a[q].1 == d;
        assert(a.contains(a[q]));
        let r = choose|r: int| 0 <= r < b.len() && b[r] == a[q];
        assert(b[r].0@ == k);
    }
    if has_entry(b, k, d) {
        let q = choose|q: int| 0 <= q < b.len() && #[trigger] b[q].0@ == k && b[q].1 == d;
        assert(b.contains(b[q]));
        let r = choose|r: int| 0 <= r < a.len() && a[r] == b[q];
        assert(a[r].0@ == k);
    }
}

impl SnapshotMetadata {
    /// Encodes snapshot metadata.
    pub fn from(metadata: metadata::SnapshotMetadata) -> (r: Self)
        requires
            metadata.wf(),
        ensures
            snapshot_encoded(r, metadata),
    {
        proof {
            reveal_strlit("1.0");
        }
        let metadata::SnapshotMetadata { version, expires, meta } = metadata;
        let ghost orig = meta@;
        let mut rest = meta;
        let mut out: Vec<(String, MetadataDescription)> = Vec::new();
        let n = rest.len();
        let mut i: usize = 0;
        while rest.len() > 0
            invariant
                i + rest@.len() == n,
                n == orig.len(),
                rest@ == orig.skip(i as int),
                sorted_keys(orig),
                sorted_keys(out@),
                out@.len() == i,
                forall|j: int| 0 <= j < out@.len() ==> has_json_suffix(#[trigger] out@[j].0@),
                forall|p: Seq<char>, d: MetadataDescription|
                    has_entry(orig.take(i as int), p, d) <==> has_entry(out@, p + json_suffix(), d),
                forall|k: Seq<char>| has_key(out@, k) ==> exists|j: int| 0 <= j < i && k == #[trigger] orig[j].0@ + json_suffix(),
            decreases rest@.len(),
        {
            let (p, d) = rest.remove(0);
            assert((p, d) == orig[i as int]);
            let k = add_json(&p);
            let ghost prev = out@;
            let ghost kv = k@;
            let ghost t0 = orig.take(i as int);
            let ghost t1 = orig.take(i + 1);
            assert(t1 =~= t0.insert(i as int, (p, d)));
            proof {
                if has_key(prev, kv) {
                    let j = choose|j: int| 0 <= j < i && kv == #[trigger] orig[j].0@ + json_suffix();
                    lemma_suffix_cancel(orig[j].0@, p@);
                    lemma_str_lt_irreflexive(p@);
                }
            }
            let ghost dd = d;
            let inserted = insert_entry(&mut out, k, d);
            assert(inserted);
            proof {
                let q = choose|q: int| 0 <= q <= prev.len() && out@ == prev.insert(q, (k, dd)) && (forall|z: int|
                    0 <= z < q ==> str_lt(#[trigger] prev[z].0@, kv));
                assert forall|j: int| 0 <= j < out@.len() implies has_json_suffix(#[trigger] out@[j].0@) by {
                    if j < q {
                        assert(out@[j] == prev[j]);
                    } else if j > q {
                        assert(out@[j] == prev[j - 1]);
                    } else {
                        assert(kv.subrange(kv.len() - 5, kv.len() as int) =~= json_suffix());
                    }
                }
                assert forall|pp: Seq<char>, de: MetadataDescription|
                    has_entry(t1, pp, de) <==> has_entry(out@, pp + json_suffix(), de) by {
                    lemma_insert_has_entry(t0, i as int, (p, dd), pp, de);
                    lemma_insert_has_entry(prev, q, (k, dd), pp + json_suffix(), de);
                    if kv == pp + json_suffix() {
                        lemma_suffix_cancel(p@, pp);
                    }
                }
                assert forall|k2: Seq<char>| has_key(out@, k2) implies exists|j: int| 0 <= j < i + 1 && k2 == #[trigger] orig[j].0@ + json_suffix() by {
                    crate::order::lemma_insert_has_key(prev, q, (k, dd), k2);
                    if k2 == kv {
                        assert(k2 == orig[i as int].0@ + json_suffix());
                    } else {
                        let j = choose|j: int| 0 <= j < i && k2 == #[trigger] orig[j].0@ + json_suffix();
                    }
                }
            }
            i += 1;
        }
        assert(orig.take(n as int) =~= orig);
        SnapshotMetadata {
            typ: Role::Snapshot,
            spec_version: SPEC_VERSION.to_owned(),
            version,
            expires: format_datetime(&expires),
            meta: out,
        }
    }

    /// Decodes snapshot metadata, taking the `.json` suffix off each key to
    /// recover the logical path.
    pub fn try_into(self) -> (r: Result<metadata::SnapshotMetadata, Error>)
        ensures
            snapshot_decode_spec(self, r),
    {
        let SnapshotMetadata { typ, spec_version, version, expires, meta } = self;
        let expires = match check_envelope(typ, Role::Snapshot, &spec_version, &expires) {
            Ok(t) => t,
            Err(e) => return Err(e),
        };
        match check_metadata_descriptions(&meta) {
            Ok(()) => {},
            Err(e) => return Err(e),
        }
        let ghost wm = meta@;
        let u = match deserialize(meta) {
            Ok(u) => u,
            Err(e) => return Err(e),
        };
        let ghost orig = u@;
        proof {
            lemma_sorted_keys_no_duplicate(orig);
        }
        let mut rest = u;
        let mut out: Vec<(String, MetadataDescription)> = Vec::new();
        let n = rest.len();
        let mut i: usize = 0;
        while rest.len() > 0
            invariant
                i + rest@.len() == n,
                n == orig.len(),
                rest@ == orig.skip(i as int),
                wm == self.meta@,
                envelope_ok(typ, Role::Snapshot, spec_version@, self.expires@),
                typ == self.typ,
                spec_version == self.spec_version,
                !has_duplicate_key(wm),
                metadata_descriptions_ok(wm),
                !has_duplicate_key(orig),
                forall|e: (String, MetadataDescription)| orig.contains(e) <==> wm.contains(e),
                sorted_keys(out@),
                out@.len() == i,
                forall|j: int| 0 <= j < i ==> has_json_suffix(#[trigger] orig[j].0@),
                forall|p: Seq<char>, d: MetadataDescription|
                    has_entry(out@, p, d) <==> has_entry(orig.take(i as int), p + json_suffix(), d),
                forall|k: Seq<char>| has_key(out@, k) ==> exists|j: int| 0 <= j < i && #[trigger] orig[j].0@ == k + json_suffix(),
            decreases rest@.len(),
        {
            let (k, d) = rest.remove(0);
            assert((k, d) == orig[i as int]);
            assert(orig.contains(orig[i as int]));
            if !ends_with_json(&k) {
                proof {
                    let q = choose|q: int| 0 <= q < wm.len() && wm[q] == orig[i as int];
                    assert(wm[q].0@ == k@);
                    assert(has_key(wm, k@));
                    assert(!has_json_suffix(wm[q].0@));
                }
                return Err(Error::MalformedSnapshotPath { path: k });
            }
            let p = strip_json(&k);
            let ghost prev = out@;
            let ghost pv = p@;
            let ghost t0 = orig.take(i as int);
            let ghost t1 = orig.take(i + 1);
            assert(t1 =~= t0.insert(i as int, (k, d)));
            proof {
                if has_key(prev, pv) {
                    let j = choose|j: int| 0 <= j < i && #[trigger] orig[j].0@ == pv + json_suffix();
                    assert(orig[j].0@ == orig[i as int].0@);
                }
            }
            let ghost dd = d;
            let inserted = insert_entry(&mut out, p, d);
            assert(inserted);
            proof {
                let q = choose|q: int| 0 <= q <= prev.len() && out@ == prev.insert(q, (p, dd)) && (forall|z: int|
                    0 <= z < q ==> str_lt(#[trigger] prev[z].0@, pv));
                assert forall|pp: Seq<char>, de: MetadataDescription|
                    has_entry(out@, pp, de) <==> has_entry(t1, pp + json_suffix(), de) by {
                    lemma_insert_has_entry(t0, i as int, (k, dd), pp + json_suffix(), de);
                    lemma_insert_has_entry(prev, q, (p, dd), pp, de);
                    if k@ == pp + json_suffix() {
                        lemma_suffix_cancel(pv, pp);
                    }
                }
                assert forall|k2: Seq<char>| has_key(out@, k2) implies exists|j: int| 0 <= j < i + 1 && #[trigger] orig[j].0@ == k2 + json_suffix() by {
                    crate::order::lemma_insert_has_key(prev, q, (p, dd), k2);
                    if k2 == pv {
                        assert(orig[i as int].0@ == k2 + json_suffix());
                    } else {
                        let j = choose|j: int| 0 <= j < i && #[trigger] orig[j].0@ == k2 + json_suffix();
                    }
                }
            }
            i += 1;
        }
        proof {
            assert(orig.take(n as int) =~= orig);
            assert forall|j: int| 0 <= j < wm.len() implies has_json_suffix(#[trigger] wm[j].0@) by {
                assert(wm.contains(wm[j]));
                let q = choose|q: int| 0 <= q < orig.len() && orig[q] == wm[j];
            }
            assert forall|p: Seq<char>, d: MetadataDescription|
                has_entry(out@, p, d) <==> has_entry(wm, p + json_suffix(), d) by {
                lemma_has_entry_same_contents(orig, wm, p + json_suffix(), d);
            }
            assert forall|i: int| 0 <= i < out@.len() implies (#[trigger] out@[i]).1.wf() by {
                let (p, d) = (out@[i].0@, out@[i].1);
                assert(has_entry(out@, p, d));
                assert(has_entry(wm, p + json_suffix(), d));
                let q = choose|q: int| 0 <= q < wm.len() && #[trigger] wm[q].0@ == p + json_suffix() && wm[q].1 == d;
            }
        }
        Ok(metadata::SnapshotMetadata { version, expires, meta: out })
    }
}

/// Two lists whose keys strictly increase and that hold the same entries
/// agree entry by entry.
pub proof fn lemma_sorted_entries_unique<V>(a: Seq<(String, V)>, b: Seq<(String, V)>)
    requires
        sorted_keys(a),
        sorted_keys(b),
        forall|k: Seq<char>, d: V| has_entry(a, k, d) <==> has_entry(b, k, d),
    ensures
        a.len() == b.len(),
        forall|i: int| 0 <= i < a.len() ==> #[trigger] a[i].0@ == b[i].0@ && a[i].1 == b[i].1,
    decreases a.len(),
{
    if a.len() == 0 {
        if b.len() > 0 {
            assert(has_entry(b, b[0].0@, b[0].1));
        }
    } else {
        assert(has_entry(a, a[0].0@, a[0].1));
        let j = choose|j: int| 0 <= j < b.len() && #[trigger] b[j].0@ == a[0].0@ && b[j].1 == a[0].1;
        assert(has_entry(b, b[0].0@, b[0].1));
        let k = choose|k: int| 0 <= k < a.len() && #[trigger] a[k].0@ == b[0].0@ && a[k].1 == b[0].1;
        if j > 0 {
            if k > 0 {
                lemma_str_lt_asymmetric(a[0].0@, b[0].0@);
            } else {
                lemma_str_lt_irreflexive(b[0].0@);
            }
        }
        let ta = a.drop_first();
        let tb = b.drop_first();
        assert forall|kk: Seq<char>, d: V| has_entry(ta, kk, d) <==> has_entry(tb, kk, d) by {
            if has_entry(ta, kk, d) {
                let m = choose|m: int| 0 <= m < ta.len() && #[trigger] ta[m].0@ == kk && ta[m].1 == d;
                assert(a[m + 1] == ta[m]);
                assert(has_entry(a, kk, d));
                let q = choose|q: int| 0 <= q < b.len() && #[trigger] b[q].0@ == kk && b[q].1 == d;
                if q == 0 {
                    lemma_str_lt_irreflexive(a[0].0@);
                }
                assert(tb[q - 1] == b[q]);
            }
            if has_entry(tb, kk, d) {
                let m = choose|m: int| 0 <= m < tb.len() && #[trigger] tb[m].0@ == kk && tb[m].1 == d;
                assert(b[m + 1] == tb[m]);
                assert(has_entry(b, kk, d));
                let q = choose|q: int| 0 <= q < a.len() && #[trigger] a[q].0@ == kk && a[q].1 == d;
                if q == 0 {
                    lemma_str_lt_irreflexive(b[0].0@);
                }
                assert(ta[q - 1] == a[q]);
            }
        }
        lemma_sorted_entries_unique(ta, tb);
        assert forall|i: int| 0 <= i < a.len() implies #[trigger] a[i].0@ == b[i].0@ && a[i].1 == b[i].1 by {
            if i > 0 {
                assert(ta[i - 1] == a[i]);
                assert(tb[i - 1] == b[i]);
            }
        }
    }
}

/// Decoding the encoding of valid snapshot metadata succeeds and gives back
/// the same paths and descriptions, in the same order.
pub proof fn lemma_snapshot_round_trip(
    m: metadata::SnapshotMetadata,
    w: SnapshotMetadata,
    r: Result<metadata::SnapshotMetadata, Error>,
)
    requires
        m.wf(),
        snapshot_encoded(w, m),
        snapshot_decode_spec(w, r),
    ensures
        r is Ok,
        r->Ok_0.version == m.version,
        r->Ok_0.expires == m.expires,
        r->Ok_0.meta@.len() == m.meta@.len(),
        forall|i: int| 0 <= i < m.meta@.len() ==> #[trigger] r->Ok_0.meta@[i].0@ == m.meta@[i].0@ && r->Ok_0.meta@[i].1 == m.meta@[i].1,
{
    reveal_strlit("1.0");
    assert(is_valid_spec_version(w.spec_version@));
    assert(expires_ok(w.expires@));
    lemma_sorted_keys_no_duplicate(w.meta@);
    assert forall|i: int| 0 <= i < w.meta@.len() implies (#[trigger] w.meta@[i]).1.wf() by {
        let k = w.meta@[i].0@;
        let x = w.meta@[i].1;
        assert(has_entry(w.meta@, k, x));
        lemma_has_entry_suffix(w.meta@, k, x);
        let p = k.subrange(0, k.len() - 5);
        assert(has_entry(m.meta@, p, x));
        let q = choose|q: int| 0 <= q < m.meta@.len() && #[trigger] m.meta@[q].0@ == p && m.meta@[q].1 == x;
        assert(m.meta@[q].1.wf());
    }
    let d = r->Ok_0;
    lemma_sorted_entries_unique(d.meta@, m.meta@);
}

/// Key identifiers and path patterns are encoded in increasing order
/// whatever order they were given in: two delegations built from lists
/// holding the same identifiers and the same paths encode the same lists.
pub proof fn lemma_delegation_lists_order_independent(
    ids_a: Seq<String>,
    ids_b: Seq<String>,
    paths_a: Seq<String>,
    paths_b: Seq<String>,
    d1: metadata::Delegation,
    d2: metadata::Delegation,
)
    requires
        forall|v: Seq<char>| has_str(ids_a, v) <==> has_str(ids_b, v),
        forall|v: Seq<char>| has_str(paths_a, v) <==> has_str(paths_b, v),
        d1.wf() && (forall|v: Seq<char>| has_str(d1.key_ids@, v) <==> has_str(ids_a, v)) && (forall|v: Seq<char>|
            has_str(d1.paths@, v) <==> has_str(paths_a, v)),
        d2.wf() && (forall|v: Seq<char>| has_str(d2.key_ids@, v) <==> has_str(ids_b, v)) && (forall|v: Seq<char>|
            has_str(d2.paths@, v) <==> has_str(paths_b, v)),
    ensures
        encode_delegation(d1).key_ids@.len() == encode_delegation(d2).key_ids@.len(),
        forall|i: int|
            0 <= i < d1.key_ids@.len() ==> #[trigger] encode_delegation(d1).key_ids@[i]@ == encode_delegation(d2).key_ids@[i]@,
        encode_delegation(d1).paths@.len() == encode_delegation(d2).paths@.len(),
        forall|i: int|
            0 <= i < d1.paths@.len() ==> #[trigger] encode_delegation(d1).paths@[i]@ == encode_delegation(d2).paths@[i]@,
{
    assert forall|v: Seq<char>| has_str(d1.key_ids@, v) <==> has_str(d2.key_ids@, v) by {
        assert(has_str(d1.key_ids@, v) <==> has_str(ids_a, v));
        assert(has_str(ids_a, v) <==> has_str(ids_b, v));
        assert(has_str(ids_b, v) <==> has_str(d2.key_ids@, v));
    }
    assert forall|v: Seq<char>| has_str(d1.paths@, v) <==> has_str(d2.paths@, v) by {
        assert(has_str(d1.paths@, v) <==> has_str(paths_a, v));
        assert(has_str(paths_a, v) <==> has_str(paths_b, v));
        assert(has_str(paths_b, v) <==> has_str(d2.paths@, v));
    }
    lemma_sorted_strs_unique(d1.key_ids@, d2.key_ids@);
    lemma_sorted_strs_unique(d1.paths@, d2.paths@);
}

/// Encoding timestamp metadata is canonical: encoding what its encoding
/// decodes to gives the same wire form.
pub proof fn lemma_timestamp_canonical(
    m: metadata::TimestampMetadata,
    w: TimestampMetadata,
    r: Result<metadata::TimestampMetadata, Error>,
    w2: TimestampMetadata,
)
    requires
        m.wf(),
        timestamp_encoded(w, m),
        timestamp_decode_spec(w, r),
        r is Ok ==> timestamp_encoded(w2, r->Ok_0),
    ensures
        r is Ok,
        w2.typ == w.typ,
        w2.spec_version@ == w.spec_version@,
        w2.version == w.version,
        w2.expires@ == w.expires@,
        w2.meta.snapshot == w.meta.snapshot,
{
    lemma_timestamp_round_trip(m, w, r);
}

/// Encoding targets metadata is canonical: encoding what its encoding
/// decodes to gives the same wire form.
pub proof fn lemma_targets_canonical(
    m: metadata::TargetsMetadata,
    w: TargetsMetadata,
    r: Result<metadata::TargetsMetadata, Error>,
    w2: TargetsMetadata,
)
    requires
        m.wf(),
        targets_encoded(w, m),
        targets_decode_spec(w, r),
        r is Ok ==> targets_encoded(w2, r->Ok_0),
    ensures
        r is Ok,
        w2.typ == w.typ,
        w2.spec_version@ == w.spec_version@,
        w2.version == w.version,
        w2.expires@ == w.expires@,
        w2.targets@ == w.targets@,
        w2.delegations.keys@ == w.delegations.keys@,
        w2.delegations.roles@.len() == w.delegations.roles@.len(),
        forall|i: int|
            0 <= i < w.delegations.roles@.len() ==> {
                let a = #[trigger] w2.delegations.roles@[i];
                let b = w.delegations.roles@[i];
                a.name == b.name && a.terminating == b.terminating && a.threshold == b.threshold
                    && a.key_ids@ == b.key_ids@ && a.paths@ == b.paths@
            },
{
    reveal_strlit("1.0");
    assert(is_valid_spec_version(w.spec_version@));
    assert(expires_ok(w.expires@));
    lemma_sorted_keys_no_duplicate(w.targets@);
    lemma_sorted_keys_no_duplicate(w.delegations.keys@);
    let wr = w.delegations.roles@;
    assert forall|i: int| 0 <= i < wr.len() implies delegation_checks_pass(#[trigger] wr[i]) by {
        assert(wr.contains(wr[i]));
        let j = choose|j: int| 0 <= j < m.delegations.roles@.len() && encode_roles(m.delegations.roles@)[j] == wr[i];
        assert(m.delegations.roles@[j].wf());
        lemma_sorted_strs_no_duplicate(wr[i].key_ids@);
        lemma_sorted_strs_no_duplicate(wr[i].paths@);
    }
    assert forall|a: int, b: int| 0 <= a < b < wr.len() implies #[trigger] wr[a].name@ != #[trigger] wr[b].name@ by {
        lemma_str_lt_irreflexive(wr[a].name@);
    }
    let d = r->Ok_0.delegations;
    // the decoded delegations keep the encoded (sorted) order, so encoding
    // them again sorts nothing
    let enc2 = encode_roles(d.roles@);
    assert forall|i: int| 0 <= i < wr.len() implies {
        let a = #[trigger] enc2[i];
        let b = wr[i];
        a.name == b.name && a.terminating == b.terminating && a.threshold == b.threshold
            && a.key_ids@ == b.key_ids@ && a.paths@ == b.paths@
    } by {
        assert(delegation_decoded(d.roles@[i], wr[i]));
        assert(wr.contains(wr[i]));
        let j = choose|j: int| 0 <= j < m.delegations.roles@.len() && encode_roles(m.delegations.roles@)[j] == wr[i];
        assert(m.delegations.roles@[j].wf());
    }
    assert forall|a: int, b: int| 0 <= a < b < enc2.len() implies str_lt(#[trigger] enc2[a].name@, #[trigger] enc2[b].name@) by {
        assert(enc2[a].name == wr[a].name);
        assert(enc2[b].name == wr[b].name);
    }
    lemma_names_sorted_unique(w2.delegations.roles@, enc2);
}

proof fn lemma_has_entry_pointwise<V>(a: Seq<(String, V)>, b: Seq<(String, V)>, k: Seq<char>, d: V)
    requires
        a.len() == b.len(),
        forall|i: int| 0 <= i < a.len() ==> #[trigger] a[i].0@ == b[i].0@ && a[i].1 == b[i].1,
    ensures
        has_entry(a, k, d) <==> has_entry(b, k, d),
{
    if has_entry(a, k, d) {
        let q = choose|q: int| 0 <= q < a.len() && #[trigger] a[q].0@ == k && a[q].1 == d;
        assert(b[q].0@ == k);
    }
    if has_entry(b, k, d) {
        let q = choose|q: int| 0 <= q < b.len() && #[trigger] b[q].0@ == k && b[q].1 == d;
        assert(a[q].0@ == k);
    }
}

proof fn lemma_has_entry_suffix(w: Seq<(String, MetadataDescription)>, k: Seq<char>, d: MetadataDescription)
    requires
        forall|i: int| 0 <= i < w.len() ==> has_json_suffix(#[trigger] w[i].0@),
        has_entry(w, k, d),
    ensures
        k == k.subrange(0, k.len() - 5) + json_suffix(),
{
    let q = choose|q: int| 0 <= q < w.len() && #[trigger] w[q].0@ == k && w[q].1 == d;
    assert(has_json_suffix(w[q].0@));
    assert(k =~= k.subrange(0, k.len() - 5) + json_suffix());
}

/// Encoding snapshot metadata is canonical: encoding what its encoding
/// decodes to gives the same wire form.
pub proof fn lemma_snapshot_canonical(
    m: metadata::SnapshotMetadata,
    w: SnapshotMetadata,
    r: Result<metadata::SnapshotMetadata, Error>,
    w2: SnapshotMetadata,
)
    requires
        m.wf(),
        snapshot_encoded(w, m),
        snapshot_decode_spec(w, r),
        r is Ok ==> snapshot_encoded(w2, r->Ok_0),
    ensures
        r is Ok,
        w2.typ == w.typ,
        w2.spec_version@ == w.spec_version@,
        w2.version == w.version,
        w2.expires@ == w.expires@,
        w2.meta@.len() == w.meta@.len(),
        forall|i: int| 0 <= i < w.meta@.len() ==> #[trigger] w2.meta@[i].0@ == w.meta@[i].0@ && w2.meta@[i].1 == w.meta@[i].1,
{
    lemma_snapshot_round_trip(m, w, r);
    let d = r->Ok_0;
    assert forall|k: Seq<char>, x: MetadataDescription| has_entry(w2.meta@, k, x) <==> has_entry(w.meta@, k, x) by {
        let p = k.subrange(0, k.len() - 5);
        if has_entry(w2.meta@, k, x) {
            lemma_has_entry_suffix(w2.meta@, k, x);
            lemma_has_entry_pointwise(d.meta@, m.meta@, p, x);
        }
        if has_entry(w.meta@, k, x) {
            lemma_has_entry_suffix(w.meta@, k, x);
            lemma_has_entry_pointwise(d.meta@, m.meta@, p, x);
        }
    }
    lemma_sorted_entries_unique(w2.meta@, w.meta@);
}

} // verus!
