use pouf::datetime::{format_datetime, parse_datetime, DateTime};
use pouf::description::{MetadataDescription, TargetDescription};
use pouf::error::{Error, Role};
use pouf::key::{IdentifiedKey, PublicKey};
use pouf::metadata;
use pouf::order::str_less;
use pouf::shims::{
    deserialize, Delegation, Delegations, RoleDefinition, RoleDefinitions, RootMetadata,
    SnapshotMetadata, TargetsMetadata, TimestampMeta, TimestampMetadata,
};
use pouf::version::valid_spec_version;

fn s(x: &str) -> String {
    x.to_string()
}

fn key(id: &str, material: &str) -> IdentifiedKey {
    IdentifiedKey::new(
        s(id),
        PublicKey::new(s("ed25519"), s("ed25519"), None, s(material)),
    )
}

fn role(threshold: u32, ids: &[&str]) -> RoleDefinition {
    RoleDefinition { threshold, key_ids: ids.iter().map(|x| s(x)).collect() }
}

fn wire_root(keys: Vec<(String, IdentifiedKey)>, root_ids: &[&str]) -> RootMetadata {
    RootMetadata {
        typ: Role::Root,
        spec_version: s("1.0"),
        version: 1,
        consistent_snapshot: false,
        expires: s("2030-01-01T00:00:00Z"),
        keys,
        roles: RoleDefinitions {
            root: role(1, root_ids),
            snapshot: role(1, &["B"]),
            targets: role(1, &["B"]),
            timestamp: role(1, &["B"]),
        },
    }
}

fn md(version: u32) -> MetadataDescription {
    MetadataDescription::new(version, Some(10), vec![(s("sha256"), s("abcd"))])
}

fn wire_delegation(name: &str, ids: &[&str], paths: &[&str]) -> Delegation {
    Delegation {
        name: s(name),
        terminating: false,
        threshold: 1,
        key_ids: ids.iter().map(|x| s(x)).collect(),
        paths: paths.iter().map(|x| s(x)).collect(),
    }
}

fn wire_targets(delegations: Delegations) -> TargetsMetadata {
    TargetsMetadata {
        typ: Role::Targets,
        spec_version: s("1.0.0"),
        version: 3,
        expires: s("2030-01-01T00:00:00Z"),
        targets: vec![(s("file.txt"), TargetDescription::new(5, vec![(s("sha256"), s("00"))], vec![]))],
        delegations,
    }
}

#[test]
fn spec_version_validation() {
    let valid_spec_versions = ["1.0.0", "1.0"];

    for version in valid_spec_versions {
        assert!(valid_spec_version(version), "{:?} should be valid", version);
    }

    let invalid_spec_versions = ["1.0.1", "1.1.0", "2.0.0", "3.0"];

    for version in invalid_spec_versions {
        assert!(!valid_spec_version(version), "{:?} should be invalid", version);
    }
}

#[test]
fn datetime_formats() {
    let valid_formats = [
        "2022-08-30T19:53:55Z",
        "2022-08-30T19:53:55.7Z",
        "2022-08-30T19:53:55.77Z",
        "2022-08-30T19:53:55.775Z",
        "2022-08-30T19:53:55+00:00",
        "2022-08-30T19:53:55.7+00:00",
        "2022-08-30T14:53:55-05:00",
        "2022-08-30T14:53:55.7-05:00",
        "2022-08-30T14:53:55.77-05:00",
        "2022-08-30T14:53:55.775-05:00",
    ];

    for format in valid_formats {
        assert!(parse_datetime(format).is_ok(), "should parse {:?}", format);
    }
}

#[test]
fn spec_version_rejects_other_strings() {
    assert!(!valid_spec_version("2.0"));
    assert!(!valid_spec_version(""));
    assert!(!valid_spec_version("1.0 "));
    assert!(!valid_spec_version("1.00"));
}

#[test]
fn timestamp_canonicalization() {
    for text in ["2022-08-30T19:53:55.775Z", "2022-08-30T14:53:55.775-05:00"] {
        let t = parse_datetime(text).unwrap();
        assert_eq!(format_datetime(&t), "2022-08-30T19:53:55Z");
    }
}

#[test]
fn timestamp_fields_and_padding() {
    let t = parse_datetime("0999-02-03T04:05:06+01:00").unwrap();
    assert_eq!(t, DateTime { year: 999, month: 2, day: 3, hour: 3, minute: 5, second: 6 });
    assert_eq!(format_datetime(&t), "0999-02-03T03:05:06Z");
}

#[test]
fn timestamp_malformed() {
    for text in ["2022-13-01T00:00:00Z", "2022-02-30T00:00:00Z", "yesterday", "2022-08-30"] {
        match parse_datetime(text) {
            Err(Error::MalformedTimestamp { text: t }) => assert_eq!(t, text),
            other => panic!("expected a malformed timestamp, got {:?}", other.is_ok()),
        }
    }
}

#[test]
fn timestamp_year_out_of_range() {
    assert!(matches!(
        parse_datetime("0000-01-01T00:30:00+01:00"),
        Err(Error::MalformedTimestamp { .. })
    ));
    let t = parse_datetime("9999-12-31T23:59:59Z").unwrap();
    assert_eq!(format_datetime(&t), "9999-12-31T23:59:59Z");
}

#[test]
fn targets_round_trip_with_custom_fields() {
    let custom = vec![(s("note"), serde_json::Value::String(s("hi")))];
    let d = Delegations {
        keys: vec![(s("K"), key("K", "m"))],
        roles: vec![wire_delegation("alpha", &["K"], &["b/*", "a/*"])],
    };
    let mut w = wire_targets(d);
    w.targets.push((s("bin/app"), TargetDescription::new(9, vec![], custom)));
    let m = w.try_into().ok().unwrap();
    assert_eq!(m.targets[0].0, "bin/app");
    assert_eq!(m.targets[1].0, "file.txt");
    let w = TargetsMetadata::from(m);
    assert_eq!(w.spec_version, "1.0");
    assert_eq!(w.targets[0].1.custom[0].1, serde_json::Value::String(s("hi")));
    assert_eq!(w.delegations.roles[0].paths, vec![s("a/*"), s("b/*")]);
    assert_eq!(w.delegations.keys[0].0, "K");
    let m = w.try_into().ok().unwrap();
    assert_eq!(m.delegations.roles.len(), 1);
    assert_eq!(m.targets[1].1.length, 5);
}

#[test]
fn targets_duplicate_target_rejected() {
    let mut w = wire_targets(Delegations { keys: vec![], roles: vec![] });
    w.targets.push((s("file.txt"), TargetDescription::new(1, vec![], vec![])));
    match w.try_into() {
        Err(Error::DuplicateKey { key }) => assert_eq!(key, "file.txt"),
        _ => panic!("expected a duplicate key"),
    }
}

#[test]
fn string_order_is_bytewise() {
    assert!(str_less("A", "B"));
    assert!(str_less("a", "ab"));
    assert!(!str_less("ab", "a"));
    assert!(!str_less("a", "a"));
    assert!(str_less("Z", "a"));
    assert!(str_less("a-b.json", "a.json"));
}

#[test]
fn deserialize_rejects_duplicates() {
    let ok = deserialize(vec![(s("b"), 2u32), (s("a"), 1u32)]).unwrap();
    assert_eq!(ok, vec![(s("a"), 1), (s("b"), 2)]);
    match deserialize(vec![(s("a"), 1u32), (s("b"), 2u32), (s("a"), 3u32)]) {
        Err(Error::DuplicateKey { key }) => assert_eq!(key, "a"),
        _ => panic!("expected a duplicate key"),
    }
}

#[test]
fn root_duplicate_keys_rejected() {
    let keys = vec![(s("A"), key("A", "k1")), (s("A"), key("A", "k2"))];
    match wire_root(keys, &["A"]).try_into() {
        Err(Error::DuplicateKey { key }) => assert_eq!(key, "A"),
        _ => panic!("expected a duplicate key"),
    }
    let keys = vec![(s("B"), key("B", "k2")), (s("A"), key("A", "k1"))];
    let root = wire_root(keys, &["A"]).try_into().ok().unwrap();
    let ids: Vec<&str> = root.keys.iter().map(|e| e.0.as_str()).collect();
    assert_eq!(ids, vec!["A", "B"]);
}

#[test]
fn root_duplicate_role_key_ids_rejected() {
    let keys = vec![(s("A"), key("A", "k1")), (s("B"), key("B", "k2"))];
    match wire_root(keys, &["A", "B", "A"]).try_into() {
        Err(Error::DuplicateRoleKeyId { role, key_id }) => {
            assert_eq!(role, Role::Root);
            assert_eq!(key_id, "A");
        }
        _ => panic!("expected a duplicate key id"),
    }
    let keys = vec![(s("A"), key("A", "k1")), (s("B"), key("B", "k2"))];
    let root = wire_root(keys, &["B", "A"]).try_into().ok().unwrap();
    assert_eq!(root.root.key_ids, vec![s("A"), s("B")]);
    assert_eq!(root.root.threshold, 1);
}

#[test]
fn root_legacy_keys_dropped() {
    let keys = vec![(s("A"), key("A", "k1")), (s("old-id"), key("B", "k2"))];
    let root = wire_root(keys, &["A"]).try_into().ok().unwrap();
    assert_eq!(root.keys.len(), 1);
    assert_eq!(root.keys[0].0, "A");
    assert_eq!(root.keys[0].1.key.public_key(), "k1");
}

#[test]
fn root_wrong_role_and_version() {
    let mut w = wire_root(vec![], &["A"]);
    w.typ = Role::Targets;
    assert!(matches!(
        w.try_into(),
        Err(Error::WrongRole { expected: Role::Root, found: Role::Targets })
    ));
    let mut w = wire_root(vec![], &["A"]);
    w.spec_version = s("2.0");
    match w.try_into() {
        Err(Error::UnknownSpecVersion { version }) => assert_eq!(version, "2.0"),
        _ => panic!("expected an unknown version"),
    }
    let mut w = wire_root(vec![], &["A"]);
    w.expires = s("2030-01-01");
    assert!(matches!(w.try_into(), Err(Error::MalformedTimestamp { .. })));
}

#[test]
fn root_round_trip() {
    let keys = vec![(s("B"), key("B", "k2")), (s("A"), key("A", "k1"))];
    let mut w = wire_root(keys, &["B", "A"]);
    w.expires = s("2031-05-06T07:08:09.5+02:00");
    let m = w.try_into().ok().unwrap();
    let w1 = RootMetadata::from(m);
    assert_eq!(w1.expires, "2031-05-06T05:08:09Z");
    assert_eq!(w1.spec_version, "1.0");
    assert_eq!(w1.roles.root.key_ids, vec![s("A"), s("B")]);
    let m2 = w1.try_into().ok().unwrap();
    let w2 = RootMetadata::from(m2);
    assert_eq!(w2.expires, "2031-05-06T05:08:09Z");
    assert_eq!(w2.version, 1);
    let ids: Vec<&str> = w2.keys.iter().map(|e| e.0.as_str()).collect();
    assert_eq!(ids, vec!["A", "B"]);
    assert_eq!(w2.roles.root.key_ids, vec![s("A"), s("B")]);
    assert_eq!(w2.roles.timestamp.key_ids, vec![s("B")]);
}

#[test]
fn timestamp_round_trip() {
    let w = TimestampMetadata {
        typ: Role::Timestamp,
        spec_version: s("1.0.0"),
        version: 7,
        expires: s("2022-08-30T14:53:55.775-05:00"),
        meta: TimestampMeta { snapshot: md(4) },
    };
    let m = w.try_into().ok().unwrap();
    assert_eq!(m.version, 7);
    assert_eq!(m.snapshot.version, 4);
    let w = TimestampMetadata::from(m);
    assert_eq!(w.expires, "2022-08-30T19:53:55Z");
    assert_eq!(w.spec_version, "1.0");
    assert_eq!(w.meta.snapshot.length, Some(10));
}

#[test]
fn snapshot_suffix_handling() {
    let w = SnapshotMetadata {
        typ: Role::Snapshot,
        spec_version: s("1.0"),
        version: 2,
        expires: s("2030-01-01T00:00:00Z"),
        meta: vec![(s("foo.json"), md(1))],
    };
    let m = w.try_into().ok().unwrap();
    assert_eq!(m.meta.len(), 1);
    assert_eq!(m.meta[0].0, "foo");
    let w = SnapshotMetadata {
        typ: Role::Snapshot,
        spec_version: s("1.0"),
        version: 2,
        expires: s("2030-01-01T00:00:00Z"),
        meta: vec![(s("foo"), md(1))],
    };
    match w.try_into() {
        Err(Error::MalformedSnapshotPath { path }) => assert_eq!(path, "foo"),
        _ => panic!("expected a malformed path"),
    }
}

#[test]
fn snapshot_round_trip_orders_keys() {
    let w = SnapshotMetadata {
        typ: Role::Snapshot,
        spec_version: s("1.0"),
        version: 2,
        expires: s("2030-01-01T00:00:00Z"),
        meta: vec![(s("a.json"), md(1)), (s("a-b.json"), md(2)), (s("targets.json"), md(3))],
    };
    let m = w.try_into().ok().unwrap();
    let paths: Vec<&str> = m.meta.iter().map(|e| e.0.as_str()).collect();
    assert_eq!(paths, vec!["a", "a-b", "targets"]);
    let w = SnapshotMetadata::from(m);
    let keys: Vec<&str> = w.meta.iter().map(|e| e.0.as_str()).collect();
    assert_eq!(keys, vec!["a-b.json", "a.json", "targets.json"]);
    let m = w.try_into().ok().unwrap();
    assert_eq!(m.meta[0].1.version, 1);
    assert_eq!(m.meta[1].1.version, 2);
}

#[test]
fn snapshot_duplicate_meta_rejected() {
    let w = SnapshotMetadata {
        typ: Role::Snapshot,
        spec_version: s("1.0"),
        version: 2,
        expires: s("2030-01-01T00:00:00Z"),
        meta: vec![(s("foo.json"), md(1)), (s("foo.json"), md(2))],
    };
    assert!(matches!(w.try_into(), Err(Error::DuplicateKey { .. })));
}

#[test]
fn delegation_duplicate_paths_rejected() {
    let d = Delegations {
        keys: vec![],
        roles: vec![wire_delegation("r", &["A"], &["x/*", "x/*"])],
    };
    assert!(matches!(wire_targets(d).try_into(), Err(Error::NonUniqueDelegationPaths)));
    let d = Delegations {
        keys: vec![],
        roles: vec![wire_delegation("r", &["A"], &["x/*", "y/*"])],
    };
    let m = wire_targets(d).try_into().ok().unwrap();
    assert_eq!(m.delegations.roles[0].paths, vec![s("x/*"), s("y/*")]);
}

#[test]
fn delegation_duplicate_key_ids_rejected() {
    let d = Delegations {
        keys: vec![],
        roles: vec![wire_delegation("r", &["A", "A"], &["x/*", "x/*"])],
    };
    assert!(matches!(wire_targets(d).try_into(), Err(Error::NonUniqueDelegationKeyIds)));
    let d = Delegations {
        keys: vec![],
        roles: vec![wire_delegation("r", &["A"], &["x"]), wire_delegation("r", &["B"], &["y"])],
    };
    assert!(matches!(wire_targets(d).try_into(), Err(Error::NonUniqueDelegationNames)));
}

#[test]
fn delegations_keep_order_on_decode() {
    let d = Delegations {
        keys: vec![(s("K"), key("K", "m"))],
        roles: vec![wire_delegation("zeta", &["K"], &["z"]), wire_delegation("alpha", &["K"], &["a"])],
    };
    let m = wire_targets(d).try_into().ok().unwrap();
    assert_eq!(m.delegations.roles[0].name, "zeta");
    assert_eq!(m.delegations.roles[1].name, "alpha");
    let w = TargetsMetadata::from(m);
    assert_eq!(w.delegations.roles[0].name, "alpha");
    assert_eq!(w.delegations.roles[1].name, "zeta");
}

fn in_memory(name: &str, ids: &[&str], paths: &[&str]) -> metadata::Delegation {
    metadata::Delegation::new(
        s(name),
        true,
        2,
        ids.iter().map(|x| s(x)).collect(),
        paths.iter().map(|x| s(x)).collect(),
    )
    .unwrap()
}

#[test]
fn delegations_encode_deterministically() {
    let a = metadata::Delegations::new(
        vec![],
        vec![in_memory("b", &["K2", "K1"], &["y", "x"]), in_memory("a", &["K3"], &["p"])],
    )
    .unwrap();
    let b = metadata::Delegations::new(
        vec![],
        vec![in_memory("a", &["K3"], &["p"]), in_memory("b", &["K1", "K2"], &["x", "y"])],
    )
    .unwrap();
    let wa = Delegations::from(a);
    let wb = Delegations::from(b);
    assert_eq!(wa.roles.len(), wb.roles.len());
    for (x, y) in wa.roles.iter().zip(wb.roles.iter()) {
        assert_eq!(x.name, y.name);
        assert_eq!(x.key_ids, y.key_ids);
        assert_eq!(x.paths, y.paths);
        assert_eq!(x.threshold, y.threshold);
        assert_eq!(x.terminating, y.terminating);
    }
    assert_eq!(wa.roles[0].name, "a");
    assert_eq!(wa.roles[1].key_ids, vec![s("K1"), s("K2")]);
    assert_eq!(wa.roles[1].paths, vec![s("x"), s("y")]);
}

#[test]
fn in_memory_constructors_reject_repeats() {
    assert!(metadata::RoleDefinition::new(1, vec![s("A"), s("A")]).is_none());
    let r = metadata::RoleDefinition::new(1, vec![s("B"), s("A")]).unwrap();
    assert_eq!(r.key_ids, vec![s("A"), s("B")]);
    assert!(metadata::Delegation::new(s("d"), false, 1, vec![s("A")], vec![s("p"), s("p")]).is_none());
    assert!(metadata::Delegations::new(vec![(s("K"), key("K", "1")), (s("K"), key("K", "2"))], vec![]).is_none());
    let e = metadata::Delegations::empty();
    assert!(e.is_empty());
}

#[test]
fn public_key_accessors() {
    let k = PublicKey::new(s("rsa"), s("rsassa-pss-sha256"), Some(vec![s("sha256")]), s("PEM"));
    assert_eq!(k.public_key(), "PEM");
    assert_eq!(k.scheme(), "rsassa-pss-sha256");
    assert_eq!(k.keytype(), "rsa");
    assert_eq!(k.keyid_hash_algorithms(), &Some(vec![s("sha256")]));
}

#[test]
fn role_tags() {
    assert_eq!(Role::Root.tag(), "root");
    assert_eq!(Role::Snapshot.tag(), "snapshot");
    assert_eq!(Role::Targets.tag(), "targets");
    assert_eq!(Role::Timestamp.tag(), "timestamp");
}

#[test]
fn repeated_hash_algorithm_rejected_in_targets() {
    let mut w = wire_targets(Delegations { keys: vec![], roles: vec![] });
    w.targets.push((
        s("other"),
        TargetDescription::new(1, vec![(s("sha256"), s("00")), (s("sha256"), s("11"))], vec![]),
    ));
    match w.try_into() {
        Err(Error::DuplicateKey { key }) => assert_eq!(key, "sha256"),
        _ => panic!("expected a duplicate hash algorithm"),
    }
}

#[test]
fn repeated_custom_field_rejected_in_targets() {
    let custom = vec![
        (s("a"), serde_json::Value::Bool(true)),
        (s("a"), serde_json::Value::Bool(false)),
    ];
    let mut w = wire_targets(Delegations { keys: vec![], roles: vec![] });
    w.targets.push((s("other"), TargetDescription::new(1, vec![], custom)));
    match w.try_into() {
        Err(Error::DuplicateKey { key }) => assert_eq!(key, "a"),
        _ => panic!("expected a duplicate custom field"),
    }
}

#[test]
fn repeated_hash_algorithm_rejected_in_snapshot_and_timestamp() {
    let bad = MetadataDescription::new(1, None, vec![(s("sha512"), s("1")), (s("sha512"), s("2"))]);
    let w = SnapshotMetadata {
        typ: Role::Snapshot,
        spec_version: s("1.0"),
        version: 2,
        expires: s("2030-01-01T00:00:00Z"),
        meta: vec![(s("foo.json"), bad)],
    };
    match w.try_into() {
        Err(Error::DuplicateKey { key }) => assert_eq!(key, "sha512"),
        _ => panic!("expected a duplicate hash algorithm"),
    }
    let bad = MetadataDescription::new(1, None, vec![(s("sha512"), s("1")), (s("sha512"), s("2"))]);
    let w = TimestampMetadata {
        typ: Role::Timestamp,
        spec_version: s("1.0"),
        version: 1,
        expires: s("2030-01-01T00:00:00Z"),
        meta: TimestampMeta { snapshot: bad },
    };
    assert!(matches!(w.try_into(), Err(Error::DuplicateKey { .. })));
}

#[test]
fn first_repeated_key_id_is_named() {
    let keys = vec![(s("A"), key("A", "k1")), (s("B"), key("B", "k2"))];
    match wire_root(keys, &["A", "B", "B", "A"]).try_into() {
        Err(Error::DuplicateRoleKeyId { key_id, .. }) => assert_eq!(key_id, "B"),
        _ => panic!("expected a duplicate key id"),
    }
    match deserialize(vec![(s("x"), 1u32), (s("y"), 2u32), (s("y"), 3u32), (s("x"), 4u32)]) {
        Err(Error::DuplicateKey { key }) => assert_eq!(key, "y"),
        _ => panic!("expected a duplicate key"),
    }
}

#[test]
fn well_formedness_checkers() {
    assert!(DateTime { year: 2024, month: 2, day: 29, hour: 0, minute: 0, second: 0 }.is_wf());
    assert!(!DateTime { year: 2023, month: 2, day: 29, hour: 0, minute: 0, second: 0 }.is_wf());
    assert!(!DateTime { year: 10000, month: 1, day: 1, hour: 0, minute: 0, second: 0 }.is_wf());
    assert!(metadata::RoleDefinition { threshold: 1, key_ids: vec![s("A"), s("B")] }.is_wf());
    assert!(!metadata::RoleDefinition { threshold: 1, key_ids: vec![s("B"), s("A")] }.is_wf());
    let keys = vec![(s("A"), key("A", "k1")), (s("B"), key("B", "k2"))];
    let root = wire_root(keys, &["A"]).try_into().ok().unwrap();
    assert!(root.is_wf());
    let mut bad = wire_root(vec![(s("A"), key("A", "k1"))], &["A"]).try_into().ok().unwrap();
    bad.keys[0].0 = s("Z");
    assert!(!bad.is_wf());
    assert!(!TargetDescription::new(1, vec![(s("h"), s("1")), (s("h"), s("2"))], vec![]).is_wf());
    assert!(md(1).is_wf());
}
