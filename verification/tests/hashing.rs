use base64ct::{Base64, Encoding};
use sha2::{Digest, Sha256};

use zenith::fingerprint::{hash, UpstreamTable};
use zenith::workspace::{Dep, Project};

fn project_with_dep(name: &str, dep: &str) -> Project {
    Project {
        path: format!("/tmp/{}", name),
        name: name.to_string(),
        dependencies: vec![Dep { name: dep.to_string(), satisfied: false }],
    }
}

fn leaf(name: &str) -> Project {
    Project {
        path: format!("/tmp/{}", name),
        name: name.to_string(),
        dependencies: vec![],
    }
}

#[test]
fn fingerprint_matches_reference_digest() {
    // recompute the fingerprint directly with the digest and encoding
    // crates: name bytes, upstream fingerprint, command bytes, file bytes
    let mut upstream = UpstreamTable::new();
    upstream.insert(&"dep".to_string(), &"FPDEP".to_string());
    let p = project_with_dep("proj", "dep");
    let files = vec![10u8, 20, 30];
    let got = hash(&p, "build", &upstream, &files);

    let mut input: Vec<u8> = Vec::new();
    input.extend_from_slice(b"proj");
    input.extend_from_slice(b"FPDEP");
    input.extend_from_slice(b"build");
    input.extend_from_slice(&files);
    let expect = Base64::encode_string(&Sha256::digest(&input));
    assert_eq!(got, expect);
}

#[test]
fn fingerprint_is_deterministic() {
    let upstream = UpstreamTable::new();
    let p = leaf("proj");
    let files = vec![1u8, 2, 3];
    let a = hash(&p, "build", &upstream, &files);
    let b = hash(&p, "build", &upstream, &files);
    assert_eq!(a, b);
}

#[test]
fn fingerprint_changes_with_file_bytes() {
    let upstream = UpstreamTable::new();
    let p = leaf("proj");
    let a = hash(&p, "build", &upstream, &vec![1u8, 2, 3]);
    let b = hash(&p, "build", &upstream, &vec![1u8, 2, 4]);
    assert_ne!(a, b);
}

#[test]
fn fingerprint_changes_with_command() {
    let upstream = UpstreamTable::new();
    let p = leaf("proj");
    let files = vec![1u8, 2, 3];
    assert_ne!(
        hash(&p, "build", &upstream, &files),
        hash(&p, "test", &upstream, &files)
    );
}

#[test]
fn fingerprint_ignores_undeclared_upstream_entries() {
    let p = project_with_dep("proj", "dep");
    let files = vec![7u8];
    let mut u1 = UpstreamTable::new();
    u1.insert(&"dep".to_string(), &"FPDEP".to_string());
    let mut u2 = UpstreamTable::new();
    u2.insert(&"dep".to_string(), &"FPDEP".to_string());
    u2.insert(&"unrelated".to_string(), &"OTHER".to_string());
    assert_eq!(hash(&p, "build", &u1, &files), hash(&p, "build", &u2, &files));
}

#[test]
fn fingerprint_tracks_declared_upstream_fingerprint() {
    let p = project_with_dep("proj", "dep");
    let files = vec![7u8];
    let mut u1 = UpstreamTable::new();
    u1.insert(&"dep".to_string(), &"FP1".to_string());
    let mut u2 = UpstreamTable::new();
    u2.insert(&"dep".to_string(), &"FP2".to_string());
    assert_ne!(hash(&p, "build", &u1, &files), hash(&p, "build", &u2, &files));
}

#[test]
fn upstream_table_records_and_snapshots() {
    let mut t = UpstreamTable::new();
    assert_eq!(t.get(&"a".to_string()), None);
    t.insert(&"a".to_string(), &"fpa".to_string());
    let snap = t.snapshot();
    t.insert(&"b".to_string(), &"fpb".to_string());
    assert_eq!(t.get(&"a".to_string()), Some("fpa".to_string()));
    assert_eq!(t.get(&"b".to_string()), Some("fpb".to_string()));
    assert_eq!(snap.get(&"a".to_string()), Some("fpa".to_string()));
    assert_eq!(snap.get(&"b".to_string()), None);
}
