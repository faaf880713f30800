use sha2::{Digest as _, Sha256};

use wt_store::snapshot::{
    complete_marker, complete_marker_ok, serialize_entries, snapshot_path, snapshot_tree_path,
    validate_published, validate_rel, EntryKind, Manifest, SnapshotEntry, DIR_MODE,
    EXEC_FILE_MODE, PLAIN_FILE_MODE,
};
use wt_store::ContentId;

fn id(n: u8) -> ContentId {
    let mut bytes = [0u8; 32];
    bytes[0] = n;
    bytes[31] = n;
    ContentId(bytes)
}

fn manifest_text_for_body(body: &str) -> String {
    let mut hasher = Sha256::new();
    hasher.update(body.as_bytes());
    let digest: [u8; 32] = hasher.finalize().into();
    format!("v1\tmanifest-sha256\t{}\n{body}", ContentId(digest).to_string())
}

#[test]
fn new_normalizes_modes_sorts_and_hashes_entry_bytes() {
    let m = Manifest::new(vec![
        SnapshotEntry::file("b.txt", id(1), 0o600),
        SnapshotEntry::dir("a"),
        SnapshotEntry::file("a/z", id(2), 0o700),
    ])
    .expect("valid entries");
    let rels: Vec<&str> = m.entries.iter().map(|e| e.rel.as_str()).collect();
    assert_eq!(rels, ["a", "a/z", "b.txt"], "raw path byte order");
    assert_eq!(m.entries[0].mode, DIR_MODE);
    assert_eq!(m.entries[1].mode, EXEC_FILE_MODE);
    assert_eq!(m.entries[2].mode, PLAIN_FILE_MODE);

    let body = serialize_entries(&m.entries);
    let mut hasher = Sha256::new();
    hasher.update(body.as_bytes());
    let digest: [u8; 32] = hasher.finalize().into();
    assert_eq!(m.hash, ContentId(digest));
}

#[test]
fn serialize_parse_round_trips_every_kind_and_escapes() {
    let entries = vec![
        SnapshotEntry::dir("dir with space"),
        SnapshotEntry::dir("empty"),
        SnapshotEntry::file("we\tird%.txt", id(1), 0o644),
        SnapshotEntry::file("x", id(2), 0o755),
        SnapshotEntry::symlink("link%one", "target with\ttab"),
        SnapshotEntry::symlink("nested/ln", "../x"),
        SnapshotEntry::dir("nested"),
    ];
    let m = Manifest::new(entries).expect("valid");
    let text = m.serialize();
    assert_eq!(
        Manifest::parse(&text).expect("parses back").entries,
        m.entries,
        "escape/unescape must round-trip every field"
    );
}

#[test]
fn parse_rejects_tampered_body_or_header() {
    let text = Manifest::new(vec![
        SnapshotEntry::file("f.txt", id(1), 0o644),
        SnapshotEntry::dir("d"),
    ])
    .unwrap()
    .serialize();
    let tampered = text.replace(&id(1).to_string(), &id(3).to_string());
    assert_ne!(tampered, text);
    assert!(Manifest::parse(&tampered).is_err());

    let body = text.split_once('\n').unwrap().1;
    let mut hasher = Sha256::new();
    hasher.update(body.as_bytes());
    let digest: [u8; 32] = hasher.finalize().into();
    let relabeled = manifest_text_for_body(body)
        .replace(&ContentId(digest).to_string(), &id(9).to_string());
    assert!(Manifest::parse(&relabeled).is_err());

    for bad in [
        "entry\tx\tfifo\t644\t-\n",
        "entry\tx\tfile\tnine\t11\n",
        "entry\tx\tfile\t644\tnot-hex\n",
        "entry\tx\tdir\t644\tblobish\n",
        "entry\t..\tdir\t755\t-\n",
        "entry\t/abs\tfile\t644\t11\n",
        "notentry\tx\tfile\t644\t11\n",
        "entry\tx\tfile\t644\n",
    ] {
        let text = manifest_text_for_body(bad);
        assert!(Manifest::parse(&text).is_err(), "{bad:?} must be rejected");
    }
}

#[test]
fn invalid_relpaths_are_rejected_before_placement() {
    for bad in ["/abs/path", "..", "a/../b", "./a", "a//b", "trailing/", "", "."] {
        let e = SnapshotEntry::file(bad, id(1), 0o644);
        assert!(Manifest::new(vec![e]).is_err(), "{bad:?} must be rejected");
    }
}

#[test]
fn kind_ref_mismatches_are_rejected() {
    let mut file = SnapshotEntry::file("f", id(1), 0o644);
    file.blob = None;
    assert!(Manifest::new(vec![file]).is_err());
    let mut dir = SnapshotEntry::dir("d");
    dir.target = Some("nope".into());
    assert!(Manifest::new(vec![dir]).is_err());
    let mut link = SnapshotEntry::symlink("l", "t");
    link.target = None;
    assert!(Manifest::new(vec![link]).is_err());
}

#[test]
fn duplicate_relpath_rejected_regardless_of_order() {
    let a = SnapshotEntry::file("same", id(1), 0o644);
    let b = SnapshotEntry::file("same", id(2), 0o644);
    assert!(Manifest::new(vec![a, b]).is_err());
}

#[test]
fn empty_manifest_is_valid_and_round_trips() {
    let m = Manifest::new(Vec::new()).unwrap();
    let text = m.serialize();
    let back = Manifest::parse(&text).unwrap();
    assert_eq!(back, m);
    assert!(back.entries.is_empty());
}

#[test]
fn header_carries_lockfile_hash_and_total_size() {
    let entries = vec![SnapshotEntry::file("dep.txt", id(5), 0o644)];
    let m = Manifest::new_with_lockfile(entries.clone(), Some(id(42))).unwrap();
    let text = m.serialize();
    assert!(text.starts_with(&format!(
        "v1\tmanifest-sha256\t{}\tlockfile-sha256\t{}\n",
        m.hash.to_string(),
        id(42).to_string()
    )));
    let back = Manifest::parse(&text).unwrap();
    assert_eq!(back.lockfile_hash, Some(id(42)));
    assert_eq!(back, m);

    let m = Manifest::new_with_lockfile_and_size(entries, None, 45).unwrap();
    let text = m.serialize();
    assert!(text.contains("\ttotal-bytes\t45"));
    let back = Manifest::parse(&text).unwrap();
    assert_eq!(back.total_size, 45);
    assert_eq!(back, m);
}

#[test]
fn torn_tail_after_the_last_newline_is_ignored() {
    let m = Manifest::new(vec![SnapshotEntry::dir("d")]).unwrap();
    let mut text = m.serialize();
    text.push_str("entry\tgarbage");
    assert_eq!(Manifest::parse(&text).unwrap(), m);
    assert!(Manifest::parse("v1\tmanifest-sha256\tabc").is_err());
}

#[test]
fn relpath_rules() {
    assert!(validate_rel("a/b/c").is_ok());
    assert!(validate_rel("a/.hidden").is_ok());
    assert!(validate_rel("a/b/").is_err());
    assert!(validate_rel("/a").is_err());
    assert_eq!(EntryKind::File, SnapshotEntry::file("x", id(1), 0o100).kind);
    assert_eq!(SnapshotEntry::file("x", id(1), 0o100).mode, EXEC_FILE_MODE);
}

#[test]
fn complete_marker_and_published_validity() {
    let m = Manifest::new(vec![SnapshotEntry::file("pkg/a.txt", id(1), 0o644)]).unwrap();
    let marker = complete_marker(&m.hash);
    assert_eq!(marker, format!("v1\t{}\n", m.hash.to_string()));
    assert!(complete_marker_ok(&marker, &m.hash));
    assert!(!complete_marker_ok(&marker, &id(7)));
    assert!(!complete_marker_ok("v2\tx\n", &m.hash));
    let text = m.serialize();
    assert_eq!(validate_published(&m.hash, &text, Some(&marker)), Some(m.clone()));
    assert_eq!(validate_published(&m.hash, &text, None), None);
    assert_eq!(validate_published(&id(7), &text, Some(&marker)), None);
    assert_eq!(validate_published(&m.hash, "garbage\n", Some(&marker)), None);
    assert_eq!(
        snapshot_path("/s", &m.hash),
        format!("/s/snapshots/{}", m.hash.to_string())
    );
    assert_eq!(
        snapshot_tree_path("/s", &m.hash),
        format!("/s/snapshots/{}/tree", m.hash.to_string())
    );
}

#[test]
fn manifest_header_lockfile_hash_round_trips_and_validates() {
    let blob = wt_store::disk::content_id(b"hello lockfile\n");
    let entries = vec![SnapshotEntry::file("dep.txt", blob, 0o644)];
    let lock_hash = id(42);

    let manifest = Manifest::new_with_lockfile(entries, Some(lock_hash)).unwrap();
    assert_eq!(manifest.lockfile_hash, Some(lock_hash));

    let serialized = manifest.serialize();
    assert!(serialized.starts_with(&format!(
        "v1\tmanifest-sha256\t{}\tlockfile-sha256\t{}\n",
        manifest.hash.to_string(),
        lock_hash.to_string()
    )));

    let parsed = Manifest::parse(&serialized).unwrap();
    assert_eq!(parsed.hash, manifest.hash);
    assert_eq!(parsed.lockfile_hash, Some(lock_hash));
    assert_eq!(parsed.entries, manifest.entries);
}

#[test]
fn manifest_header_total_bytes_round_trips_and_records_publish_size() {
    let b1 = wt_store::disk::content_id(b"content 1 (13b)");
    let b2 = wt_store::disk::content_id(b"content 2 is longer (21 bytes)");
    let entries = vec![
        SnapshotEntry::file("f1.txt", b1, 0o644),
        SnapshotEntry::file("f2.txt", b2, 0o644),
        SnapshotEntry::file("f1_dup.txt", b1, 0o644),
        SnapshotEntry::dir("sub"),
    ];

    let expected_unique_size = 15 + 30;
    let manifest = Manifest::new_with_lockfile_and_size(entries, None, expected_unique_size).unwrap();
    assert_eq!(manifest.total_size, expected_unique_size);

    let serialized = manifest.serialize();
    assert!(serialized.contains(&format!("\ttotal-bytes\t{expected_unique_size}")));

    let parsed = Manifest::parse(&serialized).unwrap();
    assert_eq!(parsed.hash, manifest.hash);
    assert_eq!(parsed.total_size, expected_unique_size);
    assert_eq!(parsed.entries, manifest.entries);
}

#[test]
fn rejections_say_what_is_wrong_in_the_checks_words() {
    assert_eq!(validate_rel(""), Err("relpath is empty".to_string()));
    assert_eq!(validate_rel("/abs"), Err("relpath \"/abs\" is absolute".to_string()));
    assert_eq!(validate_rel("a//b"), Err("relpath \"a//b\" has an empty component".to_string()));
    assert_eq!(validate_rel("a/../b"), Err("relpath \"a/../b\" contains \"..\"".to_string()));
    assert_eq!(validate_rel("tab\there/."), Err("relpath \"tab\\there/.\" contains \".\"".to_string()));
    assert_eq!(
        Manifest::new(vec![SnapshotEntry::dir("d"), SnapshotEntry::dir("d")]),
        Err("duplicate relpath \"d\"".to_string())
    );
    let mut bad = SnapshotEntry::dir("x y");
    bad.blob = Some(id(1));
    assert_eq!(Manifest::new(vec![bad]), Err("dir entry x y carries a ref".to_string()));
    let header_only = "v2\tmanifest-sha256\tzz\n";
    assert_eq!(Manifest::parse(header_only), Err("bad manifest header \"v2\\tmanifest-sha256\\tzz\"".to_string()));
    assert_eq!(
        Manifest::parse("v1\tmanifest-sha256\tzz\n"),
        Err("malformed manifest hash \"zz\"".to_string())
    );
}

#[test]
fn manifest_is_the_same_whatever_the_input_order() {
    let a = Manifest::new(vec![
        SnapshotEntry::file("b.txt", id(1), 0o644),
        SnapshotEntry::dir("a"),
        SnapshotEntry::symlink("a/link", "../b.txt"),
        SnapshotEntry::file("a/z", id(2), 0o755),
    ])
    .expect("valid entries");
    let b = Manifest::new(vec![
        SnapshotEntry::file("a/z", id(2), 0o755),
        SnapshotEntry::symlink("a/link", "../b.txt"),
        SnapshotEntry::file("b.txt", id(1), 0o644),
        SnapshotEntry::dir("a"),
    ])
    .expect("valid entries");
    assert_eq!(a, b);
}
