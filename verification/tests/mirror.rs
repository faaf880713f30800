use wt_store::idset::IdSet;
use wt_store::mirror::{escape, mirror_path, unescape, worktree_key, StoreMirror};
use wt_store::ContentId;

fn mirror_with_weird_paths() -> StoreMirror {
    let mut m = StoreMirror::new(
        "/tmp/a b/c\u{1f600}\tdir".to_string(),
        "/tmp/x%20y/.git\nworktrees\nw".to_string(),
    );
    m.files.insert(ContentId([1u8; 32]));
    m.files.insert(ContentId([2u8; 32]));
    m.snapshots.insert(ContentId([3u8; 32]));
    m
}

#[test]
fn escape_round_trips_tabs_newlines_percent_and_unicode() {
    let weird = "space and\ttab\nnewline\rret %25 literal %zz \u{1f600}";
    let escaped = escape(weird);
    assert!(!escaped.contains('\t'));
    assert!(!escaped.contains('\n'));
    assert_eq!(unescape(&escaped).unwrap(), weird);
}

#[test]
fn unescape_rejects_unknown_escapes() {
    assert!(unescape("%41").is_err(), "%41 was never emitted");
    assert!(unescape("tail %").is_err());
    assert!(unescape("plain").is_ok());
}

#[test]
fn mirror_serialization_round_trips_weird_paths() {
    let m = mirror_with_weird_paths();
    let text = m.serialize();
    assert_eq!(text.lines().count(), 4);
    assert_eq!(StoreMirror::parse(&text).unwrap(), m);
}

#[test]
fn key_is_stable_and_identity_sensitive() {
    let a = worktree_key("/w/one", "/r/.git/worktrees/one");
    assert_eq!(a, worktree_key("/w/one", "/r/.git/worktrees/one"));
    assert_ne!(a, worktree_key("/w/two", "/r/.git/worktrees/one"));
    assert_ne!(a, worktree_key("/w/one", "/r/.git/worktrees/two"));
}

#[test]
fn torn_final_line_is_ignored_not_fatal() {
    let m = mirror_with_weird_paths();
    let mut text = m.serialize();
    text.push_str("file\tdeadbeef");
    let parsed = StoreMirror::parse(&text).unwrap();
    assert_eq!(parsed, m, "the torn record must vanish, the rest hold");
}

#[test]
fn missing_header_rejects_the_mirror() {
    assert!(StoreMirror::parse("file\t00\n").is_err());
    assert!(StoreMirror::parse("").is_err());
    assert!(StoreMirror::parse("garbage\n").is_err());
}

#[test]
fn duplicate_header_rejects_the_mirror() {
    let m = mirror_with_weird_paths();
    let text = m.serialize();
    let header = text.lines().next().unwrap();
    assert!(StoreMirror::parse(&format!("{text}{header}\n")).is_err());
}

#[test]
fn unknown_record_type_rejects_the_mirror() {
    let m = mirror_with_weird_paths();
    let mut text = m.serialize();
    text.push_str("future\twhatever\n");
    assert!(
        StoreMirror::parse(&text).is_err(),
        "v1 declares no optional records"
    );
}

#[test]
fn malformed_id_rejects_the_mirror() {
    let m = mirror_with_weird_paths();
    let mut text = m.serialize();
    text.push_str("file\tnot-hex\n");
    assert!(StoreMirror::parse(&text).is_err());
}

#[test]
fn escape_writes_exactly_the_four_escapes() {
    assert_eq!(escape("a%b\tc\nd\re"), "a%25b%09c%0Ad%0De");
    assert!(unescape("%0a%0d").is_err());
    assert!(unescape("%2").is_err());
}

#[test]
fn duplicate_file_record_rejects_the_mirror() {
    let m = mirror_with_weird_paths();
    let mut text = m.serialize();
    text.push_str(&format!("file\t{}\n", ContentId([1u8; 32]).to_string()));
    assert!(StoreMirror::parse(&text).is_err());
}

#[test]
fn empty_paths_in_header_reject_the_mirror() {
    assert!(StoreMirror::parse("v1\tworktree\t\t/g\n").is_err());
    assert!(StoreMirror::parse("v1\tworktree\t/w\t\n").is_err());
}

#[test]
fn ids_serialize_in_sorted_order() {
    let mut m = StoreMirror::new("/w".to_string(), "/g".to_string());
    m.files.insert(ContentId([9u8; 32]));
    m.files.insert(ContentId([4u8; 32]));
    let text = m.serialize();
    let lines: Vec<&str> = text.lines().collect();
    assert_eq!(lines[1], format!("file\t{}", ContentId([4u8; 32]).to_string()));
    assert_eq!(lines[2], format!("file\t{}", ContentId([9u8; 32]).to_string()));
    let mut set = IdSet::new();
    assert!(set.insert(ContentId([4u8; 32])));
    assert!(!set.insert(ContentId([4u8; 32])));
    assert_eq!(set.len(), 1);
}

#[test]
fn key_is_the_sha256_of_the_identity_string() {
    // sha256("version=1\0/w\0/g")
    let k = worktree_key("/w", "/g");
    assert_eq!(k.len(), 64);
    assert!(k.chars().all(|c| c.is_ascii_hexdigit() && !c.is_ascii_uppercase()));
    assert_eq!(mirror_path("/root", "/w", "/g"), format!("/root/worktrees/{k}.tsv"));
}

#[test]
fn escape_and_record_complaints_name_the_offending_text() {
    assert_eq!(unescape("a%zz"), Err("malformed % escape %zz".to_string()));
    assert_eq!(unescape("a%41"), Err("unexpected % escape %41 (0x41)".to_string()));
    assert_eq!(unescape("a%+5"), Err("unexpected % escape %+5 (0x05)".to_string()));
    assert_eq!(unescape("a%+9"), Err("unexpected % escape %+9 (0x09)".to_string()));
    assert_eq!(unescape("a%0a"), Err("unexpected % escape %0a (0x0a)".to_string()));
    assert_eq!(unescape("a%0A%09%0D%25"), Ok("a\n\t\r%".to_string()));
    assert_eq!(unescape("a%"), Err("field ends with a bare %".to_string()));
    assert_eq!(
        StoreMirror::parse("v1\tworktree\t/w\t/g\nblob\tx\n").unwrap_err(),
        "unknown record type \"blob\""
    );
    assert_eq!(
        StoreMirror::parse("v2\tworktree\t/w\t/g\n").unwrap_err(),
        "bad v1 header line \"v2\\tworktree\\t/w\\t/g\""
    );
}
