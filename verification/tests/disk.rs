use sha2::{Digest as _, Sha256};

use wt_store::disk::{
    check_digest, check_stream, checked_content, stream_content_id, content_id, ids_from_names, next_ref_on_add,
    next_ref_on_release, parse_ref_count, ref_count_of, ref_count_text, DiskStore, RefFile, Swept,
};
use wt_store::stamp::Timestamp;
use wt_store::hash::Sha256Stream;
use wt_store::stub::StubStore;
use wt_store::verified::Fingerprint;
use wt_store::{ContentId, Error, Store};

fn id(n: u8) -> ContentId {
    let mut bytes = [0u8; 32];
    bytes[0] = n;
    bytes[31] = n;
    ContentId(bytes)
}

#[test]
fn layout_paths_live_under_the_root() {
    let store = DiskStore::open("/s", None);
    assert_eq!(store.root(), "/s");
    let hex = id(0xab).to_string();
    assert_eq!(store.object_path(&id(0xab)), format!("/s/objects/{}/{}", &hex[..2], &hex[2..]));
    assert_eq!(store.blob_path(&id(0xab)), store.object_path(&id(0xab)));
    assert_eq!(store.ref_path(&id(1)), format!("/s/refs/{}", id(1).to_string()));
    assert_eq!(store.snapshot_path(&id(1)), format!("/s/snapshots/{}", id(1).to_string()));
    assert_eq!(store.ledger_path(), "/s/verified.tsv");
}

#[test]
fn put_addresses_content_by_sha256() {
    let a = content_id(b"hello world");
    let digest: [u8; 32] = Sha256::digest(b"hello world").into();
    assert_eq!(a, ContentId(digest));
    assert_eq!(content_id(b"hello world"), a);
    assert_ne!(content_id(b"hello world!"), a);
    assert_eq!(
        a.to_string(),
        "b94d27b9934d3e08a52e52d7da7dabfac484efe37a5380ee9088f7ace2efcde9"
    );
}

#[test]
fn corrupted_content_is_an_error_not_bad_bytes() {
    let a = content_id(b"payload");
    assert_eq!(checked_content(&a, b"payload".to_vec()).unwrap(), b"payload".to_vec());
    assert!(matches!(checked_content(&a, b"tampered".to_vec()), Err(Error::Corrupted(x)) if x == a));
    assert!(check_digest(&a, a.0).is_ok());
    assert!(matches!(check_digest(&a, id(3).0), Err(Error::Corrupted(x)) if x == a));
}

#[test]
fn ref_count_files_round_trip() {
    assert_eq!(ref_count_text(42), "42\n");
    assert_eq!(parse_ref_count(&ref_count_text(0)), Some(0));
    assert_eq!(parse_ref_count(&ref_count_text(u64::MAX)), Some(u64::MAX));
    assert_eq!(parse_ref_count("  7\t"), Some(7));
    assert_eq!(parse_ref_count("seven"), None);
    assert_eq!(parse_ref_count(""), None);
}

#[test]
fn reference_counts_increment_decrement_and_underflow() {
    let x = id(5);
    assert_eq!(next_ref_on_add(&x, RefFile::Missing, true).unwrap(), 1);
    assert_eq!(next_ref_on_add(&x, RefFile::Count(1), true).unwrap(), 2);
    assert!(matches!(next_ref_on_add(&x, RefFile::Missing, false), Err(Error::UnknownContent(y)) if y == x));
    assert_eq!(next_ref_on_release(&x, true, RefFile::Count(2)).unwrap(), 1);
    assert!(matches!(next_ref_on_release(&x, true, RefFile::Count(0)), Err(Error::RefCountUnderflow(y)) if y == x));
    assert!(matches!(next_ref_on_release(&x, true, RefFile::Missing), Err(Error::RefCountUnderflow(_))));
    assert!(matches!(next_ref_on_release(&x, false, RefFile::Count(3)), Err(Error::RefCountUnderflow(_))));
    assert_eq!(ref_count_of(&x, true, RefFile::Missing).unwrap(), 0);
    assert_eq!(ref_count_of(&x, true, RefFile::Count(9)).unwrap(), 9);
    assert!(matches!(ref_count_of(&x, false, RefFile::Count(9)), Err(Error::UnknownContent(_))));
}

#[test]
fn listing_names_gives_sorted_distinct_ids() {
    let hex = |n: u8| id(n).to_string();
    let names = vec![
        (hex(9)[..2].to_string(), hex(9)[2..].to_string()),
        (hex(1)[..2].to_string(), hex(1)[2..].to_string()),
        ("zz".to_string(), "not-hex".to_string()),
        (hex(1)[..2].to_string(), hex(1)[2..].to_string()),
    ];
    let ids = ids_from_names(&names);
    assert_eq!(ids.len(), 2);
    assert_eq!(ids.get(0), id(1));
    assert_eq!(ids.get(1), id(9));
}

#[test]
fn ledger_updates_are_pending_until_saved() {
    let mut store = DiskStore::open("/s", None);
    assert!(store.pending_ledger().is_none());
    let t = Timestamp { secs: 10, nanos: 5 };
    assert!(!store.is_verified(&id(1), 3, t));
    store.record_verified(id(1), Fingerprint { size: 3, mtime: t });
    assert!(store.is_verified(&id(1), 3, t));
    assert!(!store.is_verified(&id(1), 4, t));
    let text = store.pending_ledger().expect("dirty");
    store.ledger_saved();
    assert!(store.pending_ledger().is_none());
    let reopened = DiskStore::open("/s", Some(&text));
    assert!(reopened.is_verified(&id(1), 3, t));
    store.forget_verified(&id(1));
    assert!(!store.is_verified(&id(1), 3, t));
    assert!(store.pending_ledger().is_some());
}

#[test]
fn swept_is_plain_counts() {
    let s = Swept { examined: 3, reclaimed: 1 };
    assert_eq!(s, Swept { examined: 3, reclaimed: 1 });
}

#[test]
fn stub_store_holds_nothing() {
    let mut s = StubStore;
    assert!(matches!(s.put(b"x"), Err(Error::Io(_))));
    assert!(matches!(s.get(&id(1)), Err(Error::UnknownContent(_))));
    assert!(!s.contains(&id(1)));
    assert!(matches!(s.add_ref(&id(1)), Err(Error::UnknownContent(_))));
    assert!(matches!(s.release_ref(&id(1)), Err(Error::RefCountUnderflow(_))));
    assert!(matches!(s.ref_count(&id(1)), Err(Error::UnknownContent(_))));
}

#[test]
fn streamed_chunks_hash_as_the_whole() {
    let mut s = Sha256Stream::new();
    s.update(b"hello ");
    s.update(b"");
    s.update(b"world");
    let streamed = stream_content_id(s);
    assert_eq!(streamed, content_id(b"hello world"));
    let digest: [u8; 32] = Sha256::digest(b"hello world").into();
    assert_eq!(streamed.0, digest);
    assert_eq!(stream_content_id(Sha256Stream::new()), content_id(b""));
}

#[test]
fn check_stream_accepts_only_the_matching_address() {
    let good = content_id(b"blob");
    let mut s = Sha256Stream::new();
    s.update(b"bl");
    s.update(b"ob");
    assert!(check_stream(&good, s).is_ok());
    let mut s = Sha256Stream::new();
    s.update(b"blob!");
    assert!(matches!(check_stream(&good, s), Err(Error::Corrupted(x)) if x == good));
}
