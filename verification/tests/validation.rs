use wt_store::stamp::Timestamp;
use wt_store::validation::{Entry, ValidationCache};
use wt_store::ContentId;

#[test]
fn parse_handles_both_current_and_legacy_formats() {
    let text = "current.txt\t100\t1700000000\t50\t123456\t1700000001\t60\t0123456789abcdef0123456789abcdef0123456789abcdef0123456789abcdef\n\
                legacy.txt\t200\t1700000000\t0\t0123456789abcdef0123456789abcdef0123456789abcdef0123456789abcdef\n\
                corrupt\tnot\tenough\ttabs\n";
    let parsed = ValidationCache::open("", Some(text));
    assert_eq!(parsed.len(), 2);

    let cur = parsed.get("current.txt").unwrap();
    assert_eq!(cur.size, 100);
    assert_eq!(cur.inode, 123456);
    assert_eq!(cur.ctime, Timestamp::from_parts(1700000001, 60).unwrap());

    let leg = parsed.get("legacy.txt").unwrap();
    assert_eq!(leg.size, 200);
    assert_eq!(leg.inode, 0);
    assert_eq!(leg.ctime, Timestamp::epoch());
}

#[test]
fn lookup_at_near_now_rehashes() {
    let mut cache = ValidationCache::open("", None);
    let mtime = Timestamp { secs: 1_700_000_000, nanos: 0 };
    let ctime = Timestamp { secs: 1_700_000_000, nanos: 0 };
    let id = ContentId([1u8; 32]);
    cache.record(
        "file.txt".into(),
        Entry {
            size: 50,
            mtime,
            inode: 999,
            ctime,
            id,
        },
    );

    let now_near = Timestamp { secs: 1_700_000_001, nanos: 0 };
    assert_eq!(
        cache.lookup_at("file.txt", 50, mtime, 999, ctime, now_near),
        None
    );

    let now_far = Timestamp { secs: 1_700_000_010, nanos: 0 };
    assert_eq!(
        cache.lookup_at("file.txt", 50, mtime, 999, ctime, now_far),
        Some(id)
    );

    assert_eq!(
        cache.lookup_at("file.txt", 50, mtime, 1000, ctime, now_far),
        None
    );

    let ctime_moved = Timestamp { secs: 1_700_000_001, nanos: 0 };
    assert_eq!(
        cache.lookup_at("file.txt", 50, mtime, 999, ctime_moved, now_far),
        None
    );
}

#[test]
fn cache_text_round_trips_and_tracks_dirtiness() {
    let mut cache = ValidationCache::open("/store", None);
    assert!(cache.is_empty());
    assert!(!cache.is_dirty());
    let e = Entry {
        size: 7,
        mtime: Timestamp { secs: 10, nanos: 5 },
        inode: 3,
        ctime: Timestamp { secs: 11, nanos: 6 },
        id: ContentId([9u8; 32]),
    };
    cache.record("b".to_string(), e);
    cache.record("a".to_string(), e);
    assert!(cache.is_dirty());
    let text = cache.serialize();
    assert!(text.starts_with("a\t7\t10\t5\t3\t11\t6\t"));
    let back = ValidationCache::open("/store", Some(&text));
    assert_eq!(back.len(), 2);
    assert_eq!(back.get("b"), Some(e));
    cache.mark_saved();
    assert!(!cache.is_dirty());
    assert_eq!(cache.path(), "/store/ingest-cache.tsv");
    // Nanoseconds beyond a second carry into the seconds.
    let carried = ValidationCache::open(
        "",
        Some("x\t1\t5\t1500000000\t0123456789abcdef0123456789abcdef0123456789abcdef0123456789abcdef\n"),
    );
    assert_eq!(carried.get("x").unwrap().mtime, Timestamp { secs: 6, nanos: 500_000_000 });
}

#[test]
fn mtime_mismatch_and_unknown_paths_miss() {
    let mut cache = ValidationCache::open("", None);
    let mtime = Timestamp { secs: 100, nanos: 0 };
    cache.record(
        "f".to_string(),
        Entry { size: 1, mtime, inode: 0, ctime: Timestamp::epoch(), id: ContentId([2u8; 32]) },
    );
    let now = Timestamp { secs: 1000, nanos: 0 };
    let other = Timestamp { secs: 5, nanos: 0 };
    assert_eq!(cache.lookup_at("f", 1, mtime, 77, other, now), Some(ContentId([2u8; 32])));
    assert_eq!(cache.lookup_at("f", 2, mtime, 77, other, now), None);
    assert_eq!(cache.lookup_at("f", 1, other, 77, other, now), None);
    assert_eq!(cache.lookup_at("g", 1, mtime, 77, other, now), None);
    // An mtime in the future but close is still near now.
    let ahead = Timestamp { secs: 1001, nanos: 0 };
    assert_eq!(cache.lookup_at("f", 1, mtime, 0, other, Timestamp { secs: 99, nanos: 0 }), None);
    assert!(ahead.secs > now.secs);
}

/// A source file as the ingest walk would stat it: its size, an mtime
/// backdated to 1_700_000_000, an inode and a ctime.
fn stat_of(text: &str) -> (u64, Timestamp, u64, Timestamp) {
    (
        text.len() as u64,
        Timestamp { secs: 1_700_000_000, nanos: 0 },
        4242,
        Timestamp { secs: 1_700_000_500, nanos: 17 },
    )
}

/// Far from the backdated mtime, so the near-now guard never fires.
fn later() -> Timestamp {
    Timestamp { secs: 1_800_000_000, nanos: 0 }
}

fn record_for(cache: &mut ValidationCache, text: &str) -> ContentId {
    let id = wt_store::disk::content_id(text.as_bytes());
    let (size, mtime, inode, ctime) = stat_of(text);
    cache.record("heavy/file.txt".to_string(), Entry { size, mtime, inode, ctime, id });
    id
}

fn reopen(cache: &ValidationCache) -> ValidationCache {
    ValidationCache::open("/store", Some(&cache.serialize()))
}

#[test]
fn cache_hits_on_unchanged_file() {
    let mut cache = ValidationCache::open("/store", None);
    assert!(cache.is_empty(), "fresh store has no cache yet");
    let id = record_for(&mut cache, "version one\n");
    let reopened = reopen(&cache);
    let (size, mtime, inode, ctime) = stat_of("version one\n");
    assert_eq!(
        reopened.lookup_at("heavy/file.txt", size, mtime, inode, ctime, later()),
        Some(id),
        "unchanged size+mtime+inode+ctime must be a hit"
    );
}

#[test]
fn cache_misses_on_mtime_change_with_same_size() {
    let mut cache = ValidationCache::open("/store", None);
    let id = record_for(&mut cache, "touch me\n");
    let reopened = reopen(&cache);
    let (size, mtime, inode, ctime) = stat_of("touch me\n");
    let touched = Timestamp { secs: mtime.secs + 1, nanos: mtime.nanos };
    assert_eq!(
        reopened.lookup_at("heavy/file.txt", size, touched, inode, ctime, later()),
        None,
        "a bumped mtime must be re-hashed even at the same size"
    );
    assert_eq!(reopened.lookup_at("heavy/file.txt", size, mtime, inode, ctime, later()), Some(id));
}

#[test]
fn cache_misses_on_size_change_with_same_mtime() {
    let mut cache = ValidationCache::open("/store", None);
    let id = record_for(&mut cache, "grow me\n");
    let reopened = reopen(&cache);
    let (size, mtime, inode, ctime) = stat_of("grow me\n");
    assert_eq!(
        reopened.lookup_at("heavy/file.txt", size + 1, mtime, inode, ctime, later()),
        None,
        "a changed size must be re-hashed even at the same mtime"
    );
    assert_eq!(reopened.lookup_at("heavy/file.txt", size, mtime, inode, ctime, later()), Some(id));
}

#[test]
fn pre_existing_store_without_cache_opens_empty_and_populates() {
    let mut cache = ValidationCache::open("/store", None);
    assert!(cache.is_empty(), "missing cache must open empty");
    let id = record_for(&mut cache, "first ingest ever\n");
    let reopened = reopen(&cache);
    let (size, mtime, inode, ctime) = stat_of("first ingest ever\n");
    assert_eq!(reopened.len(), 1);
    assert_eq!(reopened.lookup_at("heavy/file.txt", size, mtime, inode, ctime, later()), Some(id));
}
