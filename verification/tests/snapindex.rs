use wt_store::snapindex::{
    hit_line, journal_path, lru_path, parse_journal_line, publish_line, touch_line,
    JournalEntry, SelectionIndex, SnapshotLru,
};
use wt_store::ContentId;

fn id(n: u8) -> ContentId {
    let mut bytes = [0u8; 32];
    bytes[0] = n;
    bytes[31] = n;
    ContentId(bytes)
}

const ROOT_A: &str = "/repos/alpha";
const PAT: &str = "node_modules/";
const HEAVY: &str = "node_modules";

#[test]
fn ring_dedups_moves_to_front_and_truncates_at_three() {
    let mut idx = SelectionIndex::default();
    idx.record_publish(ROOT_A, PAT, HEAVY, &id(1), 1);
    idx.record_publish(ROOT_A, PAT, HEAVY, &id(2), 2);
    idx.record_publish(ROOT_A, PAT, HEAVY, &id(3), 3);
    assert_eq!(
        idx.records[0].ring,
        vec![id(3), id(2), id(1)],
        "newest first"
    );

    idx.record_publish(ROOT_A, PAT, HEAVY, &id(4), 4);
    assert_eq!(idx.records[0].ring, vec![id(4), id(3), id(2)]);

    idx.record_publish(ROOT_A, PAT, HEAVY, &id(3), 5);
    assert_eq!(idx.records[0].ring, vec![id(3), id(4), id(2)]);
    assert_eq!(idx.records[0].mtime_secs, 5);

    idx.record_hit(ROOT_A, PAT, HEAVY, &id(3));
    assert_eq!(idx.records[0].ring, vec![id(3), id(4), id(2)]);
    assert_eq!(idx.records[0].mtime_secs, 5, "hit must not refresh mtime");

    idx.record_hit(ROOT_A, PAT, HEAVY, &id(2));
    assert_eq!(idx.records[0].ring, vec![id(2), id(3), id(4)]);
    assert_eq!(idx.records[0].mtime_secs, 5);

    assert_eq!(idx.records.len(), 1);
    idx.record_publish("/other", PAT, HEAVY, &id(9), 7);
    assert_eq!(idx.records.len(), 2);
    assert_eq!(idx.records[1].ring, vec![id(9)]);
}

#[test]
fn round_trips_weird_paths_and_multiple_keys() {
    let mut idx = SelectionIndex::default();
    idx.record_publish("/repo %40/we\tird", "%09pattern\n", "heavy%dir", &id(1), 100);
    idx.record_publish(ROOT_A, PAT, HEAVY, &id(2), 200);
    let back = SelectionIndex::parse(&idx.serialize());
    assert_eq!(back, idx, "escaped round-trip must be lossless");
}

#[test]
fn corrupt_lines_are_dropped_silently() {
    let good = format!("{}\t{}\t{}\t{}\t42\n", ROOT_A, PAT, HEAVY, id(5).to_string());
    let text = format!(
        "{good}not enough fields\n{ROOT_A}\tp\t{HEAVY}\tnot-hex,also-bad\t7\n\
         {ROOT_A}\t{PAT}\t{HEAVY}\tbad-hex\t9\ngarbage-without-tabs\n\
         {ROOT_A}%leftover"
    );
    let idx = SelectionIndex::parse(&text);
    assert_eq!(idx.records.len(), 1, "only the good line survives");
    assert_eq!(idx.records[0].ring, vec![id(5)]);
    assert_eq!(idx.records[0].mtime_secs, 42);
}

#[test]
fn torn_tail_and_duplicate_keys_are_tolerated() {
    assert_eq!(SelectionIndex::parse(""), SelectionIndex::default());
    let good = format!("{}\t{}\t{}\t{}\t1\n", ROOT_A, PAT, HEAVY, id(6).to_string());
    let idx = SelectionIndex::parse(&format!("{good}{good}"));
    assert_eq!(idx.records.len(), 1);
    let newer = format!("{}\t{}\t{}\t{},{}\t9\n", ROOT_A, PAT, HEAVY, id(7).to_string(), id(6).to_string());
    let idx = SelectionIndex::parse(&format!("{good}{newer}"));
    assert_eq!(idx.records.len(), 1);
    assert_eq!(idx.records[0].ring, vec![id(7), id(6)]);
    assert_eq!(idx.records[0].mtime_secs, 9);
}

#[test]
fn journal_replay_matches_direct_updates() {
    let mut direct = SelectionIndex::default();
    direct.record_publish(ROOT_A, PAT, HEAVY, &id(1), 10);
    direct.record_publish(ROOT_A, PAT, HEAVY, &id(2), 20);
    direct.record_hit(ROOT_A, PAT, HEAVY, &id(1));
    let journal = format!(
        "{}{}corrupt\tinvalid\tformat\n{}{}",
        publish_line(ROOT_A, PAT, HEAVY, &id(1), 10),
        publish_line(ROOT_A, PAT, HEAVY, &id(2), 20),
        hit_line(ROOT_A, PAT, HEAVY, &id(1), 30),
        touch_line(&id(3), 40),
    );
    let mut replayed = SelectionIndex::default();
    replayed.apply_journal(&journal);
    assert_eq!(replayed, direct);
    assert_eq!(replayed.records[0].ring, vec![id(1), id(2)]);

    let mut lru = SnapshotLru::default();
    lru.apply_journal(&journal);
    assert_eq!(lru.last_use(&id(1)), Some(30));
    assert_eq!(lru.last_use(&id(2)), Some(20));
    assert_eq!(lru.last_use(&id(3)), Some(40));
    assert_eq!(lru.entries.len(), 3);
}

#[test]
fn journal_lines_parse_back() {
    let line = publish_line("/r\tx", "p", "h", &id(4), 77);
    assert!(line.starts_with("publish\t"));
    let chars: Vec<char> = line.trim_end_matches('\n').chars().collect();
    match parse_journal_line(&chars) {
        Some(JournalEntry::Publish { repo_root, pattern, heavy_dir, hash, timestamp }) => {
            assert_eq!(repo_root, "/r\tx");
            assert_eq!(pattern, "p");
            assert_eq!(heavy_dir, "h");
            assert_eq!(hash, id(4));
            assert_eq!(timestamp, 77);
        }
        _ => panic!("publish line must parse back"),
    }
    let lru: Vec<char> = format!("lru\t{}\t5", id(2).to_string()).chars().collect();
    assert!(matches!(parse_journal_line(&lru), Some(JournalEntry::Touch { timestamp: 5, .. })));
    let bad: Vec<char> = "hit\tonly\tthree".chars().collect();
    assert!(parse_journal_line(&bad).is_none());
}

#[test]
fn lru_sidecar_round_trips_and_tolerates_garbage() {
    let mut lru = SnapshotLru::default();
    lru.record(&id(1), 100);
    lru.record(&id(2), 200);
    lru.record(&id(1), 150);
    let back = SnapshotLru::parse(&lru.serialize());
    assert_eq!(back, lru);
    assert_eq!(back.entries.len(), 2);
    assert_eq!(back.last_use(&id(1)), Some(150));
    assert_eq!(back.last_use(&id(2)), Some(200));
    assert_eq!(back.last_use(&id(3)), None);

    let good = format!("{}\t42\n", id(5).to_string());
    let text = format!(
        "not-hex\t7\n{good}{}\tnot-a-number\n{}extra\t9\n{good}",
        id(6).to_string(),
        id(7).to_string()
    );
    let lru = SnapshotLru::parse(&text);
    assert_eq!(lru.entries, vec![(id(5), 42)]);
}

#[test]
fn ring_lookup_and_paths() {
    let mut idx = SelectionIndex::default();
    idx.record_publish(ROOT_A, PAT, HEAVY, &id(1), 1);
    idx.record_publish(ROOT_A, PAT, HEAVY, &id(2), 2);
    assert_eq!(idx.ring_for(ROOT_A, PAT, HEAVY), vec![id(2), id(1)]);
    assert!(idx.ring_for("/unknown", PAT, HEAVY).is_empty());
    assert_eq!(journal_path("/s"), "/s/snapshots/journal.tsv");
    assert_eq!(lru_path("/s/"), "/s/snapshots/lru.tsv");
}

#[test]
fn missing_lru_loads_empty() {
    let lru = SnapshotLru::parse("");
    assert!(lru.entries.is_empty());
    assert_eq!(lru.last_use(&id(1)), None);
    assert_eq!(lru, SnapshotLru::default());
    assert_eq!(SelectionIndex::parse(""), SelectionIndex::default());
}

#[test]
fn replayed_publish_leads_the_ring_and_records_last_use() {
    let mut journal = hit_line(ROOT_A, PAT, HEAVY, &id(1), 5);
    journal.push_str(&publish_line(ROOT_A, PAT, HEAVY, &id(2), 9));
    journal.push_str(&publish_line(ROOT_A, PAT, HEAVY, &id(3), 42));
    let mut idx = SelectionIndex::default();
    idx.apply_journal(&journal);
    assert_eq!(idx.ring_for(ROOT_A, PAT, HEAVY), vec![id(3), id(2), id(1)]);
    let mut lru = SnapshotLru::default();
    lru.apply_journal(&journal);
    assert_eq!(lru.last_use(&id(3)), Some(42));
}

#[test]
fn compaction_leaves_the_loaded_state_unchanged() {
    let mut idx0 = SelectionIndex::default();
    idx0.record_publish(ROOT_A, PAT, HEAVY, &id(1), 1);
    let mut lru0 = SnapshotLru::default();
    lru0.record(&id(1), 1);
    let index_text = idx0.serialize();
    let lru_text = lru0.serialize();
    let mut journal = publish_line(ROOT_A, PAT, HEAVY, &id(2), 7);
    journal.push_str(&touch_line(&id(1), 8));
    journal.push_str("publish\ttorn");
    let load = |it: &str, lt: &str, j: &str| {
        let mut i = SelectionIndex::parse(it);
        i.apply_journal(j);
        let mut l = SnapshotLru::parse(lt);
        l.apply_journal(j);
        (i, l)
    };
    let before = load(&index_text, &lru_text, &journal);
    let cut = journal.rfind('\n').map(|p| p + 1).unwrap();
    let (complete, tail) = journal.split_at(cut);
    let (idx, lru) = load(&index_text, &lru_text, complete);
    let after = load(&idx.serialize(), &lru.serialize(), tail);
    assert_eq!(after, before);
    assert_eq!(before.0.ring_for(ROOT_A, PAT, HEAVY), vec![id(2), id(1)]);
    assert_eq!(before.1.last_use(&id(1)), Some(8));
}
