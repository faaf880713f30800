use wt_store::stamp::Timestamp;
use wt_store::verified::{Fingerprint, VerifiedLedger};
use wt_store::ContentId;

#[test]
fn record_match_forget_and_round_trip() {
    let mut l = VerifiedLedger::open("/store", None);
    assert!(l.is_empty());
    let t = Timestamp { secs: 1_700_000_000, nanos: 42 };
    l.record(ContentId([5u8; 32]), Fingerprint { size: 10, mtime: t });
    l.record(ContentId([1u8; 32]), Fingerprint { size: 20, mtime: t });
    assert_eq!(l.len(), 2);
    assert!(l.matches(&ContentId([5u8; 32]), 10, t));
    assert!(!l.matches(&ContentId([5u8; 32]), 11, t));
    assert!(!l.matches(&ContentId([5u8; 32]), 10, Timestamp { secs: 1_700_000_000, nanos: 43 }));
    assert!(!l.matches(&ContentId([6u8; 32]), 10, t));

    let text = l.serialize();
    assert!(text.starts_with(&ContentId([1u8; 32]).to_string()));
    let back = VerifiedLedger::open("/store", Some(&text));
    assert_eq!(back.len(), 2);
    assert!(back.matches(&ContentId([1u8; 32]), 20, t));
    assert!(!back.is_dirty());

    l.mark_saved();
    l.forget(&ContentId([9u8; 32]));
    assert!(!l.is_dirty(), "forgetting an unknown blob changes nothing");
    l.forget(&ContentId([5u8; 32]));
    assert!(l.is_dirty());
    assert_eq!(l.len(), 1);
    assert_eq!(l.path(), "/store/verified.tsv");
}

#[test]
fn ledger_drops_malformed_lines() {
    let good = format!("{}\t3\t4\t5\n", ContentId([7u8; 32]).to_string());
    let text = format!("{good}nothex\t1\t2\t3\n{}\t1\t2\t3\textra\n{}\t1\t2\n", ContentId([8u8; 32]).to_string(), ContentId([9u8; 32]).to_string());
    let l = VerifiedLedger::open("", Some(&text));
    assert_eq!(l.len(), 1);
    assert!(l.matches(&ContentId([7u8; 32]), 3, Timestamp { secs: 4, nanos: 5 }));
}
