use wt_store::sidecar::{parse_sidecar, sidecar_text};
use wt_store::ContentId;

fn id(n: u8) -> ContentId {
    let mut bytes = [0u8; 32];
    bytes[0] = n;
    bytes[31] = n;
    ContentId(bytes)
}

#[test]
fn sidecar_rows_read_back_as_blobs_and_snapshot() {
    let files = vec![
        ("a/b.txt".to_string(), id(1)),
        ("c d".to_string(), id(2)),
        ("dup".to_string(), id(1)),
    ];
    let text = sidecar_text(&files, Some(id(9)));
    assert_eq!(
        text,
        format!(
            "a/b.txt\tblob\t{}\nc d\tblob\t{}\ndup\tblob\t{}\n-\tsnapshot\t{}\n",
            id(1).to_string(),
            id(2).to_string(),
            id(1).to_string(),
            id(9).to_string()
        )
    );
    let (blobs, snaps) = parse_sidecar(&text);
    assert_eq!(blobs.len(), 2);
    assert_eq!(blobs.get(0), id(1));
    assert_eq!(blobs.get(1), id(2));
    assert_eq!(snaps.len(), 1);
    assert_eq!(snaps.get(0), id(9));
}

#[test]
fn sidecar_reader_accepts_legacy_rows_and_skips_junk() {
    let text = format!(
        "x\t{}\r\n\nbad\tblob\tzz\ny\tother\t{}\n{}\n",
        id(3).to_string(),
        id(4).to_string(),
        id(5).to_string()
    );
    let (blobs, snaps) = parse_sidecar(&text);
    assert_eq!(blobs.len(), 1);
    assert_eq!(blobs.get(0), id(3));
    assert!(snaps.is_empty());
    assert_eq!(sidecar_text(&vec![], None), "");
}
