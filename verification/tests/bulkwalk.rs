use wt_store::bulkwalk::{
    next_scratch_capacity, parse_bulk_buffer, parse_record, BulkEntry, BulkParseError,
    INITIAL_BUFFER_CAPACITY, MAX_BUFFER_CAPACITY, REQUEST_COMMON, REQUEST_FILE, VDIR, VLNK, VREG,
};

/// Encode a synthetic attribute-buffer record with a raw name.
fn encode_record_bytes(
    name_bytes: &[u8],
    vtype: u32,
    size: u64,
    mtime_secs: i64,
    mtime_nanos: i64,
    mode: u32,
    error_slot: u32,
) -> Vec<u8> {
    let mut rec = Vec::new();
    rec.extend_from_slice(&[0u8; 4]);
    rec.extend_from_slice(&REQUEST_COMMON.to_le_bytes());
    rec.extend_from_slice(&0u32.to_le_bytes());
    rec.extend_from_slice(&0u32.to_le_bytes());
    let filebits = if vtype == VREG { REQUEST_FILE } else { 0 };
    rec.extend_from_slice(&filebits.to_le_bytes());
    rec.extend_from_slice(&error_slot.to_le_bytes());

    let fixed_len = if filebits != 0 { 64 } else { 56 };
    let dataoffset: i32 = fixed_len - 24;
    let name_len = (name_bytes.len() + 1) as u32;
    rec.extend_from_slice(&dataoffset.to_le_bytes());
    rec.extend_from_slice(&name_len.to_le_bytes());
    rec.extend_from_slice(&vtype.to_le_bytes());
    rec.extend_from_slice(&mtime_secs.to_le_bytes());
    rec.extend_from_slice(&mtime_nanos.to_le_bytes());
    rec.extend_from_slice(&mode.to_le_bytes());
    if filebits != 0 {
        rec.extend_from_slice(&size.to_le_bytes());
    }
    rec.extend_from_slice(name_bytes);
    rec.push(0);
    while rec.len() % 4 != 0 {
        rec.push(0);
    }
    let record_len = rec.len() as u32;
    rec[0..4].copy_from_slice(&record_len.to_le_bytes());
    rec
}

fn encode_record(
    name: &str,
    vtype: u32,
    size: u64,
    mtime_secs: i64,
    mtime_nanos: i64,
    mode: u32,
    error_slot: u32,
) -> Vec<u8> {
    encode_record_bytes(name.as_bytes(), vtype, size, mtime_secs, mtime_nanos, mode, error_slot)
}

const DIR: &[u8] = b"/test/root";

#[test]
fn strict_parsing_emits_valid_records_with_high_fidelity() {
    let mut raw = Vec::new();
    let rec_file = encode_record("hello.txt", VREG, 4096, 1700000000, 500, 0o100644, 0);
    let rec_dir = encode_record("sub", VDIR, 0, 1700000010, 0, 0o040755, 0);
    let rec_link = encode_record("sym.lnk", VLNK, 0, 1700000020, 123, 0o120777, 0);
    raw.extend_from_slice(&rec_file);
    raw.extend_from_slice(&rec_dir);
    raw.extend_from_slice(&rec_link);

    let mut out = Vec::new();
    let mut stack = Vec::new();
    parse_bulk_buffer(&raw, 3, DIR, "", &mut out, &mut stack).expect("valid bulk buffer");

    assert_eq!(out.len(), 3);
    assert_eq!(
        out[0],
        BulkEntry {
            rel_path: "hello.txt".into(),
            is_dir: false,
            is_symlink: false,
            is_file: true,
            size: 4096,
            mtime_secs: 1700000000,
            mtime_nanos: 500,
            mode: 0o100644,
        }
    );
    assert_eq!(
        out[1],
        BulkEntry {
            rel_path: "sub".into(),
            is_dir: true,
            is_symlink: false,
            is_file: false,
            size: 0,
            mtime_secs: 1700000010,
            mtime_nanos: 0,
            mode: 0o040755,
        }
    );
    assert_eq!(stack, vec![(b"/test/root/sub".to_vec(), "sub".to_string())]);
    assert_eq!(
        out[2],
        BulkEntry {
            rel_path: "sym.lnk".into(),
            is_dir: false,
            is_symlink: true,
            is_file: false,
            size: 0,
            mtime_secs: 1700000020,
            mtime_nanos: 123,
            mode: 0o120777,
        }
    );
}

#[test]
fn strict_parsing_prevents_ghost_entries_from_stale_buffer_tail() {
    let mut raw = Vec::new();
    let rec1 = encode_record("valid1.txt", VREG, 100, 1000, 0, 0o100644, 0);
    let rec2 = encode_record("valid2.txt", VREG, 200, 2000, 0, 0o100644, 0);
    let ghost1 = encode_record("ghost1.txt", VREG, 999, 9999, 0, 0o100644, 0);
    let ghost2 = encode_record("ghost2.txt", VREG, 888, 8888, 0, 0o100644, 0);
    raw.extend_from_slice(&rec1);
    raw.extend_from_slice(&rec2);
    raw.extend_from_slice(&ghost1);
    raw.extend_from_slice(&ghost2);

    let mut out = Vec::new();
    let mut stack = Vec::new();
    parse_bulk_buffer(&raw, 2, DIR, "prefix", &mut out, &mut stack).expect("parse buffer");
    assert_eq!(out.len(), 2, "only exactly n=2 entries are emitted");
    assert_eq!(out[0].rel_path, "prefix/valid1.txt");
    assert_eq!(out[1].rel_path, "prefix/valid2.txt");

    out.clear();
    parse_bulk_buffer(&raw, 1, DIR, "", &mut out, &mut stack).expect("parse buffer single");
    assert_eq!(out.len(), 1);
    assert_eq!(out[0].rel_path, "valid1.txt");
}

#[test]
fn strict_bounds_rejects_malformed_records() {
    let mut out = Vec::new();
    let mut stack = Vec::new();

    let short_buf = [1u8, 2, 3];
    assert!(parse_bulk_buffer(&short_buf, 1, DIR, "", &mut out, &mut stack).is_err());

    let mut bad_len = encode_record("a", VREG, 0, 0, 0, 0, 0);
    bad_len[0..4].copy_from_slice(&20u32.to_le_bytes());
    assert!(parse_bulk_buffer(&bad_len, 1, DIR, "", &mut out, &mut stack).is_err());

    bad_len[0..4].copy_from_slice(&41u32.to_le_bytes());
    assert!(parse_bulk_buffer(&bad_len, 1, DIR, "", &mut out, &mut stack).is_err());

    bad_len[0..4].copy_from_slice(&1000u32.to_le_bytes());
    assert!(parse_bulk_buffer(&bad_len, 1, DIR, "", &mut out, &mut stack).is_err());

    let err_slot = encode_record("err", VREG, 0, 0, 0, 0, libc::EIO as u32);
    assert!(parse_bulk_buffer(&err_slot, 1, DIR, "", &mut out, &mut stack).is_err());

    let mut bad_name_off = encode_record("bad_offset", VREG, 0, 0, 0, 0, 0);
    bad_name_off[24..28].copy_from_slice(&(-10i32).to_le_bytes());
    assert!(parse_bulk_buffer(&bad_name_off, 1, DIR, "", &mut out, &mut stack).is_err());

    let mut bad_name_len = encode_record("overflow", VREG, 0, 0, 0, 0, 0);
    bad_name_len[28..32].copy_from_slice(&500u32.to_le_bytes());
    assert!(parse_bulk_buffer(&bad_name_len, 1, DIR, "", &mut out, &mut stack).is_err());

    let mut no_nul = encode_record("nonul", VREG, 0, 0, 0, 0, 0);
    let nul_idx = 64 + "nonul".len();
    no_nul[nul_idx] = b'X';
    assert!(parse_bulk_buffer(&no_nul, 1, DIR, "", &mut out, &mut stack).is_err());

    let mut unexp_attr = encode_record("unexp", VREG, 0, 0, 0, 0, 0);
    unexp_attr[4..8].copy_from_slice(&(REQUEST_COMMON | 0x0000_0002).to_le_bytes());
    assert!(parse_bulk_buffer(&unexp_attr, 1, DIR, "", &mut out, &mut stack).is_err());
}

#[test]
fn each_refusal_names_its_reason() {
    let mut out = Vec::new();
    let mut stack = Vec::new();
    let mut run = |buf: &[u8]| parse_bulk_buffer(buf, 1, DIR, "", &mut out, &mut stack);

    assert_eq!(run(&[1u8, 2, 3]), Err(BulkParseError::LengthOverrun));

    let mut rec = encode_record("a", VREG, 0, 0, 0, 0, 0);
    rec[0..4].copy_from_slice(&20u32.to_le_bytes());
    assert_eq!(run(&rec), Err(BulkParseError::MalformedLength));
    rec[0..4].copy_from_slice(&1000u32.to_le_bytes());
    assert_eq!(run(&rec), Err(BulkParseError::RecordOverrun));

    let mut rec = encode_record("a", VREG, 0, 0, 0, 0, 0);
    rec[12..16].copy_from_slice(&1u32.to_le_bytes());
    assert_eq!(run(&rec), Err(BulkParseError::UnexpectedAttributes));

    let mut rec = encode_record("a", VREG, 0, 0, 0, 0, 0);
    rec[4..8].copy_from_slice(&(REQUEST_COMMON & !0x8).to_le_bytes());
    assert_eq!(run(&rec), Err(BulkParseError::MissingNameOrType));

    let rec = encode_record("a", VREG, 0, 0, 0, 0, 5);
    assert_eq!(run(&rec), Err(BulkParseError::EntryError));

    let mut rec = encode_record("a", VREG, 0, 0, 0, 0, 0);
    rec[28..32].copy_from_slice(&0u32.to_le_bytes());
    assert_eq!(run(&rec), Err(BulkParseError::BadNameReference));

    let mut rec = encode_record("a", VREG, 0, 0, 0, 0, 0);
    rec[28..32].copy_from_slice(&50u32.to_le_bytes());
    assert_eq!(run(&rec), Err(BulkParseError::NameOverrun));

    let mut rec = encode_record("abcdefghijkl", VREG, 0, 0, 0, 0, 0);
    rec[24..28].copy_from_slice(&8i32.to_le_bytes());
    assert_eq!(run(&rec), Err(BulkParseError::ShortObjType));
    rec[24..28].copy_from_slice(&20i32.to_le_bytes());
    assert_eq!(run(&rec), Err(BulkParseError::ShortModTime));
    rec[24..28].copy_from_slice(&30i32.to_le_bytes());
    assert_eq!(run(&rec), Err(BulkParseError::ShortAccessMask));
    rec[24..28].copy_from_slice(&34i32.to_le_bytes());
    assert_eq!(run(&rec), Err(BulkParseError::ShortDataLength));

    let mut rec = encode_record("nonul", VREG, 0, 0, 0, 0, 0);
    rec[64 + 5] = b'X';
    assert_eq!(run(&rec), Err(BulkParseError::MissingNul));

    let rec = encode_record("x", VREG, 0, 0, 0, 0, 0);
    assert_eq!(parse_record(&rec[..35], DIR, "", &mut Vec::new(), &mut Vec::new()), Err(BulkParseError::RecordTooShort));
}

#[test]
fn records_before_a_refused_one_stay_emitted() {
    let mut raw = encode_record("kept", VREG, 1, 1, 0, 0o100644, 0);
    raw.extend_from_slice(&encode_record("bad", VREG, 1, 1, 0, 0o100644, 7));
    let mut out = Vec::new();
    let mut stack = Vec::new();
    assert_eq!(
        parse_bulk_buffer(&raw, 2, DIR, "", &mut out, &mut stack),
        Err(BulkParseError::EntryError)
    );
    assert_eq!(out.len(), 1);
    assert_eq!(out[0].rel_path, "kept");
}

#[test]
fn dot_entries_and_negative_times_and_odd_names() {
    let mut raw = encode_record(".", VDIR, 0, 5, 0, 0o040755, 0);
    raw.extend_from_slice(&encode_record("..", VDIR, 0, 5, 0, 0o040755, 0));
    raw.extend_from_slice(&encode_record("early", VREG, 9, -3, 77, 0o100600, 0));
    raw.extend_from_slice(&encode_record("late", VREG, 9, 3, 2_000_000_000, 0o100600, 0));
    raw.extend_from_slice(&encode_record_bytes(b"f\xff", VREG, 1, 1, 0, 0o100600, 0));
    raw.extend_from_slice(&encode_record("fifo", 7, 0, 1, 0, 0o010644, 0));
    let mut out = Vec::new();
    let mut stack = Vec::new();
    parse_bulk_buffer(&raw, 6, b"/r/", "p", &mut out, &mut stack).expect("valid buffer");
    assert!(stack.is_empty());
    assert_eq!(out.len(), 4);
    assert_eq!(out[0].rel_path, "p/early");
    assert_eq!((out[0].mtime_secs, out[0].mtime_nanos), (0, 0));
    assert_eq!((out[1].mtime_secs, out[1].mtime_nanos), (3, 999_999_999));
    assert_eq!(out[2].rel_path, "p/f\u{FFFD}");
    assert!(!out[3].is_dir && !out[3].is_file && !out[3].is_symlink);
}

#[test]
fn directory_paths_join_like_path_join() {
    let rec = encode_record("d", VDIR, 0, 1, 0, 0o040755, 0);
    let mut out = Vec::new();
    let mut stack = Vec::new();
    parse_bulk_buffer(&rec, 1, b"/r/", "x/y", &mut out, &mut stack).unwrap();
    parse_bulk_buffer(&rec, 1, b"", "", &mut out, &mut stack).unwrap();
    assert_eq!(
        stack,
        vec![
            (b"/r/d".to_vec(), "x/y/d".to_string()),
            (b"d".to_vec(), "d".to_string()),
        ]
    );
}

#[test]
fn dynamic_buffer_doubling_on_erange_and_1mb_ceiling() {
    let mut cap = INITIAL_BUFFER_CAPACITY;
    assert_eq!(cap, 32 * 1024);
    while let Some(next) = next_scratch_capacity(cap) {
        assert_eq!(next, (cap * 2).min(MAX_BUFFER_CAPACITY));
        cap = next;
    }
    assert_eq!(cap, 1024 * 1024, "reaches exact 1MB ceiling");
    assert_eq!(next_scratch_capacity(MAX_BUFFER_CAPACITY), None);
    assert_eq!(next_scratch_capacity(1000 * 1024), Some(MAX_BUFFER_CAPACITY));
}
