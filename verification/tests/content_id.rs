use wt_store::ContentId;

#[test]
fn from_hex_then_to_string_lowers_the_input() {
    let text = "00FF10aB".repeat(8);
    let id = ContentId::from_hex(&text).expect("64 hex digits");
    assert_eq!(id.to_string(), text.to_ascii_lowercase());
    assert_eq!(id.0[1], 0xff);
    assert_eq!(id.0[3], 0xab);
    assert_eq!(ContentId::from_hex(&id.to_string()), Some(id));
}

#[test]
fn from_hex_rejects_wrong_length_and_non_hex() {
    assert_eq!(ContentId::from_hex(&"a".repeat(63)), None);
    assert_eq!(ContentId::from_hex(&"a".repeat(65)), None);
    assert_eq!(ContentId::from_hex(&format!("{}g", "a".repeat(63))), None);
    assert_eq!(ContentId::from_hex(""), None);
}
