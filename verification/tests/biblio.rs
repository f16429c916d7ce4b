use rankless::biblio::BiblioInfo;
use rankless::entity::ByteArrayInterface;

fn info(v: &str, i: &str, f: &str, l: &str) -> BiblioInfo {
    BiblioInfo {
        volume: v.into(),
        issue: i.into(),
        first_page: f.into(),
        last_page: l.into(),
    }
}

#[test]
fn test_all_missing() {
    let info = info("", "", "", "");
    let bytes = info.to_bytes();
    assert_eq!(bytes.len(), 1);
    let decoded = BiblioInfo::from_bytes(&bytes);
    assert_eq!(info, decoded);
}

#[test]
fn test_all_numeric() {
    let info = info("12", "34", "56", "9999");
    let bytes = info.to_bytes();
    let decoded = BiblioInfo::from_bytes(&bytes);
    assert_eq!(info, decoded);
}

#[test]
fn test_mixed_types() {
    let info = info("A", "22", "Page", "");
    let bytes = info.to_bytes();
    let decoded = BiblioInfo::from_bytes(&bytes);
    assert_eq!(info, decoded);
}

#[test]
fn test_dynamic_string() {
    let info = info(
        "DynamicStringLongerThan4",
        "",
        "DynamicStringLongerThan4567890",
        "",
    );
    let bytes = info.to_bytes();
    let decoded = BiblioInfo::from_bytes(&bytes);
    assert_eq!(info, decoded);
}

#[test]
fn test_roundtrip_various() {
    let cases = vec![
        info("A", "B", "C", "D"),
        info("1", "", "99999", ""),
        info("", "", "X", "100"),
    ];
    for info in cases {
        let bytes = info.to_bytes();
        let decoded = BiblioInfo::from_bytes(&bytes);
        assert_eq!(info, decoded, "Roundtrip failed for {:?}", info);
    }
}

#[test]
fn the_stored_form_has_flags_sizes_and_fields() {
    let bytes = info("7", "", "Page", "300").to_bytes();
    // present: volume, first page, last page; numeric: volume, last page
    assert_eq!(bytes, vec![0b1011_1001, 0b00_00_10_01, 7, b'P', b'a', b'g', b'e', 44, 1]);
}

#[test]
fn a_non_canonical_number_reads_back_in_canonical_digits() {
    let decoded = BiblioInfo::from_bytes(&info("007", "+5", "", "").to_bytes());
    assert_eq!(decoded, info("7", "5", "", ""));
}

#[test]
fn empty_and_flagless_buffers_read_as_empty_fields() {
    assert_eq!(BiblioInfo::from_bytes(&[]), info("", "", "", ""));
    assert_eq!(BiblioInfo::from_bytes(&[0x0f, 1, 2]), info("", "", "", ""));
}
