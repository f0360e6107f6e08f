use a2s_rules::codec::parse_mods;
use a2s_rules::escape::unescape;
use a2s_rules::codec::is_carrier;
use a2s_rules::Error;
use a2s_rules::Rule;

fn regular(name: &str, value: &str) -> Rule {
    Rule::Regular { name: name.to_string(), value: value.to_string() }
}

#[test]
fn wrong_marker_is_invalid_response() {
    assert_eq!(Rule::from_cursor(vec![0x44]), Err(Error::InvalidResponse));
    assert_eq!(Rule::from_cursor(vec![0x00, 0x45, 0x45]), Err(Error::InvalidResponse));
    assert_eq!(Rule::from_cursor(vec![0xFF, 1, 0, b'a', 0, b'b', 0]), Err(Error::InvalidResponse));
}

#[test]
fn short_header_is_truncated() {
    assert_eq!(Rule::from_cursor(vec![]), Err(Error::Truncated));
    assert_eq!(Rule::from_cursor(vec![0x45]), Err(Error::Truncated));
    assert_eq!(Rule::from_cursor(vec![0x45, 1]), Err(Error::Truncated));
}

#[test]
fn zero_count_decodes_empty_whatever_trails() {
    assert_eq!(Rule::from_cursor(vec![0x45, 0, 0]), Ok(vec![]));
    assert_eq!(Rule::from_cursor(vec![0x45, 0, 0, 0xAB, 0xCD, 0x01]), Ok(vec![]));
}

#[test]
fn single_regular_rule() {
    let mut data = vec![0x45, 1, 0];
    data.extend(b"sv_gravity\x00800\x00");
    assert_eq!(Rule::from_cursor(data), Ok(vec![regular("sv_gravity", "800")]));
}

#[test]
fn missing_terminators_are_truncated() {
    // name never terminated
    let mut data = vec![0x45, 1, 0];
    data.extend(b"sv_gravity");
    assert_eq!(Rule::from_cursor(data), Err(Error::Truncated));
    // value never terminated
    let mut data = vec![0x45, 1, 0];
    data.extend(b"sv_gravity\x00800");
    assert_eq!(Rule::from_cursor(data), Err(Error::Truncated));
    // second entry missing entirely
    let mut data = vec![0x45, 2, 0];
    data.extend(b"sv_gravity\x00800\x00");
    assert_eq!(Rule::from_cursor(data), Err(Error::Truncated));
}

#[test]
fn unescape_decodes_pairs() {
    assert_eq!(unescape(&vec![0x01, 0x02, 0x01, 0x03, 0x41]), vec![0x00, 0xFF, 0x41]);
    assert_eq!(unescape(&vec![0x01, 0x01]), vec![0x01]);
}

#[test]
fn unescape_drops_trailing_escape() {
    assert_eq!(unescape(&vec![0x41, 0x01]), vec![0x41]);
    assert_eq!(unescape(&vec![0x01]), Vec::<u8>::new());
}

#[test]
fn unescape_keeps_non_escape_pairs() {
    // 0x01 before anything but 0x01/0x02/0x03 is kept, and the next byte is
    // examined on its own
    assert_eq!(unescape(&vec![0x01, 0x41, 0x01, 0x01]), vec![0x01, 0x41, 0x01]);
    assert_eq!(unescape(&vec![]), Vec::<u8>::new());
}

#[test]
fn carrier_needs_exact_two_byte_shape() {
    assert!(is_carrier(&vec![1, 1], 1));
    assert!(is_carrier(&vec![0, 0], 0));
    assert!(is_carrier(&vec![0, 3], 3));
    // index above the total
    assert!(!is_carrier(&vec![2, 1], 1));
    // total mismatch
    assert!(!is_carrier(&vec![1, 2], 1));
    // wrong lengths
    assert!(!is_carrier(&vec![1], 1));
    assert!(!is_carrier(&vec![1, 1, 1], 1));
    assert!(!is_carrier(&vec![], 0));
}

// The escaped bytes of [0,0,0,0,1, 0,0,0,0,0, 7,0,0,0, 3, 'f','o','o']: a
// mod-table fragment holding one record (id 7, name "foo"), whose fifth
// sub-header byte announces one mod record.
fn escaped_table_fragment() -> Vec<u8> {
    let mut v = Vec::new();
    for _ in 0..4 {
        v.extend([0x01, 0x02]);
    }
    v.extend([0x01, 0x01]);
    for _ in 0..5 {
        v.extend([0x01, 0x02]);
    }
    v.push(7);
    for _ in 0..3 {
        v.extend([0x01, 0x02]);
    }
    v.push(3);
    v.extend(b"foo");
    v
}

#[test]
fn hidden_mod_table_end_to_end() {
    let mut data = vec![0x45, 2, 0];
    // first entry: carrier name (index 1 of 1), value = stuffed fragment
    data.extend([1, 1, 0]);
    data.extend(escaped_table_fragment());
    data.push(0);
    // second entry: an ordinary rule
    data.extend(b"sv_cheats\x000\x00");
    let rules = Rule::from_cursor(data).unwrap();
    assert_eq!(
        rules,
        vec![regular("sv_cheats", "0"), Rule::Mod { id: 7, name: "foo".to_string() }]
    );
}

#[test]
fn short_mod_table_is_truncated() {
    // carrier announces two mods but carries five bytes of table
    let mut data = vec![0x45, 1, 0];
    data.extend([1, 1, 0]);
    data.extend([0x01, 0x02, 0x01, 0x02, 0x01, 0x02, 0x01, 0x02, 2]);
    data.push(0);
    assert_eq!(Rule::from_cursor(data), Err(Error::Truncated));
}

#[test]
fn first_value_fifth_byte_sets_mod_count() {
    // no entry is carrier-shaped, but the first value's fifth byte still
    // makes the decoder expect mod records it never receives
    let mut data = vec![0x45, 1, 0];
    data.extend(b"abc\0hello\0");
    assert_eq!(Rule::from_cursor(data), Err(Error::Truncated));
}

#[test]
fn parse_mods_reads_records() {
    let mut table = vec![0u8; 5];
    table.extend([0; 5]);
    table.extend([9, 0, 0, 0]);
    table.push(2);
    table.extend(b"hi");
    assert_eq!(parse_mods(&table, 1), Ok(vec![Rule::Mod { id: 9, name: "hi".to_string() }]));
    assert_eq!(parse_mods(&table, 2), Err(Error::Truncated));
}

#[test]
fn parse_mods_zero_records_never_fails() {
    assert_eq!(parse_mods(&vec![], 0), Ok(vec![]));
    // skipping the sub-header past the end of the buffer is not a read
    assert_eq!(parse_mods(&vec![1, 2, 3], 0), Ok(vec![]));
}

#[test]
fn parse_mods_little_endian_id() {
    let mut table = vec![0u8; 10];
    table.extend([0x04, 0x03, 0x02, 0x01]);
    table.push(0);
    assert_eq!(parse_mods(&table, 1), Ok(vec![Rule::Mod { id: 0x01020304, name: String::new() }]));
}

#[test]
fn invalid_utf8_is_replaced_not_rejected() {
    // 0xC3 opens a two-byte sequence that 0x28 cannot continue
    let mut data = vec![0x45, 1, 0];
    data.extend([0xC3, 0x28, 0x41, 0x00]);
    data.extend(b"v\0");
    let rules = Rule::from_cursor(data).unwrap();
    assert_eq!(rules, vec![regular("\u{FFFD}(A", "v")]);
}

#[test]
fn to_bytes_regular_terminates_both_fields() {
    assert_eq!(regular("a", "b").to_bytes(), b"a\0b\0".to_vec());
    assert_eq!(regular("", "").to_bytes(), vec![0, 0]);
}

#[test]
fn to_bytes_mod_uses_raw_little_endian_id() {
    let m = Rule::Mod { id: 0x01020304, name: "m".to_string() };
    assert_eq!(m.to_bytes(), vec![b'm', 0, 4, 3, 2, 1]);
}

#[test]
fn vec_to_bytes_layout() {
    assert_eq!(Rule::vec_to_bytes(vec![]), vec![0x45, 0, 0]);
    let bytes = Rule::vec_to_bytes(vec![regular("a", "b"), regular("c", "d")]);
    assert_eq!(bytes, vec![0x45, 2, 0, b'a', 0, b'b', 0, b'c', 0, b'd', 0]);
}

#[test]
fn regular_rules_round_trip() {
    let rules = vec![
        regular("sv_gravity", "800"),
        regular("mp_friendlyfire", "1"),
        regular("sv_tags", "coop,versus"),
    ];
    let bytes = Rule::vec_to_bytes(rules.clone());
    assert_eq!(Rule::from_cursor(bytes), Ok(rules));
}
