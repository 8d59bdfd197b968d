use vanity_search::codec::{encode_records, parse_records};
use vanity_search::matcher::{AddressMatch, Placement};

fn rec(target: &[u8], public: &[u8], mnemonic: &[u8], placement: Placement) -> AddressMatch {
    AddressMatch {
        target: target.to_vec(),
        public: public.to_vec(),
        mnemonic: mnemonic.to_vec(),
        placement,
    }
}

#[test]
fn empty_file_is_empty_array() {
    assert_eq!(encode_records(&Vec::new()), b"[]".to_vec());
}

#[test]
fn one_record_pretty_printed() {
    let rs = vec![rec(b"AB", b"ABCD", b"word word", Placement::Start)];
    let expected = b"[\n  {\n    \"target\": \"AB\",\n    \"public\": \"ABCD\",\n    \"mnemonic\": \"word word\",\n    \"placement\": \"Start\"\n  }\n]";
    assert_eq!(encode_records(&rs), expected.to_vec());
}

#[test]
fn anywhere_offset_serialized_as_number() {
    let rs = vec![rec(b"ZZ", b"AZZB", b"m", Placement::Anywhere(1))];
    let text = encode_records(&rs);
    let s = String::from_utf8(text).unwrap();
    assert!(s.contains("{ \"Anywhere\": 1 }"));
}

#[test]
fn round_trip_preserves_records_field_for_field() {
    let rs = vec![
        rec(b"AAAA", b"AAAAXXXX", b"alpha beta gamma", Placement::Start),
        rec(b"ZZ", b"QQZZ", b"delta epsilon", Placement::End),
        rec(b"BB", b"ABBC", b"zeta eta theta iota", Placement::Anywhere(12345)),
    ];
    let text = encode_records(&rs);
    let back = parse_records(&text).unwrap();
    assert_eq!(back, rs);
}

#[test]
fn round_trip_of_empty_file() {
    let text = encode_records(&Vec::new());
    assert_eq!(parse_records(&text), Some(Vec::new()));
}

#[test]
fn garbage_is_rejected() {
    assert_eq!(parse_records(&b"hello".to_vec()), None);
    assert_eq!(parse_records(&b"".to_vec()), None);
    assert_eq!(parse_records(&b"[\n]".to_vec()), None);
    assert_eq!(parse_records(&b"{}".to_vec()), None);
}

#[test]
fn trailing_data_is_rejected() {
    let rs = vec![rec(b"AB", b"ABCD", b"m", Placement::Start)];
    let mut text = encode_records(&rs);
    text.push(b'\n');
    assert_eq!(parse_records(&text), None);
}

#[test]
fn truncated_file_is_rejected() {
    let rs = vec![rec(b"AB", b"ABCD", b"m", Placement::Start)];
    let mut text = encode_records(&rs);
    text.pop();
    assert_eq!(parse_records(&text), None);
}

#[test]
fn unknown_placement_is_rejected() {
    let rs = vec![rec(b"AB", b"ABCD", b"m", Placement::Start)];
    let text = String::from_utf8(encode_records(&rs)).unwrap();
    let bad = text.replace("\"Start\"", "\"Sideways\"");
    assert_eq!(parse_records(&bad.into_bytes()), None);
}

#[test]
fn hand_written_file_parses() {
    let text = b"[\n  {\n    \"target\": \"QQ\",\n    \"public\": \"ZQQZ\",\n    \"mnemonic\": \"one two\",\n    \"placement\": { \"Anywhere\": 1 }\n  }\n]";
    let records = parse_records(&text.to_vec()).unwrap();
    assert_eq!(records, vec![rec(b"QQ", b"ZQQZ", b"one two", Placement::Anywhere(1))]);
}
