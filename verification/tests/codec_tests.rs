use file_session_store::codec::encode_record;
use file_session_store::decode::decode_record;
use file_session_store::record::{DataEntry, Record, SessionId};

fn rec(id: &str, expiry: i64, data: Vec<(&str, i64)>) -> Record {
    Record {
        id: SessionId::new(id.to_string()),
        expiry,
        data: data
            .into_iter()
            .map(|(k, v)| DataEntry { key: k.to_string(), value: v })
            .collect(),
    }
}

fn assert_same(a: &Record, b: &Record) {
    assert_eq!(a.id.text, b.id.text);
    assert_eq!(a.expiry, b.expiry);
    assert_eq!(a.data.len(), b.data.len());
    for (x, y) in a.data.iter().zip(b.data.iter()) {
        assert_eq!(x.key, y.key);
        assert_eq!(x.value, y.value);
    }
}

#[test]
fn encode_concrete_scenario() {
    let r = rec("abc", 0, vec![("counter", 0)]);
    let text = encode_record(&r);
    assert_eq!(
        text,
        "{\n  \"id\": \"abc\",\n  \"expiry\": 0,\n  \"data\": {\n    \"counter\": 0\n  }\n}"
    );
}

#[test]
fn encode_empty_data() {
    let r = rec("abc", 42, vec![]);
    let text = encode_record(&r);
    assert_eq!(text, "{\n  \"id\": \"abc\",\n  \"expiry\": 42,\n  \"data\": {}\n}");
}

#[test]
fn encode_negative_expiry() {
    let r = rec("x", -7, vec![]);
    let text = encode_record(&r);
    assert_eq!(text, "{\n  \"id\": \"x\",\n  \"expiry\": -7,\n  \"data\": {}\n}");
}

#[test]
fn round_trip_basic() {
    let r = rec("abc", 1735689600, vec![("counter", 1), ("visits", 9)]);
    let text = encode_record(&r);
    let back = decode_record(&text).expect("a canonical encoding must decode");
    assert_same(&r, &back);
}

#[test]
fn round_trip_empty_data() {
    let r = rec("session-01_=", 0, vec![]);
    let back = decode_record(&encode_record(&r)).unwrap();
    assert_same(&r, &back);
}

#[test]
fn round_trip_extreme_values() {
    let r = rec("m", i64::MIN, vec![("lo", i64::MIN), ("hi", i64::MAX)]);
    let back = decode_record(&encode_record(&r)).unwrap();
    assert_same(&r, &back);
}

#[test]
fn round_trip_keeps_entry_order() {
    let r = rec("o", 5, vec![("b", 2), ("a", 1), ("c", 3)]);
    let back = decode_record(&encode_record(&r)).unwrap();
    assert_eq!(back.data[0].key, "b");
    assert_eq!(back.data[1].key, "a");
    assert_eq!(back.data[2].key, "c");
}

#[test]
fn decode_rejects_malformed_text() {
    assert!(decode_record("").is_none());
    assert!(decode_record("garbage").is_none());
    assert!(decode_record("{}").is_none());
    assert!(decode_record("{\"id\": \"abc\"}").is_none());
    assert!(decode_record("\u{0}\u{1}\u{2}").is_none());
}

#[test]
fn decode_rejects_truncated_encoding() {
    let text = encode_record(&rec("abc", 3, vec![("counter", 0)]));
    for cut in 0..text.len() {
        let truncated: String = text.chars().take(cut).collect();
        assert!(decode_record(&truncated).is_none());
    }
}

#[test]
fn decode_rejects_trailing_bytes() {
    let text = encode_record(&rec("abc", 3, vec![("counter", 0)]));
    let extended = format!("{} ", text);
    assert!(decode_record(&extended).is_none());
    let doubled = format!("{}{}", text, text);
    assert!(decode_record(&doubled).is_none());
}

#[test]
fn decode_rejects_non_canonical_numbers() {
    assert!(decode_record("{\n  \"id\": \"abc\",\n  \"expiry\": 007,\n  \"data\": {}\n}").is_none());
    assert!(decode_record("{\n  \"id\": \"abc\",\n  \"expiry\": -0,\n  \"data\": {}\n}").is_none());
    assert!(
        decode_record("{\n  \"id\": \"abc\",\n  \"expiry\": 99999999999999999999,\n  \"data\": {}\n}")
            .is_none()
    );
}

#[test]
fn decode_rejects_unsafe_id() {
    assert!(decode_record("{\n  \"id\": \"a/b\",\n  \"expiry\": 0,\n  \"data\": {}\n}").is_none());
    assert!(decode_record("{\n  \"id\": \"\",\n  \"expiry\": 0,\n  \"data\": {}\n}").is_none());
}

#[test]
fn decode_accepts_only_exact_formatting() {
    // same information, different whitespace: not the canonical text
    assert!(decode_record("{\"id\": \"abc\", \"expiry\": 0, \"data\": {}}").is_none());
    assert!(decode_record("{\n  \"id\": \"abc\",\n  \"expiry\": 0,\n  \"data\": {}\n}\n").is_none());
}

#[test]
fn decode_of_edited_encoding_fails() {
    let text = encode_record(&rec("abc", 3, vec![("counter", 0)]));
    let tampered = text.replace("counter", "coun\"er");
    assert!(decode_record(&tampered).is_none());
}

#[test]
fn encode_extreme_negative_value() {
    let r = rec("m", i64::MIN, vec![("v", i64::MIN)]);
    let text = encode_record(&r);
    assert_eq!(
        text,
        "{\n  \"id\": \"m\",\n  \"expiry\": -9223372036854775808,\n  \"data\": {\n    \"v\": -9223372036854775808\n  }\n}"
    );
}

#[test]
fn round_trip_key_with_spaces_and_punctuation() {
    let r = rec("k", 1, vec![("a key: with, punctuation!", -3)]);
    let back = decode_record(&encode_record(&r)).unwrap();
    assert_eq!(back.data[0].key, "a key: with, punctuation!");
    assert_eq!(back.data[0].value, -3);
}

#[test]
fn decode_rejects_fractional_number() {
    assert!(decode_record("{\n  \"id\": \"abc\",\n  \"expiry\": 0.5,\n  \"data\": {}\n}").is_none());
}
