//! The record frame: exact payloads, escaping, round trips, and what the
//! parser rejects.

use data_ferret::decode_record;
use data_ferret::encode_record;
use data_ferret::Data;
use data_ferret::DbError;
use data_ferret::OperationType;

fn record(pk: &str, sk: &str, v: &str) -> Data {
    Data {
        partition_key: pk.to_string(),
        sort_key: sk.to_string(),
        value: v.to_string(),
        operation_type: OperationType::Insert,
    }
}

#[test]
fn test_encode_exact_payload() {
    let encoded = encode_record(&record("p", "s", "v"));
    assert_eq!(
        "{\"partition_key\":\"p\",\"sort_key\":\"s\",\"value\":\"v\",\"operation_type\":\"Insert\"}",
        encoded
    );
}

#[test]
fn test_encode_escapes() {
    let encoded = encode_record(&record("p", "s", "a\"b\\c\nd\re\tf\u{1}g"));
    assert_eq!(
        "{\"partition_key\":\"p\",\"sort_key\":\"s\",\"value\":\"a\\\"b\\\\c\\nd\\re\\tf\\u0001g\",\"operation_type\":\"Insert\"}",
        encoded
    );
}

#[test]
fn test_encode_operation_tags() {
    let mut update = record("p", "s", "v");
    update.operation_type = OperationType::Update;
    let encoded = encode_record(&update);
    assert_eq!(
        "{\"partition_key\":\"p\",\"sort_key\":\"s\",\"value\":\"v\",\"operation_type\":\"Update\"}",
        encoded
    );
    let mut delete = record("p", "s", "v");
    delete.operation_type = OperationType::Delete;
    let encoded = encode_record(&delete);
    assert_eq!(
        "{\"partition_key\":\"p\",\"sort_key\":\"s\",\"value\":\"v\",\"operation_type\":\"Delete\"}",
        encoded
    );
}

#[test]
fn test_decode_exact_payload() {
    let decoded = decode_record(
        "{\"partition_key\":\"user1\",\"sort_key\":\"profile\",\"value\":\"{\\\"name\\\":\\\"A\\\"}\",\"operation_type\":\"Insert\"}",
    )
    .unwrap();
    assert_eq!(record("user1", "profile", "{\"name\":\"A\"}"), decoded);
}

#[test]
fn test_round_trip_plain() {
    let original = record("partition", "sort", "value");
    let decoded = decode_record(encode_record(&original).as_str()).unwrap();
    assert_eq!(original, decoded);
}

#[test]
fn test_round_trip_empty_fields() {
    let original = record("", "", "");
    let decoded = decode_record(encode_record(&original).as_str()).unwrap();
    assert_eq!(original, decoded);
}

#[test]
fn test_round_trip_tricky_strings() {
    let cases = vec![
        "quote\" backslash\\ newline\n",
        "tab\t return\r null\u{0}",
        "control\u{1f} unit\u{1f}",
        "unicode \u{e9}\u{4e16}\u{1f600}",
        "{\"nested\":\"json\"}",
        "\\u0041 looks escaped but is text",
    ];
    for (i, v) in cases.into_iter().enumerate() {
        let original = record("pk", &format!("sk{}", i), v);
        let decoded = decode_record(encode_record(&original).as_str()).unwrap();
        assert_eq!(original, decoded);
    }
}

#[test]
fn test_round_trip_update_and_delete_tags() {
    let mut original = record("p", "s", "v");
    original.operation_type = OperationType::Delete;
    let decoded = decode_record(encode_record(&original).as_str()).unwrap();
    assert_eq!(original, decoded);
}

#[test]
fn test_decode_rejects_malformed() {
    let bad = vec![
        "",
        "{}",
        "not json at all",
        "{\"partition_key\":\"p\"}",
        "{\"partition_key\":\"p\",\"sort_key\":\"s\",\"value\":\"v\"}",
        "{\"partition_key\":\"p\",\"sort_key\":\"s\",\"value\":\"v\",\"operation_type\":\"Other\"}",
        "{\"partition_key\":\"p\",\"sort_key\":\"s\",\"value\":\"v\",\"operation_type\":\"Insert\"}x",
        "{\"partition_key\":\"p\",\"sort_key\":\"s\",\"value\":\"v\",\"operation_type\":\"Insert\"",
        "{\"partition_key\":\"p\",\"sort_key\":\"s\",\"value\":\"unterminated",
        "{\"partition_key\":\"p\",\"sort_key\":\"s\",\"value\":\"bad\\escape\",\"operation_type\":\"Insert\"}",
        "{\"partition_key\":\"p\",\"partition_key\":\"q\",\"value\":\"v\",\"operation_type\":\"Insert\"}",
        "{\"partition_key\":\"p\",\"sort_key\":\"s\",\"value\":\"v\",\"extra\":\"x\"}",
        "{\"partition_key\":\"p\",\"sort_key\":\"s\",\"value\":\"v\",\"operation_type\":\"Insert\",\"extra\":\"x\"}",
        "{\"partition_key\":\"p\",\"sort_key\":\"s\",\"value\":1,\"operation_type\":\"Insert\"}",
    ];
    for payload in bad {
        assert_eq!(Err(DbError::SerializationError), decode_record(payload));
    }
}

#[test]
fn test_decode_rejects_invalid_escapes() {
    // Raw control characters, lone surrogates, truncated or non-hexadecimal
    // escape codes are not valid JSON strings.
    let bad = vec![
        "{\"partition_key\":\"p\",\"sort_key\":\"s\",\"value\":\"\u{1}\",\"operation_type\":\"Insert\"}",
        "{\"partition_key\":\"p\",\"sort_key\":\"s\",\"value\":\"\\ud800\",\"operation_type\":\"Insert\"}",
        "{\"partition_key\":\"p\",\"sort_key\":\"s\",\"value\":\"\\udc00\\ud800\",\"operation_type\":\"Insert\"}",
        "{\"partition_key\":\"p\",\"sort_key\":\"s\",\"value\":\"\\uD83Dx\",\"operation_type\":\"Insert\"}",
        "{\"partition_key\":\"p\",\"sort_key\":\"s\",\"value\":\"\\u00\",\"operation_type\":\"Insert\"}",
        "{\"partition_key\":\"p\",\"sort_key\":\"s\",\"value\":\"\\uzz00\",\"operation_type\":\"Insert\"}",
    ];
    for payload in bad {
        assert_eq!(Err(DbError::SerializationError), decode_record(payload));
    }
}

#[test]
fn test_decode_accepts_reordered_members() {
    let decoded = decode_record(
        "{\"sort_key\":\"s\",\"partition_key\":\"p\",\"value\":\"v\",\"operation_type\":\"Insert\"}",
    )
    .unwrap();
    assert_eq!(record("p", "s", "v"), decoded);
    let decoded = decode_record(
        "{\"operation_type\":\"Insert\",\"value\":\"v\",\"sort_key\":\"s\",\"partition_key\":\"p\"}",
    )
    .unwrap();
    assert_eq!(record("p", "s", "v"), decoded);
}

#[test]
fn test_decode_accepts_whitespace() {
    let decoded = decode_record(
        " \t\r\n{ \"partition_key\" : \"p\" ,\n  \"sort_key\":\t\"s\",\r\n  \"value\" : \"v\" ,\n  \"operation_type\" : \"Insert\"\n}\n ",
    )
    .unwrap();
    assert_eq!(record("p", "s", "v"), decoded);
}

#[test]
fn test_decode_accepts_standard_escapes() {
    // Either hex case, escaped non-control characters, the `\b`, `\f` and
    // `\/` shorts, a surrogate pair, an escaped key, and an escaped tag are
    // all valid JSON spellings of the same record.
    let decoded = decode_record(
        "{\"partition_key\":\"p\",\"sort_key\":\"s\",\"value\":\"\\u000A\\u000a\\u0041\\b\\f\\/\\uD83D\\uDE00\",\"operation_type\":\"Insert\"}",
    )
    .unwrap();
    assert_eq!(record("p", "s", "\n\nA\u{8}\u{c}/\u{1f600}"), decoded);

    let decoded = decode_record(
        "{\"\\u0070artition_key\":\"p\",\"sort_key\":\"s\",\"value\":\"v\",\"operation_type\":\"In\\u0073ert\"}",
    )
    .unwrap();
    assert_eq!(record("p", "s", "v"), decoded);
}
