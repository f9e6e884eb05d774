use kvs::record::{encode_command, CommandKind};

#[test]
fn put_record_has_the_documented_bytes() {
    let b = encode_command(CommandKind::Put, "k1", "v1");
    assert_eq!(
        String::from_utf8(b).unwrap(),
        "{\"command_type\":0,\"key\":\"k1\",\"value\":\"v1\"}"
    );
}

#[test]
fn remove_record_has_an_empty_value() {
    let b = encode_command(CommandKind::Remove, "k", "");
    assert_eq!(
        String::from_utf8(b).unwrap(),
        "{\"command_type\":1,\"key\":\"k\",\"value\":\"\"}"
    );
}

use kvs::record::decode_command;

#[test]
fn quotes_backslashes_and_control_bytes_are_escaped() {
    let b = encode_command(CommandKind::Put, "a\"b\\c", "x\ny\u{1f}");
    assert_eq!(
        String::from_utf8(b).unwrap(),
        "{\"command_type\":0,\"key\":\"a\\\"b\\\\c\",\"value\":\"x\\u000ay\\u001f\"}"
    );
}

#[test]
fn records_decode_back_with_their_length() {
    let key = "ключ \"q\" \\ \t";
    let value = "значение ✓ \u{0}";
    let mut b = encode_command(CommandKind::Put, key, value);
    let n = b.len();
    b.extend_from_slice(b"trailing");
    let (c, m) = decode_command(&b).unwrap();
    assert_eq!(m, n);
    assert_eq!(c.kind, CommandKind::Put);
    assert_eq!(c.key, key);
    assert_eq!(c.value, value);
}

#[test]
fn malformed_records_do_not_decode() {
    assert!(decode_command(b"").is_none());
    assert!(decode_command(b"{\"command_type\":2,\"key\":\"k\",\"value\":\"v\"}").is_none());
    assert!(decode_command(b"{\"command_type\":0,\"key\":\"k\",\"value\":\"v\"").is_none());
    assert!(decode_command(b"{\"command_type\":0,\"key\":\"k\n\",\"value\":\"v\"}").is_none());
    assert!(decode_command(b"{\"command_type\":0,\"key\":\"\xff\",\"value\":\"v\"}").is_none());
}
