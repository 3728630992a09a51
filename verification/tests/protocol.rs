use command_relay::protocol::Command;
use command_relay::protocol::ProtocolError;
use command_relay::protocol::decode;
use command_relay::protocol::encode;

#[test]
fn encode_fire_wire_text() {
    assert_eq!(encode(&Command::Fire), "\"Fire\"");
}

#[test]
fn encode_bind_wire_text() {
    let c = Command::Bind(String::from("abc123"));
    assert_eq!(encode(&c), "{\"EstablishConnection\":\"abc123\"}");
}

#[test]
fn encode_bind_empty_key() {
    let c = Command::Bind(String::new());
    assert_eq!(encode(&c), "{\"EstablishConnection\":\"\"}");
}

#[test]
fn encode_bind_escapes_quote_and_backslash() {
    let c = Command::Bind(String::from("a\"b\\c"));
    assert_eq!(encode(&c), "{\"EstablishConnection\":\"a\\\"b\\\\c\"}");
}

#[test]
fn encode_fire_matches_outside_json() {
    let v = serde_json::Value::String(String::from("Fire"));
    assert_eq!(encode(&Command::Fire), serde_json::to_string(&v).unwrap());
}

#[test]
fn encode_bind_matches_outside_json() {
    let mut m = serde_json::Map::new();
    m.insert(
        String::from("EstablishConnection"),
        serde_json::Value::String(String::from("abc123")),
    );
    let v = serde_json::Value::Object(m);
    let c = Command::Bind(String::from("abc123"));
    assert_eq!(encode(&c), serde_json::to_string(&v).unwrap());
}

#[test]
fn encode_bind_escaped_matches_outside_json() {
    let key = "we\"ird\\key";
    let mut m = serde_json::Map::new();
    m.insert(
        String::from("EstablishConnection"),
        serde_json::Value::String(String::from(key)),
    );
    let v = serde_json::Value::Object(m);
    let c = Command::Bind(String::from(key));
    assert_eq!(encode(&c), serde_json::to_string(&v).unwrap());
}

#[test]
fn decode_fire() {
    assert_eq!(decode("\"Fire\""), Ok(Command::Fire));
}

#[test]
fn decode_bind() {
    assert_eq!(
        decode("{\"EstablishConnection\":\"abc123\"}"),
        Ok(Command::Bind(String::from("abc123")))
    );
}

#[test]
fn decode_bind_escaped() {
    assert_eq!(
        decode("{\"EstablishConnection\":\"a\\\"b\\\\c\"}"),
        Ok(Command::Bind(String::from("a\"b\\c")))
    );
}

#[test]
fn decode_rejects_empty() {
    assert_eq!(decode(""), Err(ProtocolError));
}

#[test]
fn decode_rejects_unknown_tag() {
    assert_eq!(decode("{\"Launch\":\"abc123\"}"), Err(ProtocolError));
}

#[test]
fn decode_rejects_garbage() {
    assert_eq!(decode("not a document"), Err(ProtocolError));
}

#[test]
fn decode_rejects_truncated_bind() {
    assert_eq!(decode("{\"EstablishConnection\":\"abc"), Err(ProtocolError));
}

#[test]
fn decode_rejects_trailing_text() {
    assert_eq!(decode("{\"EstablishConnection\":\"abc\"}x"), Err(ProtocolError));
    assert_eq!(decode("\"Fire\" "), Err(ProtocolError));
}

#[test]
fn decode_rejects_bare_quote_in_key() {
    assert_eq!(decode("{\"EstablishConnection\":\"a\"b\"}"), Err(ProtocolError));
}

#[test]
fn decode_rejects_bad_escape() {
    assert_eq!(decode("{\"EstablishConnection\":\"a\\nb\"}"), Err(ProtocolError));
}

#[test]
fn round_trip_many_keys() {
    let keys = ["", "abc123", "a\"b", "\\", "\"", "key with spaces", "ünïcødé", "\\\""];
    for key in keys {
        let c = Command::Bind(String::from(key));
        assert_eq!(decode(&encode(&c)), Ok(c));
    }
    assert_eq!(decode(&encode(&Command::Fire)), Ok(Command::Fire));
}
