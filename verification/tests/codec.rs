//! Wire-codec tests: exact canonical bytes, round trips, escaping, and
//! agreement with an independent JSON implementation.

use remote_hub::codec::{decode, encode};
use remote_hub::messages::{EncoderMessage, EncoderMessageType};

fn enc(t: EncoderMessageType) -> Vec<u8> {
    encode(&EncoderMessage(t))
}

#[test]
fn encode_cmd_exact_bytes() {
    let bytes = enc(EncoderMessageType::Cmd(b"ls -l".to_vec()));
    assert_eq!(bytes, b"{\"Cmd\":\"ls -l\"}".to_vec());
}

#[test]
fn encode_cmdret_exact_bytes() {
    assert_eq!(enc(EncoderMessageType::CmdRet(7)), b"{\"CmdRet\":7}".to_vec());
    assert_eq!(enc(EncoderMessageType::CmdRet(0)), b"{\"CmdRet\":0}".to_vec());
    assert_eq!(enc(EncoderMessageType::CmdRet(-42)), b"{\"CmdRet\":-42}".to_vec());
    assert_eq!(
        enc(EncoderMessageType::CmdRet(i32::MIN)),
        b"{\"CmdRet\":-2147483648}".to_vec()
    );
    assert_eq!(
        enc(EncoderMessageType::CmdRet(i32::MAX)),
        b"{\"CmdRet\":2147483647}".to_vec()
    );
}

#[test]
fn encode_id_exact_bytes() {
    assert_eq!(enc(EncoderMessageType::ID(None)), b"{\"ID\":null}".to_vec());
    assert_eq!(enc(EncoderMessageType::ID(Some(0))), b"{\"ID\":0}".to_vec());
    assert_eq!(
        enc(EncoderMessageType::ID(Some(u64::MAX))),
        b"{\"ID\":18446744073709551615}".to_vec()
    );
}

#[test]
fn encode_escapes_quotes_and_controls() {
    let bytes = enc(EncoderMessageType::Cmd(b"a\"b\\c\nd\x01e".to_vec()));
    assert_eq!(bytes, b"{\"Cmd\":\"a\\\"b\\\\c\\nd\\u0001e\"}".to_vec());
}

#[test]
fn round_trip_cmd() {
    let bytes = enc(EncoderMessageType::Cmd(b"x".to_vec()));
    match decode(&bytes) {
        Some(EncoderMessage(EncoderMessageType::Cmd(p))) => assert_eq!(p, b"x".to_vec()),
        other => panic!("expected Cmd, got {:?}", other),
    }
}

#[test]
fn round_trip_cmdret() {
    let bytes = enc(EncoderMessageType::CmdRet(7));
    match decode(&bytes) {
        Some(EncoderMessage(EncoderMessageType::CmdRet(v))) => assert_eq!(v, 7),
        other => panic!("expected CmdRet, got {:?}", other),
    }
}

#[test]
fn round_trip_all_kinds_hard_cases() {
    let cases = vec![
        EncoderMessageType::Cmd(Vec::new()),
        EncoderMessageType::Cmd(b"a\"b\\c\x08\x09\x0a\x0c\x0d\x01\x1f ~".to_vec()),
        EncoderMessageType::Cmd("héllo wörld".as_bytes().to_vec()),
        EncoderMessageType::CmdRet(i32::MIN),
        EncoderMessageType::CmdRet(i32::MAX),
        EncoderMessageType::CmdRet(-1),
        EncoderMessageType::ID(None),
        EncoderMessageType::ID(Some(1)),
        EncoderMessageType::ID(Some(u64::MAX)),
    ];
    for t in cases {
        let bytes = enc(t.clone());
        let back = decode(&bytes).expect("canonical encoding must decode");
        match (t, back.0) {
            (EncoderMessageType::Cmd(a), EncoderMessageType::Cmd(b)) => assert_eq!(a, b),
            (EncoderMessageType::CmdRet(a), EncoderMessageType::CmdRet(b)) => assert_eq!(a, b),
            (EncoderMessageType::ID(a), EncoderMessageType::ID(b)) => assert_eq!(a, b),
            _ => panic!("kind changed in round trip"),
        }
    }
}

#[test]
fn decode_rejects_malformed() {
    let bad: Vec<&[u8]> = vec![
        b"",
        b"{",
        b"{\"Cmd\":\"unterminated",
        b"{\"Cmd\":\"x\"} ",
        b"{\"CmdRet\":}",
        b"{\"CmdRet\":07}",
        b"{\"CmdRet\":2147483648}",
        b"{\"CmdRet\":-0}",
        b"{\"ID\":}",
        b"{\"ID\":nul}",
        b"{\"ID\":18446744073709551616}",
        b"{\"Other\":1}",
        b"{\"Cmd\":\"bad escape \\x\"}",
        b"{\"Cmd\":\"upper hex \\u001F\"}",
        b"/ID",
    ];
    for b in bad {
        assert!(decode(&b.to_vec()).is_none(), "accepted {:?}", b);
    }
}

#[test]
fn decode_rejects_raw_control_byte_in_payload() {
    let mut bytes = b"{\"Cmd\":\"a".to_vec();
    bytes.push(0x01);
    bytes.extend_from_slice(b"\"}");
    assert!(decode(&bytes).is_none());
}

#[test]
fn wire_format_agrees_with_serde_json() {
    // The same envelope, written by serde_json from its own value tree,
    // must be byte-for-byte what encode produces.
    let payload = "a\"b\\c\nd\x01e légume";
    let mut obj = serde_json::Map::new();
    obj.insert(
        "Cmd".to_string(),
        serde_json::Value::String(payload.to_string()),
    );
    let expected = serde_json::to_vec(&serde_json::Value::Object(obj)).unwrap();
    let mine = enc(EncoderMessageType::Cmd(payload.as_bytes().to_vec()));
    assert_eq!(mine, expected);

    let mut obj = serde_json::Map::new();
    obj.insert("CmdRet".to_string(), serde_json::Value::from(-12345));
    let expected = serde_json::to_vec(&serde_json::Value::Object(obj)).unwrap();
    assert_eq!(enc(EncoderMessageType::CmdRet(-12345)), expected);

    let mut obj = serde_json::Map::new();
    obj.insert("ID".to_string(), serde_json::Value::Null);
    let expected = serde_json::to_vec(&serde_json::Value::Object(obj)).unwrap();
    assert_eq!(enc(EncoderMessageType::ID(None)), expected);
}

#[test]
fn serde_json_reads_back_what_encode_writes() {
    let bytes = enc(EncoderMessageType::Cmd(b"ping".to_vec()));
    let v: serde_json::Value = serde_json::from_slice(&bytes).unwrap();
    assert_eq!(v.get("Cmd").and_then(|c| c.as_str()), Some("ping"));

    let bytes = enc(EncoderMessageType::CmdRet(4));
    let v: serde_json::Value = serde_json::from_slice(&bytes).unwrap();
    assert_eq!(v.get("CmdRet").and_then(|c| c.as_i64()), Some(4));
}
