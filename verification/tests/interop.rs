//! Cross-checks against an independent JSON implementation.

use ipc_rpc::session::handle_line;
use serde_json::{Number, Value};

#[test]
fn response_frames_are_valid_json_elsewhere() {
    let req = b"{\"id\":1,\"method\":\"getblockcount\",\"params\":[]}\n".to_vec();
    let out = handle_line(&req).unwrap();
    let v: Value = serde_json::from_slice(&out).unwrap();
    assert_eq!(v["id"], Value::Number(Number::from(1u32)));
    assert_eq!(v["result"], Value::Number(Number::from(84372u32)));
    assert_eq!(v["error"], Value::Null);
}

#[test]
fn independently_encoded_requests_are_understood() {
    let mut m = serde_json::Map::new();
    m.insert("id".to_string(), Value::from(2u32));
    m.insert("method".to_string(), Value::from("getblockhash"));
    m.insert("params".to_string(), Value::Array(vec![Value::from(5u32)]));
    let mut text = serde_json::to_vec(&Value::Object(m)).unwrap();
    text.push(b'\n');
    let out = handle_line(&text).unwrap();
    assert_eq!(
        out,
        b"{\"id\":2,\"result\":\"0000000000000000000005\",\"error\":null}\n".to_vec()
    );
}

#[test]
fn error_response_reads_back_elsewhere() {
    let req = b"{\"id\":4,\"method\":\"frobnicate\",\"params\":[1,2]}\n".to_vec();
    let out = handle_line(&req).unwrap();
    let v: Value = serde_json::from_slice(&out).unwrap();
    assert_eq!(v["id"], Value::Number(Number::from(4u32)));
    assert_eq!(v["result"], Value::Null);
    assert_eq!(v["error"], Value::from("Unknown method"));
}
