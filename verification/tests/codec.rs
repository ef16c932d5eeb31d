//! The wire codec on its own: values out, values back in.

use ipc_rpc::json::{encode_value, Json};
use ipc_rpc::parse::parse_frame;
use ipc_rpc::protocol::{decode_request, encode_request, encode_response, Req, Res};

fn encode(v: &Json) -> Vec<u8> {
    let mut out: Vec<u8> = Vec::new();
    encode_value(v, &mut out);
    out
}

fn deep_value() -> Json {
    Json::Arr(vec![
        Json::Null,
        Json::Bool(true),
        Json::Bool(false),
        Json::Num(-42),
        Json::Num(0),
        Json::Str(b"plain".to_vec()),
        Json::Str(b"qu\"ote back\\slash".to_vec()),
        Json::Str(vec![0x01, 0x1f, 0x20, 0x7e, 0xc3, 0xa9]),
        Json::Obj(vec![
            (b"k".to_vec(), Json::Arr(vec![Json::Num(1), Json::Num(2)])),
            (b"empty".to_vec(), Json::Obj(vec![])),
        ]),
    ])
}

#[test]
fn encoder_writes_canonical_text() {
    assert_eq!(encode(&Json::Null), b"null".to_vec());
    assert_eq!(encode(&Json::Bool(true)), b"true".to_vec());
    assert_eq!(encode(&Json::Num(-90210)), b"-90210".to_vec());
    assert_eq!(encode(&Json::Str(b"a\"b".to_vec())), b"\"a\\\"b\"".to_vec());
    assert_eq!(encode(&Json::Str(vec![0x1f])), b"\"\\u001f\"".to_vec());
    assert_eq!(
        encode(&Json::Obj(vec![(b"a".to_vec(), Json::Arr(vec![]))])),
        b"{\"a\":[]}".to_vec()
    );
}

#[test]
fn parse_inverts_encode_on_a_deep_value() {
    let v = deep_value();
    let text = encode(&v);
    let back = parse_frame(&text).expect("canonical text must parse");
    assert_eq!(encode(&back), text);
}

#[test]
fn parser_reads_escapes_and_whitespace() {
    let got = parse_frame(&b" [ \"a\\u0041\\n\\t\\\\\" , -7 ] ".to_vec()).unwrap();
    let expected = Json::Arr(vec![
        Json::Str(b"aA\n\t\\".to_vec()),
        Json::Num(-7),
    ]);
    assert_eq!(encode(&got), encode(&expected));
}

#[test]
fn parser_rejects_broken_frames() {
    for bad in [
        &b"{"[..],
        b"[1,]",
        b"[1 2]",
        b"{\"a\" 1}",
        b"{\"a\":}",
        b"tru",
        b"nulll and more",
        b"\"unterminated",
        b"\"bad \\x escape\"",
        b"1.5",
        b"1e3",
        b"--2",
        b"[]]",
        b"",
    ] {
        assert!(parse_frame(&bad.to_vec()).is_none(), "accepted {:?}", bad);
    }
}

#[test]
fn request_frames_round_trip() {
    let req = Req {
        id: 77,
        method: b"getblockhash".to_vec(),
        params: vec![Json::Num(5), Json::Str(b"x".to_vec())],
    };
    let frame = encode_request(req);
    let back = decode_request(&frame).expect("encoded request must decode");
    assert_eq!(back.id, 77);
    assert_eq!(back.method, b"getblockhash".to_vec());
    assert_eq!(back.params.len(), 2);
}

#[test]
fn response_frames_end_with_one_newline() {
    let frame = encode_response(Res {
        id: 1,
        result: Json::Null,
        error: Some(b"boom".to_vec()),
    });
    let text = String::from_utf8(frame).unwrap();
    assert_eq!(text, "{\"id\":1,\"result\":null,\"error\":\"boom\"}\n");
}
