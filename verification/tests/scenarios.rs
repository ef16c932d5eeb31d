//! End-to-end scenarios: one request line in, one response frame out.

use ipc_rpc::session::handle_line;

fn line(s: &str) -> Vec<u8> {
    s.as_bytes().to_vec()
}

fn reply(input: &str) -> Option<String> {
    handle_line(&line(input)).map(|out| String::from_utf8(out).unwrap())
}

#[test]
fn getblockcount_fixed_value() {
    assert_eq!(
        reply("{\"id\":1,\"method\":\"getblockcount\",\"params\":[]}\n"),
        Some("{\"id\":1,\"result\":84372,\"error\":null}\n".to_string())
    );
}

#[test]
fn getblockhash_height_five() {
    assert_eq!(
        reply("{\"id\":2,\"method\":\"getblockhash\",\"params\":[5]}\n"),
        Some("{\"id\":2,\"result\":\"0000000000000000000005\",\"error\":null}\n".to_string())
    );
}

#[test]
fn getblockhash_missing_parameter() {
    let out = reply("{\"id\":3,\"method\":\"getblockhash\",\"params\":[]}\n").unwrap();
    assert_eq!(out, "{\"id\":3,\"result\":null,\"error\":\"Invalid parameters\"}\n");
}

#[test]
fn unknown_method_frobnicate() {
    assert_eq!(
        reply("{\"id\":4,\"method\":\"frobnicate\",\"params\":[1,2]}\n"),
        Some("{\"id\":4,\"result\":null,\"error\":\"Unknown method\"}\n".to_string())
    );
}

#[test]
fn getblockhash_wrong_typed_parameter() {
    let out = reply("{\"id\":9,\"method\":\"getblockhash\",\"params\":[\"five\"]}\n").unwrap();
    assert_eq!(out, "{\"id\":9,\"result\":null,\"error\":\"Invalid parameters\"}\n");
}

#[test]
fn getblockhash_negative_parameter() {
    let out = reply("{\"id\":10,\"method\":\"getblockhash\",\"params\":[-3]}\n").unwrap();
    assert_eq!(out, "{\"id\":10,\"result\":null,\"error\":\"Invalid parameters\"}\n");
}

#[test]
fn getblockhash_larger_height_is_hex() {
    // 0x2a == 42: the suffix is lower-case hex with no extra padding.
    let out = reply("{\"id\":11,\"method\":\"getblockhash\",\"params\":[42]}\n").unwrap();
    let expected = format!("{{\"id\":11,\"result\":\"{}2a\",\"error\":null}}\n", "0".repeat(21));
    assert_eq!(out, expected);
}

#[test]
fn malformed_line_gets_no_reply() {
    assert_eq!(reply("this is not a frame\n"), None);
    assert_eq!(reply("{\"id\":1,\"method\":\"m\"\n"), None);
    assert_eq!(reply("\n"), None);
}

#[test]
fn missing_fields_get_no_reply() {
    assert_eq!(reply("{\"id\":1,\"method\":\"getblockcount\"}\n"), None);
    assert_eq!(reply("{\"id\":1,\"params\":[]}\n"), None);
    assert_eq!(reply("{\"method\":\"getblockcount\",\"params\":[]}\n"), None);
}

#[test]
fn wrong_field_types_get_no_reply() {
    assert_eq!(reply("{\"id\":\"one\",\"method\":\"getblockcount\",\"params\":[]}\n"), None);
    assert_eq!(reply("{\"id\":1,\"method\":5,\"params\":[]}\n"), None);
    assert_eq!(reply("{\"id\":1,\"method\":\"getblockcount\",\"params\":{}}\n"), None);
    assert_eq!(reply("{\"id\":-1,\"method\":\"getblockcount\",\"params\":[]}\n"), None);
    assert_eq!(reply("{\"id\":4294967296,\"method\":\"getblockcount\",\"params\":[]}\n"), None);
}

#[test]
fn whitespace_around_tokens_is_accepted() {
    let out = reply(" { \"id\" : 7 ,\t\"method\" : \"getblockcount\" , \"params\" : [ ] } \r\n")
        .unwrap();
    assert_eq!(out, "{\"id\":7,\"result\":84372,\"error\":null}\n");
}

#[test]
fn unknown_keys_are_ignored() {
    let out = reply("{\"extra\":true,\"id\":8,\"method\":\"getblockcount\",\"params\":[],\"z\":0}\n")
        .unwrap();
    assert_eq!(out, "{\"id\":8,\"result\":84372,\"error\":null}\n");
}

#[test]
fn trailing_bytes_after_object_reject_the_frame() {
    assert_eq!(reply("{\"id\":1,\"method\":\"getblockcount\",\"params\":[]}x\n"), None);
}

#[test]
fn number_overflow_rejects_the_frame() {
    // A params number beyond i64::MAX is out of the wire grammar.
    assert_eq!(
        reply("{\"id\":1,\"method\":\"getblockhash\",\"params\":[99999999999999999999]}\n"),
        None
    );
}

#[test]
fn duplicate_keys_use_the_first() {
    let out = reply("{\"id\":1,\"id\":2,\"method\":\"getblockcount\",\"params\":[]}\n").unwrap();
    assert_eq!(out, "{\"id\":1,\"result\":84372,\"error\":null}\n");
}

#[test]
fn most_negative_number_is_out_of_the_grammar() {
    assert_eq!(
        reply("{\"id\":1,\"method\":\"getblockhash\",\"params\":[-9223372036854775808]}\n"),
        None
    );
}
