//! The session over whole connections: ordering and isolation.

use ipc_rpc::session::{handle_line, run_session};

fn line(s: &str) -> Vec<u8> {
    s.as_bytes().to_vec()
}

#[test]
fn n_requests_earn_n_responses_in_order() {
    let lines = vec![
        line("{\"id\":1,\"method\":\"getblockcount\",\"params\":[]}\n"),
        line("{\"id\":2,\"method\":\"getblockhash\",\"params\":[5]}\n"),
        line("{\"id\":3,\"method\":\"nope\",\"params\":[]}\n"),
    ];
    let outs = run_session(&lines);
    assert_eq!(outs.len(), 3);
    assert_eq!(outs[0], line("{\"id\":1,\"result\":84372,\"error\":null}\n"));
    assert_eq!(
        outs[1],
        line("{\"id\":2,\"result\":\"0000000000000000000005\",\"error\":null}\n")
    );
    assert_eq!(outs[2], line("{\"id\":3,\"result\":null,\"error\":\"Unknown method\"}\n"));
}

#[test]
fn malformed_line_changes_nothing_else() {
    let good_a = line("{\"id\":1,\"method\":\"getblockcount\",\"params\":[]}\n");
    let good_b = line("{\"id\":2,\"method\":\"getblockcount\",\"params\":[]}\n");
    let bad = line("%%% not json %%%\n");
    let with_bad = run_session(&vec![good_a.clone(), bad, good_b.clone()]);
    let without = run_session(&vec![good_a, good_b]);
    assert_eq!(with_bad, without);
    assert_eq!(with_bad.len(), 2);
}

#[test]
fn each_output_is_the_lines_own_reply() {
    let a = line("{\"id\":5,\"method\":\"getblockcount\",\"params\":[]}\n");
    let b = line("{\"id\":6,\"method\":\"getblockcount\",\"params\":[]}\n");
    let outs = run_session(&vec![a.clone(), b.clone()]);
    assert_eq!(outs[0], handle_line(&a).unwrap());
    assert_eq!(outs[1], handle_line(&b).unwrap());
}

#[test]
fn empty_session_writes_nothing() {
    assert_eq!(run_session(&Vec::new()).len(), 0);
}
