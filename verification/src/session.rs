//! The connection session's decision core.
//!
//! A session reads one line at a time and owes at most one response
//! frame for it: none when the line does not decode (the frame is
//! dropped and the connection kept), exactly one otherwise. `step` is
//! that contract for one line; `session_outputs` for a whole
//! connection's worth of lines. All I/O stays with the caller, so the
//! functions here are total and every connection's outputs depend on
//! its own lines alone.

use vstd::prelude::*;

use crate::json::{ser, B_LF};
use crate::protocol::{Req, ReqV, decode_req, decode_request, encode_response, res_json};
use crate::dispatch::{dispatch, response_of};

verus! {

/// The bytes of the response frame owed to a request.
pub open spec fn response_frame(req: ReqV) -> Seq<u8> {
    ser(res_json(response_of(req))) + seq![B_LF]
}

/// The response frame owed for one received line: none on a decode
/// error, exactly one otherwise.
pub open spec fn step(line: Seq<u8>) -> Option<Seq<u8>> {
    match decode_req(line) {
        Some(req) => Some(response_frame(req)),
        None => None,
    }
}

/// Handle one received line: decode, dispatch, encode. `None` asks the
/// caller to write nothing and read on.
pub fn handle_line(line: &Vec<u8>) -> (r: Option<Vec<u8>>)
    ensures
        match (r, step(line@)) {
            (Option::None, Option::None) => true,
            (Option::Some(v), Option::Some(w)) => v@ == w,
            _ => false,
        },
{
    match decode_request(line) {
        None => None,
        Some(req) => {
            let res = dispatch(&req);
            Some(encode_response(res))
        },
    }
}

/// The frames a session writes for the lines it reads, in order.
pub open spec fn session_outputs(lines: Seq<Seq<u8>>) -> Seq<Seq<u8>>
    decreases lines.len(),
{
    if lines.len() == 0 {
        Seq::empty()
    } else {
        match step(lines[0]) {
            Some(o) => seq![o] + session_outputs(lines.drop_first()),
            None => session_outputs(lines.drop_first()),
        }
    }
}

/// Reading one more line appends its output, and changes nothing else.
pub proof fn lemma_session_snoc(lines: Seq<Seq<u8>>, l: Seq<u8>)
    ensures
        session_outputs(lines.push(l)) == (match step(l) {
            Some(o) => session_outputs(lines) + seq![o],
            None => session_outputs(lines),
        }),
    decreases lines.len(),
{
    if lines.len() == 0 {
        assert(lines.push(l)[0] == l);
        assert(lines.push(l).drop_first() =~= Seq::<Seq<u8>>::empty());
        assert(session_outputs(Seq::<Seq<u8>>::empty()) =~= Seq::<Seq<u8>>::empty());
        assert(session_outputs(lines) =~= Seq::<Seq<u8>>::empty());
        match step(l) {
            Some(o) => {
                assert(step(lines.push(l)[0]) == Some(o));
                assert(session_outputs(lines.push(l)) == seq![o] + session_outputs(
                    lines.push(l).drop_first(),
                ));
                assert(session_outputs(lines.push(l)) =~= session_outputs(lines) + seq![o]);
            },
            None => {},
        }
    } else {
        lemma_session_snoc(lines.drop_first(), l);
        assert(lines.push(l)[0] == lines[0]);
        assert(lines.push(l).drop_first() =~= lines.drop_first().push(l));
        match (step(lines[0]), step(l)) {
            (Some(o0), Some(o)) => {
                assert(seq![o0] + (session_outputs(lines.drop_first()) + seq![o]) =~= (seq![o0]
                    + session_outputs(lines.drop_first())) + seq![o]);
            },
            _ => {},
        }
    }
}

/// The views of a sequence of byte vectors, in order.
pub open spec fn views_of(vs: Seq<Vec<u8>>) -> Seq<Seq<u8>>
    decreases vs.len(),
{
    if vs.len() == 0 {
        Seq::empty()
    } else {
        views_of(vs.drop_last()).push(vs.last()@)
    }
}

/// `views_of` maps each vector to its view.
pub broadcast proof fn lemma_views_of(vs: Seq<Vec<u8>>)
    ensures
        (#[trigger] views_of(vs)).len() == vs.len(),
        forall|i: int| 0 <= i < vs.len() ==> views_of(vs)[i] == (#[trigger] vs[i])@,
    decreases vs.len(),
{
    if vs.len() > 0 {
        lemma_views_of(vs.drop_last());
        assert forall|i: int| 0 <= i < vs.len() implies views_of(vs)[i] == (#[trigger] vs[i])@ by {
            if i < vs.len() - 1 {
                assert(vs.drop_last()[i] == vs[i]);
            }
        }
    }
}

/// Run one session over the lines a connection delivered, one frame
/// written back per line that decoded, in arrival order.
pub fn run_session(lines: &Vec<Vec<u8>>) -> (outs: Vec<Vec<u8>>)
    ensures
        views_of(outs@) == session_outputs(views_of(lines@)),
{
    proof {
        lemma_views_of(lines@);
    }
    let mut outs: Vec<Vec<u8>> = Vec::new();
    let mut k: usize = 0;
    while k < lines.len()
        invariant
            k <= lines@.len(),
            views_of(lines@).len() == lines@.len(),
            forall|i: int| 0 <= i < lines@.len() ==> views_of(lines@)[i] == (#[trigger] lines@[i])@,
            views_of(outs@) == session_outputs(views_of(lines@).subrange(0, k as int)),
        decreases lines@.len() - k,
    {
        let ghost pfx = views_of(lines@).subrange(0, k as int);
        let ghost pouts = outs@;
        match handle_line(&lines[k]) {
            Some(o) => {
                let ghost oo = o@;
                outs.push(o);
                proof {
                    lemma_session_snoc(pfx, lines@[k as int]@);
                    assert(views_of(lines@).subrange(0, k as int + 1) =~= pfx.push(
                        lines@[k as int]@,
                    ));
                    lemma_views_of(pouts);
                    lemma_views_of(outs@);
                    assert forall|t: int| 0 <= t < outs@.len() implies views_of(outs@)[t] == (
                    session_outputs(pfx) + seq![oo])[t] by {
                        if t < outs@.len() - 1 {
                            assert(outs@[t] == pouts[t]);
                            assert(views_of(pouts)[t] == pouts[t]@);
                        }
                    }
                    assert(views_of(outs@) =~= session_outputs(pfx) + seq![oo]);
                }
            },
            None => {
                proof {
                    lemma_session_snoc(pfx, lines@[k as int]@);
                    assert(views_of(lines@).subrange(0, k as int + 1) =~= pfx.push(
                        lines@[k as int]@,
                    ));
                }
            },
        }
        k = k + 1;
    }
    proof {
        assert(views_of(lines@).subrange(0, lines@.len() as int) =~= views_of(lines@));
    }
    outs
}

/// On one connection, N decodable lines earn exactly N response frames,
/// in the same order, each the frame owed to its own request.
pub proof fn lemma_session_in_order(lines: Seq<Seq<u8>>)
    requires
        forall|i: int| 0 <= i < lines.len() ==> (#[trigger] decode_req(lines[i])) is Some,
    ensures
        session_outputs(lines).len() == lines.len(),
        forall|i: int|
            0 <= i < lines.len() ==> #[trigger] step(lines[i]) == Some(session_outputs(lines)[i]),
    decreases lines.len(),
{
    if lines.len() > 0 {
        assert(decode_req(lines[0]) is Some);
        assert forall|i: int| 0 <= i < lines.drop_first().len() implies (#[trigger] decode_req(
            lines.drop_first()[i],
        )) is Some by {
            assert(lines.drop_first()[i] == lines[i + 1]);
        }
        lemma_session_in_order(lines.drop_first());
        assert forall|i: int| 0 <= i < lines.len() implies #[trigger] step(lines[i]) == Some(
            session_outputs(lines)[i],
        ) by {
            if i > 0 {
                assert(lines.drop_first()[i - 1] == lines[i]);
                assert(step(lines.drop_first()[i - 1]) == Some(
                    session_outputs(lines.drop_first())[i - 1],
                ));
            }
        }
    }
}

/// A line that does not decode leaves every other line's response
/// unchanged: dropping it from the session's input changes nothing in
/// the output. Across connections nothing is shared at all, so one
/// client's malformed frame cannot touch another session's responses.
pub proof fn lemma_malformed_isolated(pre: Seq<Seq<u8>>, bad: Seq<u8>, post: Seq<Seq<u8>>)
    requires
        decode_req(bad) is None,
    ensures
        session_outputs(pre + seq![bad] + post) == session_outputs(pre + post),
    decreases pre.len(),
{
    if pre.len() == 0 {
        assert((pre + seq![bad] + post)[0] == bad);
        assert((pre + seq![bad] + post).drop_first() =~= post);
        assert(pre + post =~= post);
    } else {
        lemma_malformed_isolated(pre.drop_first(), bad, post);
        assert((pre + seq![bad] + post)[0] == pre[0]);
        assert((pre + seq![bad] + post).drop_first() =~= pre.drop_first() + seq![bad] + post);
        assert((pre + post)[0] == pre[0]);
        assert((pre + post).drop_first() =~= pre.drop_first() + post);
    }
}

} // verus!
