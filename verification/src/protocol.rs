//! Requests and responses, and their frame forms.
//!
//! A request frame is a JSON object with an integer `id`, a string
//! `method` and an array `params`; any other shape is a decode error.
//! A response frame is the object `{"id":…,"result":…,"error":…}` with
//! `error` a string exactly when the request failed, and `result` null
//! in that case.

use vstd::prelude::*;

use crate::json::{
    Json, JsonV, model_elems, model_pairs, lemma_model_pairs, ser, encode_value, wf_elems, B_LF,
};
use crate::parse::{parse_text, parse_frame};

verus! {

/// One request as dispatch sees it.
pub struct Req {
    pub id: u32,
    pub method: Vec<u8>,
    pub params: Vec<Json>,
}

/// The model of a request.
#[verifier::ext_equal]
pub struct ReqV {
    pub id: int,
    pub method: Seq<u8>,
    pub params: Seq<JsonV>,
}

impl Req {
    /// The model of this request.
    pub open spec fn model(self) -> ReqV {
        ReqV { id: self.id as int, method: self.method@, params: model_elems(self.params@) }
    }
}

/// One response as dispatch produces it.
pub struct Res {
    pub id: u32,
    pub result: Json,
    pub error: Option<Vec<u8>>,
}

/// The model of a response.
#[verifier::ext_equal]
pub struct ResV {
    pub id: int,
    pub result: JsonV,
    pub error: Option<Seq<u8>>,
}

impl Res {
    /// The model of this response.
    pub open spec fn model(self) -> ResV {
        ResV {
            id: self.id as int,
            result: self.result.model(),
            error: match self.error {
                Some(e) => Some(e@),
                None => None,
            },
        }
    }
}

/// The key `"id"`.
pub open spec fn key_id() -> Seq<u8> {
    seq![0x69u8, 0x64]
}

/// The key `"method"`.
pub open spec fn key_method() -> Seq<u8> {
    seq![0x6du8, 0x65, 0x74, 0x68, 0x6f, 0x64]
}

/// The key `"params"`.
pub open spec fn key_params() -> Seq<u8> {
    seq![0x70u8, 0x61, 0x72, 0x61, 0x6d, 0x73]
}

/// The key `"result"`.
pub open spec fn key_result() -> Seq<u8> {
    seq![0x72u8, 0x65, 0x73, 0x75, 0x6c, 0x74]
}

/// The key `"error"`.
pub open spec fn key_error() -> Seq<u8> {
    seq![0x65u8, 0x72, 0x72, 0x6f, 0x72]
}

/// The first value under `key` in an object's members, if any.
pub open spec fn obj_lookup(ps: Seq<(Seq<u8>, JsonV)>, key: Seq<u8>) -> Option<JsonV>
    decreases ps.len(),
{
    if ps.len() == 0 {
        None
    } else if ps[0].0 == key {
        Some(ps[0].1)
    } else {
        obj_lookup(ps.drop_first(), key)
    }
}

/// The request a parsed frame value carries, if it has the right shape:
/// an object whose `id` is an integer within `u32`, whose `method` is a
/// string, and whose `params` is an array.
pub open spec fn req_of_json(v: JsonV) -> Option<ReqV> {
    match v {
        JsonV::Obj(ps) => match (
            obj_lookup(ps, key_id()),
            obj_lookup(ps, key_method()),
            obj_lookup(ps, key_params()),
        ) {
            (Some(JsonV::Num(n)), Some(JsonV::Str(m)), Some(JsonV::Arr(es))) => if 0 <= n
                <= u32::MAX {
                Some(ReqV { id: n, method: m, params: es })
            } else {
                None
            },
            _ => None,
        },
        _ => None,
    }
}

/// What one received line decodes to, if anything.
pub open spec fn decode_req(s: Seq<u8>) -> Option<ReqV> {
    match parse_text(s) {
        Some(v) => req_of_json(v),
        None => None,
    }
}

/// A request the codec carries both ways: the id fits `u32` and every
/// parameter is well formed.
pub open spec fn req_wf(r: ReqV) -> bool {
    0 <= r.id <= u32::MAX && wf_elems(r.params)
}

/// The frame value of a request.
pub open spec fn req_json(r: ReqV) -> JsonV {
    JsonV::Obj(
        seq![
            (key_id(), JsonV::Num(r.id)),
            (key_method(), JsonV::Str(r.method)),
            (key_params(), JsonV::Arr(r.params)),
        ],
    )
}

/// The frame value of a response.
pub open spec fn res_json(r: ResV) -> JsonV {
    JsonV::Obj(
        seq![
            (key_id(), JsonV::Num(r.id)),
            (key_result(), r.result),
            (
                key_error(),
                match r.error {
                    Some(e) => JsonV::Str(e),
                    None => JsonV::Null,
                },
            ),
        ],
    )
}

/// The executable and the specified outcome of a request decode agree.
pub open spec fn req_matches(r: Option<Req>, sr: Option<ReqV>) -> bool {
    match (r, sr) {
        (Option::None, Option::None) => true,
        (Option::Some(req), Option::Some(rv)) => req.model() == rv,
        _ => false,
    }
}

fn key_id_vec() -> (r: Vec<u8>)
    ensures
        r@ == key_id(),
{
    let mut v: Vec<u8> = Vec::new();
    v.push(0x69);
    v.push(0x64);
    proof {
        assert(v@ =~= key_id());
    }
    v
}

fn key_method_vec() -> (r: Vec<u8>)
    ensures
        r@ == key_method(),
{
    let mut v: Vec<u8> = Vec::new();
    v.push(0x6d);
    v.push(0x65);
    v.push(0x74);
    v.push(0x68);
    v.push(0x6f);
    v.push(0x64);
    proof {
        assert(v@ =~= key_method());
    }
    v
}

fn key_params_vec() -> (r: Vec<u8>)
    ensures
        r@ == key_params(),
{
    let mut v: Vec<u8> = Vec::new();
    v.push(0x70);
    v.push(0x61);
    v.push(0x72);
    v.push(0x61);
    v.push(0x6d);
    v.push(0x73);
    proof {
        assert(v@ =~= key_params());
    }
    v
}

fn key_result_vec() -> (r: Vec<u8>)
    ensures
        r@ == key_result(),
{
    let mut v: Vec<u8> = Vec::new();
    v.push(0x72);
    v.push(0x65);
    v.push(0x73);
    v.push(0x75);
    v.push(0x6c);
    v.push(0x74);
    proof {
        assert(v@ =~= key_result());
    }
    v
}

fn key_error_vec() -> (r: Vec<u8>)
    ensures
        r@ == key_error(),
{
    let mut v: Vec<u8> = Vec::new();
    v.push(0x65);
    v.push(0x72);
    v.push(0x72);
    v.push(0x6f);
    v.push(0x72);
    proof {
        assert(v@ =~= key_error());
    }
    v
}

/// The two byte strings are equal.
pub fn bytes_eq(a: &Vec<u8>, b: &Vec<u8>) -> (r: bool)
    ensures
        r == (a@ == b@),
{
    if a.len() != b.len() {
        return false;
    }
    let mut k: usize = 0;
    while k < a.len()
        invariant
            k <= a@.len(),
            a@.len() == b@.len(),
            forall|t: int| 0 <= t < k ==> a@[t] == b@[t],
        decreases a@.len() - k,
    {
        if a[k] != b[k] {
            return false;
        }
        k = k + 1;
    }
    proof {
        assert(a@ =~= b@);
    }
    true
}

/// Decode one received line into a request, if the frame parses and has
/// the request shape.
pub fn decode_request(line: &Vec<u8>) -> (r: Option<Req>)
    ensures
        req_matches(r, decode_req(line@)),
{
    match parse_frame(line) {
        None => None,
        Some(v) => match v {
            Json::Obj(ps) => {
                let ghost whole = model_pairs(ps@);
                let key_i = key_id_vec();
                let key_m = key_method_vec();
                let key_p = key_params_vec();
                let mut rest = ps;
                let mut slot_id: Option<Json> = None;
                let mut slot_method: Option<Json> = None;
                let mut slot_params: Option<Json> = None;
                while rest.len() > 0
                    invariant
                        key_i@ == key_id(),
                        key_m@ == key_method(),
                        key_p@ == key_params(),
                        obj_lookup(whole, key_id()) == (match slot_id {
                            Some(j) => Some(j.model()),
                            None => obj_lookup(model_pairs(rest@), key_id()),
                        }),
                        obj_lookup(whole, key_method()) == (match slot_method {
                            Some(j) => Some(j.model()),
                            None => obj_lookup(model_pairs(rest@), key_method()),
                        }),
                        obj_lookup(whole, key_params()) == (match slot_params {
                            Some(j) => Some(j.model()),
                            None => obj_lookup(model_pairs(rest@), key_params()),
                        }),
                    decreases rest@.len(),
                {
                    let ghost orest = rest@;
                    let ghost pre = model_pairs(rest@);
                    let (k, val) = rest.remove(0);
                    proof {
                        lemma_model_pairs(orest);
                        lemma_model_pairs(rest@);
                        assert(rest@ =~= orest.drop_first());
                        assert forall|t: int| 0 <= t < rest@.len() implies model_pairs(rest@)[t]
                            == pre.drop_first()[t] by {
                            assert(rest@[t] == orest[t + 1]);
                            assert(model_pairs(orest)[t + 1] == (
                                orest[t + 1].0@,
                                orest[t + 1].1.model(),
                            ));
                            assert(model_pairs(rest@)[t] == (rest@[t].0@, rest@[t].1.model()));
                        }
                        assert(model_pairs(rest@) =~= pre.drop_first());
                        assert(pre[0] == (k@, val.model()));
                    }
                    let id_hit = bytes_eq(&k, &key_i);
                    let m_hit = bytes_eq(&k, &key_m);
                    let p_hit = bytes_eq(&k, &key_p);
                    if id_hit && matches!(slot_id, None) {
                        slot_id = Some(val);
                    } else if m_hit && matches!(slot_method, None) {
                        slot_method = Some(val);
                    } else if p_hit && matches!(slot_params, None) {
                        slot_params = Some(val);
                    }
                }
                proof {
                    assert(model_pairs(rest@) =~= Seq::<(Seq<u8>, JsonV)>::empty());
                }
                match (slot_id, slot_method, slot_params) {
                    (Some(Json::Num(n)), Some(Json::Str(m)), Some(Json::Arr(es))) => {
                        if 0 <= n && n <= u32::MAX as i64 {
                            Some(Req { id: n as u32, method: m, params: es })
                        } else {
                            None
                        }
                    },
                    _ => None,
                }
            },
            _ => None,
        },
    }
}

/// Encode a response and terminate the frame with a line feed.
pub fn encode_response(res: Res) -> (out: Vec<u8>)
    ensures
        out@ == ser(res_json(res.model())) + seq![B_LF],
{
    let ghost rv = res.model();
    let Res { id, result, error } = res;
    let mut ps: Vec<(Vec<u8>, Json)> = Vec::new();
    ps.push((key_id_vec(), Json::Num(id as i64)));
    ps.push((key_result_vec(), result));
    ps.push((
        key_error_vec(),
        match error {
            Some(e) => Json::Str(e),
            None => Json::Null,
        },
    ));
    let obj = Json::Obj(ps);
    proof {
        let pairs = obj->Obj_0@;
        lemma_model_pairs(pairs);
        assert(pairs.len() == 3);
        assert(model_pairs(pairs)[0] == (pairs[0].0@, pairs[0].1.model()));
        assert(model_pairs(pairs)[1] == (pairs[1].0@, pairs[1].1.model()));
        assert(model_pairs(pairs)[2] == (pairs[2].0@, pairs[2].1.model()));
        assert(model_pairs(pairs) =~= seq![
            (key_id(), JsonV::Num(rv.id)),
            (key_result(), rv.result),
            (
                key_error(),
                match rv.error {
                    Some(e) => JsonV::Str(e),
                    None => JsonV::Null,
                },
            ),
        ]);
        assert(obj.model() == res_json(rv));
    }
    let mut out: Vec<u8> = Vec::new();
    encode_value(&obj, &mut out);
    out.push(B_LF);
    proof {
        assert(out@ =~= ser(res_json(rv)) + seq![B_LF]);
    }
    out
}

/// Encode a request as one newline-terminated frame, as a client would
/// send it.
pub fn encode_request(req: Req) -> (out: Vec<u8>)
    ensures
        out@ == ser(req_json(req.model())) + seq![B_LF],
{
    let ghost rv = req.model();
    let Req { id, method, params } = req;
    let mut ps: Vec<(Vec<u8>, Json)> = Vec::new();
    ps.push((key_id_vec(), Json::Num(id as i64)));
    ps.push((key_method_vec(), Json::Str(method)));
    ps.push((key_params_vec(), Json::Arr(params)));
    let obj = Json::Obj(ps);
    proof {
        let pairs = obj->Obj_0@;
        lemma_model_pairs(pairs);
        assert(pairs.len() == 3);
        assert(model_pairs(pairs)[0] == (pairs[0].0@, pairs[0].1.model()));
        assert(model_pairs(pairs)[1] == (pairs[1].0@, pairs[1].1.model()));
        assert(model_pairs(pairs)[2] == (pairs[2].0@, pairs[2].1.model()));
        assert(model_pairs(pairs) =~= seq![
            (key_id(), JsonV::Num(rv.id)),
            (key_method(), JsonV::Str(rv.method)),
            (key_params(), JsonV::Arr(rv.params)),
        ]);
        assert(obj.model() == req_json(rv));
    }
    let mut out: Vec<u8> = Vec::new();
    encode_value(&obj, &mut out);
    out.push(B_LF);
    proof {
        assert(out@ =~= ser(req_json(rv)) + seq![B_LF]);
    }
    out
}

} // verus!
