//! The method registry and its two baseline handlers.
//!
//! `response_of` is the registry's whole contract: it gives the one
//! response owed to any request. A height lookup (`getblockhash`) maps
//! a non-negative integer parameter to a fixed-prefix hexadecimal
//! identifier; a counter query (`getblockcount`) returns a constant;
//! every other method name earns the `Unknown method` error. A missing
//! or ill-typed parameter is a handler-level error carried in the
//! response, never a fault.

use vstd::prelude::*;

use crate::json::{Json, JsonV, hex_digit, model_elems, lemma_model_elems};
use crate::protocol::{Req, ReqV, Res, ResV};

verus! {

/// The constant the counter query returns.
pub const BLOCK_COUNT: i64 = 84372;

/// The number of `0` bytes before the hexadecimal digits of a height
/// identifier.
pub const HASH_PREFIX_ZEROS: usize = 21;

/// The method name `getblockhash`.
pub open spec fn method_blockhash() -> Seq<u8> {
    seq![0x67u8, 0x65, 0x74, 0x62, 0x6c, 0x6f, 0x63, 0x6b, 0x68, 0x61, 0x73, 0x68]
}

/// The method name `getblockcount`.
pub open spec fn method_blockcount() -> Seq<u8> {
    seq![0x67u8, 0x65, 0x74, 0x62, 0x6c, 0x6f, 0x63, 0x6b, 0x63, 0x6f, 0x75, 0x6e, 0x74]
}

/// The error text `Unknown method`.
pub open spec fn unknown_method_text() -> Seq<u8> {
    seq![0x55u8, 0x6e, 0x6b, 0x6e, 0x6f, 0x77, 0x6e, 0x20, 0x6d, 0x65, 0x74, 0x68, 0x6f, 0x64]
}

/// The error text `Invalid parameters`.
pub open spec fn invalid_params_text() -> Seq<u8> {
    seq![
        0x49u8,
        0x6e,
        0x76,
        0x61,
        0x6c,
        0x69,
        0x64,
        0x20,
        0x70,
        0x61,
        0x72,
        0x61,
        0x6d,
        0x65,
        0x74,
        0x65,
        0x72,
        0x73,
    ]
}

/// The hexadecimal digits of `n >= 0`, most significant first, no
/// leading zeros.
pub open spec fn hex_digits(n: int) -> Seq<u8>
    decreases n,
{
    if n < 16 {
        seq![hex_digit(n)]
    } else {
        hex_digits(n / 16).push(hex_digit(n % 16))
    }
}

/// The identifier the height lookup returns: a fixed run of `0` bytes
/// and the height in lower-case hexadecimal.
pub open spec fn hash_text(h: int) -> Seq<u8> {
    Seq::new(HASH_PREFIX_ZEROS as nat, |i: int| 0x30u8) + hex_digits(h)
}

/// The response owed to a request: the whole registry in one function.
pub open spec fn response_of(req: ReqV) -> ResV {
    if req.method == method_blockhash() {
        if req.params.len() >= 1 {
            match req.params[0] {
                JsonV::Num(h) => if h >= 0 {
                    ResV { id: req.id, result: JsonV::Str(hash_text(h)), error: None }
                } else {
                    ResV { id: req.id, result: JsonV::Null, error: Some(invalid_params_text()) }
                },
                _ => ResV { id: req.id, result: JsonV::Null, error: Some(invalid_params_text()) },
            }
        } else {
            ResV { id: req.id, result: JsonV::Null, error: Some(invalid_params_text()) }
        }
    } else if req.method == method_blockcount() {
        ResV { id: req.id, result: JsonV::Num(BLOCK_COUNT as int), error: None }
    } else {
        ResV { id: req.id, result: JsonV::Null, error: Some(unknown_method_text()) }
    }
}

fn method_blockhash_vec() -> (r: Vec<u8>)
    ensures
        r@ == method_blockhash(),
{
    let mut v: Vec<u8> = Vec::new();
    v.push(0x67);
    v.push(0x65);
    v.push(0x74);
    v.push(0x62);
    v.push(0x6c);
    v.push(0x6f);
    v.push(0x63);
    v.push(0x6b);
    v.push(0x68);
    v.push(0x61);
    v.push(0x73);
    v.push(0x68);
    proof {
        assert(v@ =~= method_blockhash());
    }
    v
}

fn method_blockcount_vec() -> (r: Vec<u8>)
    ensures
        r@ == method_blockcount(),
{
    let mut v: Vec<u8> = Vec::new();
    v.push(0x67);
    v.push(0x65);
    v.push(0x74);
    v.push(0x62);
    v.push(0x6c);
    v.push(0x6f);
    v.push(0x63);
    v.push(0x6b);
    v.push(0x63);
    v.push(0x6f);
    v.push(0x75);
    v.push(0x6e);
    v.push(0x74);
    proof {
        assert(v@ =~= method_blockcount());
    }
    v
}

fn unknown_method_vec() -> (r: Vec<u8>)
    ensures
        r@ == unknown_method_text(),
{
    let mut v: Vec<u8> = Vec::new();
    v.push(0x55);
    v.push(0x6e);
    v.push(0x6b);
    v.push(0x6e);
    v.push(0x6f);
    v.push(0x77);
    v.push(0x6e);
    v.push(0x20);
    v.push(0x6d);
    v.push(0x65);
    v.push(0x74);
    v.push(0x68);
    v.push(0x6f);
    v.push(0x64);
    proof {
        assert(v@ =~= unknown_method_text());
    }
    v
}

fn invalid_params_vec() -> (r: Vec<u8>)
    ensures
        r@ == invalid_params_text(),
{
    let mut v: Vec<u8> = Vec::new();
    v.push(0x49);
    v.push(0x6e);
    v.push(0x76);
    v.push(0x61);
    v.push(0x6c);
    v.push(0x69);
    v.push(0x64);
    v.push(0x20);
    v.push(0x70);
    v.push(0x61);
    v.push(0x72);
    v.push(0x61);
    v.push(0x6d);
    v.push(0x65);
    v.push(0x74);
    v.push(0x65);
    v.push(0x72);
    v.push(0x73);
    proof {
        assert(v@ =~= invalid_params_text());
    }
    v
}

/// Append the hexadecimal digits of `m`, most significant first.
fn push_hex_digits(m: u64, out: &mut Vec<u8>)
    ensures
        final(out)@ == old(out)@ + hex_digits(m as int),
    decreases m,
{
    if m < 16 {
        let d: u8 = m as u8;
        out.push(if d < 10 {
            0x30 + d
        } else {
            0x61 + (d - 10)
        });
        assert(out@ =~= old(out)@ + hex_digits(m as int));
    } else {
        push_hex_digits(m / 16, out);
        let d: u8 = (m % 16) as u8;
        out.push(if d < 10 {
            0x30 + d
        } else {
            0x61 + (d - 10)
        });
        assert(out@ =~= old(out)@ + hex_digits(m as int));
    }
}

/// The height identifier for `h`.
fn hash_text_vec(h: u64) -> (r: Vec<u8>)
    ensures
        r@ == hash_text(h as int),
{
    let mut v: Vec<u8> = Vec::new();
    let mut k: usize = 0;
    while k < HASH_PREFIX_ZEROS
        invariant
            k <= HASH_PREFIX_ZEROS,
            v@ =~= Seq::new(k as nat, |i: int| 0x30u8),
        decreases HASH_PREFIX_ZEROS - k,
    {
        v.push(0x30);
        proof {
            assert(v@ =~= Seq::new((k + 1) as nat, |i: int| 0x30u8));
        }
        k = k + 1;
    }
    push_hex_digits(h, &mut v);
    proof {
        assert(v@ =~= hash_text(h as int));
    }
    v
}

/// Dispatch one request to its handler and wrap the outcome in a
/// response.
pub fn dispatch(req: &Req) -> (res: Res)
    ensures
        res.model() == response_of(req.model()),
{
    proof {
        lemma_model_elems(req.params@);
        if req.params@.len() > 0 {
            assert(model_elems(req.params@)[0] == req.params@[0].model());
        }
    }
    let name_hash = method_blockhash_vec();
    let name_count = method_blockcount_vec();
    let res: Res = if crate::protocol::bytes_eq(&req.method, &name_hash) {
        if req.params.len() >= 1 {
            match &req.params[0] {
                Json::Num(h) => {
                    if *h >= 0 {
                        let txt = hash_text_vec(*h as u64);
                        Res { id: req.id, result: Json::Str(txt), error: None }
                    } else {
                        Res { id: req.id, result: Json::Null, error: Some(invalid_params_vec()) }
                    }
                },
                _ => Res { id: req.id, result: Json::Null, error: Some(invalid_params_vec()) },
            }
        } else {
            Res { id: req.id, result: Json::Null, error: Some(invalid_params_vec()) }
        }
    } else if crate::protocol::bytes_eq(&req.method, &name_count) {
        Res { id: req.id, result: Json::Num(BLOCK_COUNT), error: None }
    } else {
        Res { id: req.id, result: Json::Null, error: Some(unknown_method_vec()) }
    };
    res
}

} // verus!
