//! The laws the codec and the session obey, proved once for all inputs.
//!
//! The centrepiece: a well-formed request, framed by the encoder and
//! handed to the session, earns exactly one response frame, and that
//! frame carries the request's own correlation id.

use vstd::prelude::*;

use crate::json::{
    JsonV, wf_elems, wf_pairs, lemma_wf_elems, lemma_wf_pairs, ser, ser_int, ser_elems, ser_member, ser_members, esc_byte, esc_bytes, dec_digit,
    dec_digits, hex_digit, B_QUOTE, B_BACKSLASH, B_LBRACKET, B_RBRACKET, B_LBRACE, B_RBRACE,
    B_COMMA, B_COLON, B_MINUS, B_LF,
};
use crate::parse::{
    is_ws, is_digit, is_hex, hex_val, digit_run_end, digits_val, parse_digits, parse_number,
    unescape1, parse_string_body, parse_value, parse_elems_first, parse_elems_at,
    parse_elems_after, parse_members_first, parse_members_at, parse_members_colon,
    parse_members_after, ws_only, parse_text, lemma_digits_val_nonneg,
};
use crate::protocol::{
    ReqV, ResV, key_id, key_method, key_params, obj_lookup, req_of_json, decode_req, req_json,
    req_wf, res_json,
};
use crate::dispatch::{response_of, method_blockhash, method_blockcount, unknown_method_text};
use crate::session::{step, response_frame};

verus! {

/// No digit stands at `j`, or the text ends there.
pub open spec fn no_digit_at(s: Seq<u8>, j: int) -> bool {
    j >= s.len() || !is_digit(s[j])
}

proof fn lemma_subrange_index(s: Seq<u8>, i: int, pat: Seq<u8>)
    requires
        0 <= i,
        i + pat.len() <= s.len(),
        s.subrange(i, i + pat.len()) == pat,
    ensures
        forall|k: int| 0 <= k < pat.len() ==> s[i + k] == #[trigger] pat[k],
        pat.len() >= 1 ==> s[i] == pat[0],
{
    assert forall|k: int| 0 <= k < pat.len() implies s[i + k] == #[trigger] pat[k] by {
        assert(s.subrange(i, i + pat.len())[k] == s[i + k]);
    }
    if pat.len() >= 1 {
        assert(s.subrange(i, i + pat.len())[0] == s[i]);
    }
}

proof fn lemma_subrange_split(s: Seq<u8>, i: int, p1: Seq<u8>, p2: Seq<u8>)
    requires
        0 <= i,
        i + p1.len() + p2.len() <= s.len(),
        s.subrange(i, i + p1.len() + p2.len()) == p1 + p2,
    ensures
        s.subrange(i, i + p1.len()) == p1,
        s.subrange(i + p1.len(), i + p1.len() + p2.len()) == p2,
{
    let whole = s.subrange(i, i + p1.len() + p2.len());
    assert forall|k: int| 0 <= k < p1.len() implies s.subrange(i, i + p1.len())[k] == p1[k] by {
        assert(whole[k] == s[i + k]);
        assert(s.subrange(i, i + p1.len())[k] == s[i + k]);
        assert((p1 + p2)[k] == p1[k]);
    }
    assert(s.subrange(i, i + p1.len()) =~= p1);
    assert forall|k: int| 0 <= k < p2.len() implies s.subrange(
        i + p1.len(),
        i + p1.len() + p2.len(),
    )[k] == p2[k] by {
        assert(whole[p1.len() + k] == s[i + p1.len() + k]);
        assert(s.subrange(i + p1.len(), i + p1.len() + p2.len())[k] == s[i + p1.len() + k]);
        assert((p1 + p2)[p1.len() + k] == p2[k]);
    }
    assert(s.subrange(i + p1.len(), i + p1.len() + p2.len()) =~= p2);
}

/// The decimal text of `n >= 0` is nonempty, all digits, and reads back
/// as `n`.
proof fn lemma_dec_digits(n: int)
    requires
        n >= 0,
    ensures
        dec_digits(n).len() >= 1,
        forall|t: int| 0 <= t < dec_digits(n).len() ==> is_digit(#[trigger] dec_digits(n)[t]),
        digits_val(dec_digits(n)) == n,
    decreases n,
{
    if n < 10 {
        assert(dec_digits(n) =~= seq![dec_digit(n)]);
        assert(digits_val(dec_digits(n).drop_last()) == 0);
    } else {
        lemma_dec_digits(n / 10);
        let pre = dec_digits(n / 10);
        let whole = dec_digits(n);
        assert(whole == pre.push(dec_digit(n % 10)));
        assert(whole.drop_last() =~= pre);
        assert(whole.last() == dec_digit(n % 10));
        assert(digits_val(whole) == digits_val(pre) * 10 + (dec_digit(n % 10) - 0x30));
        assert forall|t: int| 0 <= t < whole.len() implies is_digit(#[trigger] whole[t]) by {
            if t < pre.len() {
                assert(whole[t] == pre[t]);
            }
        }
    }
}

/// A run of digits bounded by a non-digit ends exactly where the
/// pattern says.
proof fn lemma_digit_run(s: Seq<u8>, i: int, ds: Seq<u8>)
    requires
        0 <= i,
        i + ds.len() <= s.len(),
        s.subrange(i, i + ds.len()) == ds,
        forall|t: int| 0 <= t < ds.len() ==> is_digit(#[trigger] ds[t]),
        no_digit_at(s, i + ds.len()),
    ensures
        digit_run_end(s, i) == i + ds.len(),
        s.subrange(i, digit_run_end(s, i)) == ds,
    decreases ds.len(),
{
    if ds.len() == 0 {
        assert(digit_run_end(s, i) == i);
    } else {
        lemma_subrange_index(s, i, ds);
        assert(s[i] == ds[0]);
        assert(is_digit(s[i]));
        let dd = ds.drop_first();
        assert(s.subrange(i + 1, i + 1 + dd.len()) =~= dd) by {
            assert forall|k: int| 0 <= k < dd.len() implies s.subrange(i + 1, i + 1 + dd.len())[k]
                == dd[k] by {
                assert(s.subrange(i + 1, i + 1 + dd.len())[k] == s[i + 1 + k]);
                assert(dd[k] == ds[k + 1]);
            }
        }
        assert forall|t: int| 0 <= t < dd.len() implies is_digit(#[trigger] dd[t]) by {
            assert(dd[t] == ds[t + 1]);
        }
        lemma_digit_run(s, i + 1, dd);
        assert(digit_run_end(s, i) == digit_run_end(s, i + 1));
    }
}

/// Parsing the decimal text of `0 <= n <= i64::MAX` gives back `n`.
proof fn lemma_parse_digits_ser(s: Seq<u8>, i: int, n: int)
    requires
        0 <= n <= i64::MAX,
        0 <= i,
        i + dec_digits(n).len() <= s.len(),
        s.subrange(i, i + dec_digits(n).len()) == dec_digits(n),
        no_digit_at(s, i + dec_digits(n).len()),
    ensures
        parse_digits(s, i) == Some((n, i + dec_digits(n).len())),
{
    lemma_dec_digits(n);
    lemma_digit_run(s, i, dec_digits(n));
}

/// Parsing the text of an integer in the codec's range gives it back.
proof fn lemma_parse_number_ser(s: Seq<u8>, i: int, n: int)
    requires
        i64::MIN < n <= i64::MAX,
        0 <= i,
        i + ser_int(n).len() <= s.len(),
        s.subrange(i, i + ser_int(n).len()) == ser_int(n),
        no_digit_at(s, i + ser_int(n).len()),
    ensures
        parse_number(s, i) == Some((JsonV::Num(n), i + ser_int(n).len())),
{
    if n < 0 {
        let m = -n;
        lemma_dec_digits(m);
        lemma_subrange_split(s, i, seq![B_MINUS], dec_digits(m));
        lemma_subrange_index(s, i, ser_int(n));
        assert(ser_int(n)[0] == B_MINUS);
        assert(s[i] == B_MINUS);
        lemma_parse_digits_ser(s, i + 1, m);
    } else {
        lemma_dec_digits(n);
        lemma_subrange_index(s, i, ser_int(n));
        assert(s[i] == dec_digits(n)[0]);
        assert(is_digit(s[i]));
        assert(s[i] != B_MINUS);
        lemma_parse_digits_ser(s, i, n);
    }
}

/// Reading a hexadecimal digit byte back gives the digit.
proof fn lemma_hex_digit_val(d: int)
    requires
        0 <= d < 16,
    ensures
        is_hex(hex_digit(d)),
        hex_val(hex_digit(d)) == d,
{
}

/// Parsing an escaped string body followed by its closing quote gives
/// back the bytes.
proof fn lemma_parse_string_ser(s: Seq<u8>, i: int, t: Seq<u8>)
    requires
        0 <= i,
        i + esc_bytes(t).len() + 1 <= s.len(),
        s.subrange(i, i + esc_bytes(t).len() + 1) == esc_bytes(t) + seq![B_QUOTE],
    ensures
        parse_string_body(s, i) == Some((t, i + esc_bytes(t).len() + 1)),
    decreases t.len(),
{
    let pat = esc_bytes(t) + seq![B_QUOTE];
    lemma_subrange_index(s, i, pat);
    if t.len() == 0 {
        assert(esc_bytes(t).len() == 0);
        assert(pat[0] == B_QUOTE);
        assert(s[i] == B_QUOTE);
    } else {
        let e0 = esc_byte(t[0]);
        let rest = t.drop_first();
        assert(esc_bytes(t) == e0 + esc_bytes(rest));
        let tail_pat = esc_bytes(rest) + seq![B_QUOTE];
        assert(pat =~= e0 + tail_pat);
        lemma_subrange_split(s, i, e0, tail_pat);
        lemma_subrange_index(s, i, e0);
        lemma_parse_string_ser(s, i + e0.len(), rest);
        let b = t[0];
        if b == B_QUOTE {
            assert(s[i] == B_BACKSLASH && s[i + 1] == B_QUOTE);
            assert(unescape1(s[i + 1]) == Some(B_QUOTE));
            assert(seq![b] + rest =~= t);
        } else if b == B_BACKSLASH {
            assert(s[i] == B_BACKSLASH && s[i + 1] == B_BACKSLASH);
            assert(unescape1(s[i + 1]) == Some(B_BACKSLASH));
            assert(seq![b] + rest =~= t);
        } else if b < 0x20 {
            assert(s[i] == B_BACKSLASH && s[i + 1] == 0x75);
            assert(s[i + 2] == 0x30 && s[i + 3] == 0x30);
            assert(s[i + 4] == hex_digit(b as int / 16));
            assert(s[i + 5] == hex_digit(b as int % 16));
            lemma_hex_digit_val(0);
            lemma_hex_digit_val(b as int / 16);
            lemma_hex_digit_val(b as int % 16);
            let cp = hex_val(s[i + 2]) * 4096 + hex_val(s[i + 3]) * 256 + hex_val(s[i + 4]) * 16
                + hex_val(s[i + 5]);
            assert(hex_val(s[i + 2]) == 0);
            assert(hex_val(s[i + 3]) == 0);
            assert(hex_val(s[i + 4]) == b as int / 16);
            assert(hex_val(s[i + 5]) == b as int % 16);
            assert(16 * (b as int / 16) + (b as int % 16) == b as int) by (nonlinear_arith);
            assert(cp == b as int);
            assert(cp < 0x80);
            assert(cp as u8 == b);
            assert(seq![cp as u8] =~= seq![b]);
            assert(seq![b] + rest =~= t);
            assert(seq![cp as u8] + rest =~= t);
        } else {
            assert(e0 =~= seq![b]);
            assert(e0[0] == b);
            assert(s[i] == b);
            assert(s[i] != B_QUOTE && s[i] != B_BACKSLASH);
            assert(seq![b] + rest =~= t);
        }
    }
}

/// The first byte of a value's frame text: never whitespace, never a
/// closing bracket, separator or colon.
proof fn lemma_ser_head(v: JsonV)
    ensures
        ser(v).len() >= 1,
        !is_ws(ser(v)[0]),
        ser(v)[0] != B_RBRACKET,
        ser(v)[0] != B_RBRACE,
        ser(v)[0] != B_COMMA,
        ser(v)[0] != B_COLON,
{
    match v {
        JsonV::Null => {
            assert(ser(v)[0] == 0x6e);
        },
        JsonV::Bool(b) => {
            if b {
                assert(ser(v)[0] == 0x74);
            } else {
                assert(ser(v)[0] == 0x66);
            }
        },
        JsonV::Num(n) => {
            if n < 0 {
                assert(ser(v) == seq![B_MINUS] + dec_digits(-n));
                assert(ser(v)[0] == B_MINUS);
            } else {
                lemma_dec_digits(n);
                assert(ser(v) == dec_digits(n));
                assert(is_digit(ser(v)[0]));
            }
        },
        JsonV::Str(t) => {
            assert(ser(v) == seq![B_QUOTE] + esc_bytes(t) + seq![B_QUOTE]);
            assert(ser(v)[0] == B_QUOTE);
        },
        JsonV::Arr(es) => {
            assert(ser(v) == seq![B_LBRACKET] + ser_elems(es) + seq![B_RBRACKET]);
            assert(ser(v)[0] == B_LBRACKET);
        },
        JsonV::Obj(ps) => {
            assert(ser(v) == seq![B_LBRACE] + ser_members(ps) + seq![B_RBRACE]);
            assert(ser(v)[0] == B_LBRACE);
        },
    }
}

/// Parsing the frame text of a well-formed value, bounded on the right
/// by a non-digit, gives the value back.
proof fn lemma_parse_value_ser(s: Seq<u8>, i: int, v: JsonV)
    requires
        v.wf(),
        0 <= i,
        i + ser(v).len() <= s.len(),
        s.subrange(i, i + ser(v).len()) == ser(v),
        no_digit_at(s, i + ser(v).len()),
    ensures
        parse_value(s, i) == Some((v, i + ser(v).len())),
    decreases ser(v).len(), 0int,
{
    lemma_ser_head(v);
    lemma_subrange_index(s, i, ser(v));
    assert(s[i] == ser(v)[0]);
    match v {
        JsonV::Null => {
            assert(ser(v) =~= seq![0x6eu8, 0x75, 0x6c, 0x6c]);
        },
        JsonV::Bool(b) => {
            if b {
                assert(ser(v) =~= seq![0x74u8, 0x72, 0x75, 0x65]);
            } else {
                assert(ser(v) =~= seq![0x66u8, 0x61, 0x6c, 0x73, 0x65]);
            }
        },
        JsonV::Num(n) => {
            assert(ser(v) == ser_int(n));
            lemma_parse_number_ser(s, i, n);
            if n < 0 {
                assert(ser_int(n)[0] == B_MINUS);
            } else {
                lemma_dec_digits(n);
                assert(is_digit(s[i]));
            }
        },
        JsonV::Str(t) => {
            assert(ser(v) =~= seq![B_QUOTE] + (esc_bytes(t) + seq![B_QUOTE]));
            lemma_subrange_split(s, i, seq![B_QUOTE], esc_bytes(t) + seq![B_QUOTE]);
            lemma_parse_string_ser(s, i + 1, t);
        },
        JsonV::Arr(es) => {
            assert(ser(v) =~= seq![B_LBRACKET] + (ser_elems(es) + seq![B_RBRACKET]));
            lemma_subrange_split(s, i, seq![B_LBRACKET], ser_elems(es) + seq![B_RBRACKET]);
            assert(wf_elems(es));
            lemma_parse_elems_ser_first(s, i + 1, es);
        },
        JsonV::Obj(ps) => {
            assert(ser(v) =~= seq![B_LBRACE] + (ser_members(ps) + seq![B_RBRACE]));
            lemma_subrange_split(s, i, seq![B_LBRACE], ser_members(ps) + seq![B_RBRACE]);
            assert(wf_pairs(ps));
            lemma_parse_members_ser_first(s, i + 1, ps);
        },
    }
}

/// Right after `[`: parsing the elements' text and the closing bracket
/// gives the elements back.
proof fn lemma_parse_elems_ser_first(s: Seq<u8>, i: int, es: Seq<JsonV>)
    requires
        wf_elems(es),
        0 <= i,
        i + ser_elems(es).len() + 1 <= s.len(),
        s.subrange(i, i + ser_elems(es).len() + 1) == ser_elems(es) + seq![B_RBRACKET],
    ensures
        parse_elems_first(s, i) == Some((es, i + ser_elems(es).len() + 1)),
    decreases ser_elems(es).len(), 3int,
{
    let pat = ser_elems(es) + seq![B_RBRACKET];
    lemma_subrange_index(s, i, pat);
    if es.len() == 0 {
        assert(pat[0] == B_RBRACKET);
        assert(s[i] == B_RBRACKET);
        assert(Seq::<JsonV>::empty() =~= es);
    } else {
        lemma_ser_head(es[0]);
        if es.len() == 1 {
            assert(ser_elems(es) == ser(es[0]));
        } else {
            assert(ser_elems(es) == ser(es[0]) + seq![B_COMMA] + ser_elems(es.drop_first()));
        }
        assert(pat[0] == ser(es[0])[0]);
        assert(s[i] == ser(es[0])[0]);
        lemma_parse_elems_ser_at(s, i, es);
    }
}

/// At a position where an element must stand: parsing the remaining
/// elements' text and the closing bracket gives them back.
proof fn lemma_parse_elems_ser_at(s: Seq<u8>, i: int, es: Seq<JsonV>)
    requires
        es.len() >= 1,
        wf_elems(es),
        0 <= i,
        i + ser_elems(es).len() + 1 <= s.len(),
        s.subrange(i, i + ser_elems(es).len() + 1) == ser_elems(es) + seq![B_RBRACKET],
    ensures
        parse_elems_at(s, i) == Some((es, i + ser_elems(es).len() + 1)),
    decreases ser_elems(es).len(), 2int,
{
    let v0 = es[0];
    lemma_wf_elems(es);
    assert(v0.wf());
    lemma_ser_head(v0);
    if es.len() == 1 {
        assert(ser_elems(es) == ser(v0));
        assert(ser_elems(es) + seq![B_RBRACKET] =~= ser(v0) + seq![B_RBRACKET]);
        lemma_subrange_split(s, i, ser(v0), seq![B_RBRACKET]);
        let j = i + ser(v0).len();
        lemma_subrange_index(s, j, seq![B_RBRACKET]);
        assert(s[j] == B_RBRACKET);
        lemma_parse_value_ser(s, i, v0);
        assert(parse_elems_after(s, j) == Some((Seq::<JsonV>::empty(), j + 1)));
        assert(seq![v0] + Seq::<JsonV>::empty() =~= es);
    } else {
        let rest = es.drop_first();
        assert(ser_elems(es) == ser(v0) + seq![B_COMMA] + ser_elems(rest));
        let tail = seq![B_COMMA] + (ser_elems(rest) + seq![B_RBRACKET]);
        assert(ser_elems(es) + seq![B_RBRACKET] =~= ser(v0) + tail);
        lemma_subrange_split(s, i, ser(v0), tail);
        let j = i + ser(v0).len();
        lemma_subrange_split(s, j, seq![B_COMMA], ser_elems(rest) + seq![B_RBRACKET]);
        lemma_subrange_index(s, j, seq![B_COMMA]);
        assert(s[j] == B_COMMA);
        lemma_parse_value_ser(s, i, v0);
        assert forall|k: int| 0 <= k < rest.len() implies (#[trigger] rest[k]).wf() by {
            assert(rest[k] == es[k + 1]);
        }
        lemma_wf_elems(rest);
        lemma_parse_elems_ser_at(s, j + 1, rest);
        assert(seq![v0] + rest =~= es);
    }
}

/// Right after `{`: parsing the members' text and the closing brace
/// gives the members back.
proof fn lemma_parse_members_ser_first(s: Seq<u8>, i: int, ps: Seq<(Seq<u8>, JsonV)>)
    requires
        wf_pairs(ps),
        0 <= i,
        i + ser_members(ps).len() + 1 <= s.len(),
        s.subrange(i, i + ser_members(ps).len() + 1) == ser_members(ps) + seq![B_RBRACE],
    ensures
        parse_members_first(s, i) == Some((ps, i + ser_members(ps).len() + 1)),
    decreases ser_members(ps).len(), 3int,
{
    let pat = ser_members(ps) + seq![B_RBRACE];
    lemma_subrange_index(s, i, pat);
    if ps.len() == 0 {
        assert(pat[0] == B_RBRACE);
        assert(s[i] == B_RBRACE);
        assert(Seq::<(Seq<u8>, JsonV)>::empty() =~= ps);
    } else {
        if ps.len() == 1 {
            assert(ser_members(ps) == ser_member(ps[0]));
        } else {
            assert(ser_members(ps) == ser_member(ps[0]) + seq![B_COMMA] + ser_members(
                ps.drop_first(),
            ));
        }
        assert(ser_member(ps[0])[0] == B_QUOTE);
        assert(pat[0] == B_QUOTE);
        assert(s[i] == B_QUOTE);
        lemma_parse_members_ser_at(s, i, ps);
    }
}

/// At a position where a member's key must stand: parsing the
/// remaining members' text and the closing brace gives them back.
proof fn lemma_parse_members_ser_at(s: Seq<u8>, i: int, ps: Seq<(Seq<u8>, JsonV)>)
    requires
        ps.len() >= 1,
        wf_pairs(ps),
        0 <= i,
        i + ser_members(ps).len() + 1 <= s.len(),
        s.subrange(i, i + ser_members(ps).len() + 1) == ser_members(ps) + seq![B_RBRACE],
    ensures
        parse_members_at(s, i) == Some((ps, i + ser_members(ps).len() + 1)),
    decreases ser_members(ps).len(), 2int,
{
    let key = ps[0].0;
    let val = ps[0].1;
    lemma_wf_pairs(ps);
    assert(val.wf());
    lemma_ser_head(val);
    assert(ser_member(ps[0]) == seq![B_QUOTE] + esc_bytes(key) + seq![B_QUOTE, B_COLON] + ser(val));
    assert(ser_member(ps[0])[0] == B_QUOTE);
    if ps.len() == 1 {
        assert((ser_members(ps) + seq![B_RBRACE])[0] == B_QUOTE);
    } else {
        assert(ser_members(ps) == ser_member(ps[0]) + seq![B_COMMA] + ser_members(ps.drop_first()));
        assert((ser_members(ps) + seq![B_RBRACE])[0] == B_QUOTE);
    }
    lemma_subrange_index(s, i, ser_members(ps) + seq![B_RBRACE]);
    assert(s[i] == B_QUOTE);
    let key_pat = esc_bytes(key) + seq![B_QUOTE];
    if ps.len() == 1 {
        assert(ser_members(ps) == ser_member(ps[0]));
        let after_val = seq![B_RBRACE];
        assert(ser_members(ps) + seq![B_RBRACE] =~= seq![B_QUOTE] + (key_pat + (seq![B_COLON] + (
        ser(val) + after_val))));
        lemma_subrange_split(s, i, seq![B_QUOTE], key_pat + (seq![B_COLON] + (ser(val)
            + after_val)));
        lemma_subrange_split(s, i + 1, key_pat, seq![B_COLON] + (ser(val) + after_val));
        let j = i + 1 + key_pat.len();
        lemma_subrange_split(s, j, seq![B_COLON], ser(val) + after_val);
        lemma_subrange_split(s, j + 1, ser(val), after_val);
        lemma_subrange_index(s, i, seq![B_QUOTE]);
        lemma_subrange_index(s, j, seq![B_COLON]);
        let m = j + 1 + ser(val).len();
        lemma_subrange_index(s, m, after_val);
        assert(s[i] == B_QUOTE && s[j] == B_COLON && s[m] == B_RBRACE);
        lemma_parse_string_ser(s, i + 1, key);
        lemma_parse_value_ser(s, j + 1, val);
        assert(parse_string_body(s, i + 1) == Some((key, j)));
        assert(parse_value(s, j + 1) == Some((val, m)));
        assert(parse_members_after(s, m) == Some((Seq::<(Seq<u8>, JsonV)>::empty(), m + 1)));
        assert(seq![(key, val)] + Seq::<(Seq<u8>, JsonV)>::empty() =~= ps);
        assert(parse_members_colon(s, j, key) == Some((ps, m + 1)));
        assert(m + 1 == i + ser_members(ps).len() + 1);
        assert(parse_members_at(s, i) == Some((ps, i + ser_members(ps).len() + 1)));
    } else {
        let rest = ps.drop_first();
        assert(ser_members(ps) == ser_member(ps[0]) + seq![B_COMMA] + ser_members(rest));
        let after_val = seq![B_COMMA] + (ser_members(rest) + seq![B_RBRACE]);
        assert(ser_members(ps) + seq![B_RBRACE] =~= seq![B_QUOTE] + (key_pat + (seq![B_COLON] + (
        ser(val) + after_val))));
        lemma_subrange_split(s, i, seq![B_QUOTE], key_pat + (seq![B_COLON] + (ser(val)
            + after_val)));
        lemma_subrange_split(s, i + 1, key_pat, seq![B_COLON] + (ser(val) + after_val));
        let j = i + 1 + key_pat.len();
        lemma_subrange_split(s, j, seq![B_COLON], ser(val) + after_val);
        lemma_subrange_split(s, j + 1, ser(val), after_val);
        let m = j + 1 + ser(val).len();
        lemma_subrange_split(s, m, seq![B_COMMA], ser_members(rest) + seq![B_RBRACE]);
        lemma_subrange_index(s, i, seq![B_QUOTE]);
        lemma_subrange_index(s, j, seq![B_COLON]);
        lemma_subrange_index(s, m, seq![B_COMMA]);
        assert(s[i] == B_QUOTE && s[j] == B_COLON && s[m] == B_COMMA);
        lemma_parse_string_ser(s, i + 1, key);
        lemma_parse_value_ser(s, j + 1, val);
        assert(parse_string_body(s, i + 1) == Some((key, j)));
        assert(parse_value(s, j + 1) == Some((val, m)));
        assert forall|k: int| 0 <= k < rest.len() implies (#[trigger] rest[k]).1.wf() by {
            assert(rest[k] == ps[k + 1]);
        }
        lemma_wf_pairs(rest);
        lemma_parse_members_ser_at(s, m + 1, rest);
        let end = m + 1 + ser_members(rest).len() + 1;
        assert(parse_members_at(s, m + 1) == Some((rest, end)));
        assert(parse_members_after(s, m) == Some((rest, end)));
        assert(seq![(key, val)] + rest =~= ps);
        assert(parse_members_colon(s, j, key) == Some((ps, end)));
        assert(end == i + ser_members(ps).len() + 1);
        assert(parse_members_at(s, i) == Some((ps, i + ser_members(ps).len() + 1)));
    }
}

/// Every byte of a digit run is a digit, and the run never moves left.
proof fn lemma_digit_run_props(s: Seq<u8>, i: int)
    ensures
        i <= digit_run_end(s, i),
        forall|t: int| i <= t < digit_run_end(s, i) ==> is_digit(#[trigger] s[t]),
        digit_run_end(s, i) != i ==> 0 <= i && digit_run_end(s, i) <= s.len(),
    decreases s.len() - i,
{
    if 0 <= i < s.len() && is_digit(s[i]) {
        lemma_digit_run_props(s, i + 1);
    }
}

/// A parsed number is in the codec's range.
proof fn lemma_parse_number_wf(s: Seq<u8>, i: int)
    ensures
        parse_number(s, i) matches Some((v, j)) ==> v.wf(),
{
    lemma_digit_run_props(s, i);
    lemma_digit_run_props(s, i + 1);
    let j0 = digit_run_end(s, i);
    if j0 != i {
        let ds = s.subrange(i, j0);
        assert forall|t: int| 0 <= t < ds.len() implies is_digit(#[trigger] ds[t]) by {
            assert(ds[t] == s[i + t]);
        }
        lemma_digits_val_nonneg(ds);
    }
    let j1 = digit_run_end(s, i + 1);
    if j1 != i + 1 {
        let ds = s.subrange(i + 1, j1);
        assert forall|t: int| 0 <= t < ds.len() implies is_digit(#[trigger] ds[t]) by {
            assert(ds[t] == s[i + 1 + t]);
        }
        lemma_digits_val_nonneg(ds);
    }
}

/// Whatever the value parser accepts is well formed.
proof fn lemma_parse_value_wf(s: Seq<u8>, i: int)
    ensures
        parse_value(s, i) matches Some((v, j)) ==> v.wf(),
    decreases s.len() - i, 0int,
{
    if 0 <= i < s.len() && is_ws(s[i]) {
        lemma_parse_value_wf(s, i + 1);
    } else if 0 <= i < s.len() {
        if s[i] == B_MINUS || is_digit(s[i]) {
            lemma_parse_number_wf(s, i);
        } else if s[i] == B_LBRACKET {
            lemma_parse_elems_first_wf(s, i + 1);
            match parse_elems_first(s, i + 1) {
                Some((es, _)) => {
                    assert(JsonV::Arr(es).wf() == wf_elems(es));
                },
                None => {},
            }
        } else if s[i] == B_LBRACE {
            lemma_parse_members_first_wf(s, i + 1);
            match parse_members_first(s, i + 1) {
                Some((ps, _)) => {
                    assert(JsonV::Obj(ps).wf() == wf_pairs(ps));
                },
                None => {},
            }
        }
    }
}

proof fn lemma_parse_elems_first_wf(s: Seq<u8>, i: int)
    ensures
        parse_elems_first(s, i) matches Some((es, j)) ==> wf_elems(es),
    decreases s.len() - i, 2int,
{
    if 0 <= i < s.len() && is_ws(s[i]) {
        lemma_parse_elems_first_wf(s, i + 1);
    } else if 0 <= i < s.len() && s[i] == B_RBRACKET {
    } else {
        lemma_parse_elems_at_wf(s, i);
    }
}

proof fn lemma_parse_elems_at_wf(s: Seq<u8>, i: int)
    ensures
        parse_elems_at(s, i) matches Some((es, j)) ==> wf_elems(es),
    decreases s.len() - i, 1int,
{
    lemma_parse_value_wf(s, i);
    match parse_value(s, i) {
        Some((v, j)) => {
            if i < j <= s.len() {
                lemma_parse_elems_after_wf(s, j);
                match parse_elems_after(s, j) {
                    Some((vs, _)) => {
                        lemma_wf_elems(vs);
                        lemma_wf_elems(seq![v] + vs);
                        assert forall|k: int| 0 <= k < (seq![v] + vs).len() implies (#[trigger] (
                        seq![v] + vs)[k]).wf() by {
                            if k > 0 {
                                assert((seq![v] + vs)[k] == vs[k - 1]);
                            }
                        }
                    },
                    None => {},
                }
            }
        },
        None => {},
    }
}

proof fn lemma_parse_elems_after_wf(s: Seq<u8>, i: int)
    ensures
        parse_elems_after(s, i) matches Some((es, j)) ==> wf_elems(es),
    decreases s.len() - i, 2int,
{
    if 0 <= i < s.len() && is_ws(s[i]) {
        lemma_parse_elems_after_wf(s, i + 1);
    } else if 0 <= i < s.len() && s[i] == B_COMMA {
        lemma_parse_elems_at_wf(s, i + 1);
    }
}

proof fn lemma_parse_members_first_wf(s: Seq<u8>, i: int)
    ensures
        parse_members_first(s, i) matches Some((ps, j)) ==> wf_pairs(ps),
    decreases s.len() - i, 3int,
{
    if 0 <= i < s.len() && is_ws(s[i]) {
        lemma_parse_members_first_wf(s, i + 1);
    } else if 0 <= i < s.len() && s[i] == B_RBRACE {
    } else {
        lemma_parse_members_at_wf(s, i);
    }
}

proof fn lemma_parse_members_at_wf(s: Seq<u8>, i: int)
    ensures
        parse_members_at(s, i) matches Some((ps, j)) ==> wf_pairs(ps),
    decreases s.len() - i, 1int,
{
    if 0 <= i < s.len() && is_ws(s[i]) {
        lemma_parse_members_at_wf(s, i + 1);
    } else if 0 <= i < s.len() && s[i] == B_QUOTE {
        match parse_string_body(s, i + 1) {
            Some((key, j)) => {
                if i < j <= s.len() {
                    lemma_parse_members_colon_wf(s, j, key);
                }
            },
            None => {},
        }
    }
}

proof fn lemma_parse_members_colon_wf(s: Seq<u8>, i: int, key: Seq<u8>)
    ensures
        parse_members_colon(s, i, key) matches Some((ps, j)) ==> wf_pairs(ps),
    decreases s.len() - i, 2int,
{
    if 0 <= i < s.len() && is_ws(s[i]) {
        lemma_parse_members_colon_wf(s, i + 1, key);
    } else if 0 <= i < s.len() && s[i] == B_COLON {
        lemma_parse_value_wf(s, i + 1);
        match parse_value(s, i + 1) {
            Some((v, j)) => {
                if i < j <= s.len() {
                    lemma_parse_members_after_wf(s, j);
                    match parse_members_after(s, j) {
                        Some((ms, _)) => {
                            lemma_wf_pairs(ms);
                            lemma_wf_pairs(seq![(key, v)] + ms);
                            assert forall|k: int| 0 <= k < (seq![(key, v)] + ms).len() implies (
                            #[trigger] (seq![(key, v)] + ms)[k]).1.wf() by {
                                if k > 0 {
                                    assert((seq![(key, v)] + ms)[k] == ms[k - 1]);
                                }
                            }
                        },
                        None => {},
                    }
                }
            },
            None => {},
        }
    }
}

proof fn lemma_parse_members_after_wf(s: Seq<u8>, i: int)
    ensures
        parse_members_after(s, i) matches Some((ps, j)) ==> wf_pairs(ps),
    decreases s.len() - i, 2int,
{
    if 0 <= i < s.len() && is_ws(s[i]) {
        lemma_parse_members_after_wf(s, i + 1);
    } else if 0 <= i < s.len() && s[i] == B_COMMA {
        lemma_parse_members_at_wf(s, i + 1);
    }
}

/// A found member of a well-formed object is well formed.
proof fn lemma_obj_lookup_wf(ps: Seq<(Seq<u8>, JsonV)>, key: Seq<u8>)
    requires
        wf_pairs(ps),
    ensures
        obj_lookup(ps, key) matches Some(u) ==> u.wf(),
    decreases ps.len(),
{
    lemma_wf_pairs(ps);
    if ps.len() > 0 && ps[0].0 != key {
        assert forall|k: int| 0 <= k < ps.drop_first().len() implies (#[trigger] ps.drop_first()[k]).1.wf() by {
            assert(ps.drop_first()[k] == ps[k + 1]);
        }
        lemma_wf_pairs(ps.drop_first());
        lemma_obj_lookup_wf(ps.drop_first(), key);
    }
}

/// Whatever decodes is itself a well-formed request, so every law
/// above applies to anything a client can actually send.
pub proof fn lemma_decode_wf(s: Seq<u8>)
    ensures
        decode_req(s) matches Some(req) ==> req_wf(req),
{
    lemma_parse_value_wf(s, 0);
    match parse_text(s) {
        Some(v) => {
            match v {
                JsonV::Obj(ps) => {
                    assert(v.wf());
                    assert(wf_pairs(ps));
                    lemma_obj_lookup_wf(ps, key_params());
                    match obj_lookup(ps, key_params()) {
                        Some(u) => {
                            match u {
                                JsonV::Arr(es) => {
                                    assert(u.wf());
                                    assert(wf_elems(es));
                                },
                                _ => {},
                            }
                        },
                        None => {},
                    }
                },
                _ => {},
            }
        },
        None => {},
    }
}

/// Round-trip framing: a well-formed request, framed by the encoder
/// and handed to the session as one line, decodes back to itself and
/// earns exactly one response frame, which carries the request's own
/// correlation id.
pub proof fn lemma_round_trip(req: ReqV)
    requires
        req_wf(req),
    ensures
        decode_req(ser(req_json(req)) + seq![B_LF]) == Some(req),
        step(ser(req_json(req)) + seq![B_LF]) == Some(response_frame(req)),
        response_of(req).id == req.id,
{
    let v = req_json(req);
    let pairs = seq![
        (key_id(), JsonV::Num(req.id)),
        (key_method(), JsonV::Str(req.method)),
        (key_params(), JsonV::Arr(req.params)),
    ];
    lemma_wf_pairs(pairs);
    assert forall|k: int| 0 <= k < pairs.len() implies (#[trigger] pairs[k]).1.wf() by {
        if k == 0 {
            assert(pairs[0].1 == JsonV::Num(req.id));
        } else if k == 1 {
            assert(pairs[1].1 == JsonV::Str(req.method));
        } else {
            assert(pairs[2].1 == JsonV::Arr(req.params));
            assert(JsonV::Arr(req.params).wf() == wf_elems(req.params));
        }
    }
    assert(wf_pairs(pairs));
    assert(v.wf());

    let body = ser(v);
    let frame = body + seq![B_LF];
    assert(frame.subrange(0, body.len() as int) =~= body);
    assert(frame[body.len() as int] == B_LF);
    assert(!is_digit(B_LF));
    lemma_parse_value_ser(frame, 0, v);
    assert(parse_value(frame, 0) == Some((v, body.len() as int)));
    assert(ws_only(frame, body.len() as int + 1));
    assert(ws_only(frame, body.len() as int));
    assert(parse_text(frame) == Some(v));

    assert(obj_lookup(pairs, key_id()) == Some(JsonV::Num(req.id)));
    assert(key_id().len() == 2 && key_method().len() == 6 && key_params().len() == 6);
    assert(key_method()[0] == 0x6d && key_params()[0] == 0x70);
    assert(key_method() != key_params());
    let p1 = pairs.drop_first();
    let p2 = p1.drop_first();
    assert(p1[0] == pairs[1]);
    assert(p2[0] == pairs[2]);
    assert(obj_lookup(pairs, key_method()) == obj_lookup(p1, key_method()));
    assert(obj_lookup(p1, key_method()) == Some(JsonV::Str(req.method)));
    assert(obj_lookup(pairs, key_params()) == obj_lookup(p1, key_params()));
    assert(obj_lookup(p1, key_params()) == obj_lookup(p2, key_params()));
    assert(obj_lookup(p2, key_params()) == Some(JsonV::Arr(req.params)));
    assert(req_of_json(v) == Some(ReqV { id: req.id, method: req.method, params: req.params }));
    assert(ReqV { id: req.id, method: req.method, params: req.params } == req);
    assert(decode_req(frame) == Some(req));
}

/// The emitted response frame is readable on the client's side: it
/// parses as one JSON object whose `id` member is the request's own
/// correlation id, whatever the dispatch outcome was.
pub proof fn lemma_response_frame_readable(req: ReqV)
    requires
        req_wf(req),
    ensures
        parse_text(response_frame(req)) == Some(res_json(response_of(req))),
        res_json(response_of(req)) is Obj,
        obj_lookup(res_json(response_of(req))->Obj_0, key_id()) == Some(JsonV::Num(req.id)),
{
    let res = response_of(req);
    let v = res_json(res);
    let pairs = v->Obj_0;
    lemma_wf_pairs(pairs);
    assert forall|k: int| 0 <= k < pairs.len() implies (#[trigger] pairs[k]).1.wf() by {
        if k == 0 {
            assert(pairs[0].1 == JsonV::Num(res.id));
        } else if k == 1 {
            assert(pairs[1].1 == res.result);
            assert(res.result.wf());
        } else {
            assert(pairs[2].1 == (match res.error {
                Some(e) => JsonV::Str(e),
                None => JsonV::Null,
            }));
        }
    }
    assert(wf_pairs(pairs));
    assert(v.wf());

    let body = ser(v);
    let frame = response_frame(req);
    assert(frame == body + seq![B_LF]);
    assert(frame.subrange(0, body.len() as int) =~= body);
    assert(frame[body.len() as int] == B_LF);
    lemma_parse_value_ser(frame, 0, v);
    assert(ws_only(frame, body.len() as int + 1));
    assert(ws_only(frame, body.len() as int));
    assert(parse_text(frame) == Some(v));
    assert(obj_lookup(pairs, key_id()) == Some(JsonV::Num(res.id)));
}

/// Unknown-method outcome: every method name outside the registry earns
/// the response `{id, result: null, error: "Unknown method"}`, with the
/// id echoed unchanged.
pub proof fn lemma_unknown_method(req: ReqV)
    requires
        req.method != method_blockhash(),
        req.method != method_blockcount(),
    ensures
        response_of(req) == (ResV {
            id: req.id,
            result: JsonV::Null,
            error: Some(unknown_method_text()),
        }),
{
}

} // verus!
