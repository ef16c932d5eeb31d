//! The wire-format value type and its mathematical model.
//!
//! The protocol carries one JSON object per newline-terminated frame.
//! `Json` is the executable value type; `JsonV` is its model, used by
//! every contract. Strings are byte sequences: the codec treats bytes
//! above 0x7f as opaque payload, so no character decoding is needed.
//! Numbers are integers representable in `i64`; the wire grammar
//! rejects fractions, exponents and out-of-range literals.

use vstd::prelude::*;

verus! {

/// One JSON value as the library holds it.
pub enum Json {
    Null,
    Bool(bool),
    Num(i64),
    Str(Vec<u8>),
    Arr(Vec<Json>),
    Obj(Vec<(Vec<u8>, Json)>),
}

/// The mathematical model of a JSON value.
#[verifier::ext_equal]
pub enum JsonV {
    Null,
    Bool(bool),
    Num(int),
    Str(Seq<u8>),
    Arr(Seq<JsonV>),
    Obj(Seq<(Seq<u8>, JsonV)>),
}

impl Json {
    /// The model of this value: the same tree over `Seq` and `int`.
    pub open spec fn model(self) -> JsonV
        decreases self,
    {
        match self {
            Json::Null => JsonV::Null,
            Json::Bool(b) => JsonV::Bool(b),
            Json::Num(n) => JsonV::Num(n as int),
            Json::Str(s) => JsonV::Str(s@),
            Json::Arr(es) => JsonV::Arr(model_elems(es@)),
            Json::Obj(ps) => JsonV::Obj(model_pairs(ps@)),
        }
    }
}

/// The models of a sequence of values, in order.
pub open spec fn model_elems(es: Seq<Json>) -> Seq<JsonV>
    decreases es,
{
    if es.len() == 0 {
        Seq::empty()
    } else {
        model_elems(es.drop_last()).push(es.last().model())
    }
}

/// The models of a sequence of key/value pairs, in order.
pub open spec fn model_pairs(ps: Seq<(Vec<u8>, Json)>) -> Seq<(Seq<u8>, JsonV)>
    decreases ps,
{
    if ps.len() == 0 {
        Seq::empty()
    } else {
        model_pairs(ps.drop_last()).push((ps.last().0@, ps.last().1.model()))
    }
}

/// `model_elems` maps each element to its model.
pub broadcast proof fn lemma_model_elems(es: Seq<Json>)
    ensures
        (#[trigger] model_elems(es)).len() == es.len(),
        forall|i: int| 0 <= i < es.len() ==> model_elems(es)[i] == #[trigger] es[i].model(),
    decreases es.len(),
{
    if es.len() > 0 {
        lemma_model_elems(es.drop_last());
        assert forall|i: int| 0 <= i < es.len() implies model_elems(es)[i] == #[trigger] es[i].model() by {
            if i < es.len() - 1 {
                assert(es.drop_last()[i] == es[i]);
            }
        }
    }
}

/// `model_pairs` maps each pair to its model.
pub broadcast proof fn lemma_model_pairs(ps: Seq<(Vec<u8>, Json)>)
    ensures
        (#[trigger] model_pairs(ps)).len() == ps.len(),
        forall|i: int| 0 <= i < ps.len() ==> model_pairs(ps)[i] == ((#[trigger] ps[i]).0@, ps[i].1.model()),
    decreases ps.len(),
{
    if ps.len() > 0 {
        lemma_model_pairs(ps.drop_last());
        assert forall|i: int| 0 <= i < ps.len() implies model_pairs(ps)[i] == ((#[trigger] ps[i]).0@, ps[i].1.model()) by {
            if i < ps.len() - 1 {
                assert(ps.drop_last()[i] == ps[i]);
            }
        }
    }
}

/// Named punctuation bytes of the frame grammar.
pub const B_QUOTE: u8 = 0x22;

pub const B_BACKSLASH: u8 = 0x5c;

pub const B_LBRACKET: u8 = 0x5b;

pub const B_RBRACKET: u8 = 0x5d;

pub const B_LBRACE: u8 = 0x7b;

pub const B_RBRACE: u8 = 0x7d;

pub const B_COMMA: u8 = 0x2c;

pub const B_COLON: u8 = 0x3a;

pub const B_MINUS: u8 = 0x2d;

pub const B_LF: u8 = 0x0a;

/// The byte standing for a decimal digit value.
pub open spec fn dec_digit(d: int) -> u8 {
    (0x30 + d) as u8
}

/// The byte standing for a hexadecimal digit value, lower case.
pub open spec fn hex_digit(d: int) -> u8 {
    if d < 10 {
        (0x30 + d) as u8
    } else {
        (0x61 + (d - 10)) as u8
    }
}

/// The decimal digits of `n >= 0`, most significant first, no leading zeros.
pub open spec fn dec_digits(n: int) -> Seq<u8>
    decreases n,
{
    if n < 10 {
        seq![dec_digit(n)]
    } else {
        dec_digits(n / 10).push(dec_digit(n % 10))
    }
}

/// The frame text of an integer: an optional minus sign and decimal digits.
pub open spec fn ser_int(n: int) -> Seq<u8> {
    if n < 0 {
        seq![B_MINUS] + dec_digits(-n)
    } else {
        dec_digits(n)
    }
}

/// The frame bytes standing for one string byte: quote and backslash are
/// escaped, control bytes become `\u00xx`, everything else passes through.
pub open spec fn esc_byte(b: u8) -> Seq<u8> {
    if b == B_QUOTE {
        seq![B_BACKSLASH, B_QUOTE]
    } else if b == B_BACKSLASH {
        seq![B_BACKSLASH, B_BACKSLASH]
    } else if b < 0x20 {
        seq![B_BACKSLASH, 0x75, 0x30, 0x30, hex_digit(b as int / 16), hex_digit(b as int % 16)]
    } else {
        seq![b]
    }
}

/// The escaped form of a whole string body.
pub open spec fn esc_bytes(s: Seq<u8>) -> Seq<u8>
    decreases s.len(),
{
    if s.len() == 0 {
        Seq::empty()
    } else {
        esc_byte(s[0]) + esc_bytes(s.drop_first())
    }
}

/// The canonical frame text of a value: minimal JSON, no whitespace.
pub open spec fn ser(v: JsonV) -> Seq<u8>
    decreases v, 1int,
{
    match v {
        JsonV::Null => seq![0x6eu8, 0x75, 0x6c, 0x6c],
        JsonV::Bool(b) => if b {
            seq![0x74u8, 0x72, 0x75, 0x65]
        } else {
            seq![0x66u8, 0x61, 0x6c, 0x73, 0x65]
        },
        JsonV::Num(n) => ser_int(n),
        JsonV::Str(s) => seq![B_QUOTE] + esc_bytes(s) + seq![B_QUOTE],
        JsonV::Arr(es) => seq![B_LBRACKET] + ser_elems(es) + seq![B_RBRACKET],
        JsonV::Obj(ps) => seq![B_LBRACE] + ser_members(ps) + seq![B_RBRACE],
    }
}

/// The frame text of array elements, comma separated.
pub open spec fn ser_elems(es: Seq<JsonV>) -> Seq<u8>
    decreases es, 0int,
{
    if es.len() == 0 {
        Seq::empty()
    } else if es.len() == 1 {
        ser(es[0])
    } else {
        ser(es[0]) + seq![B_COMMA] + ser_elems(es.drop_first())
    }
}

/// The frame text of one object member: quoted key, colon, value.
pub open spec fn ser_member(p: (Seq<u8>, JsonV)) -> Seq<u8>
    decreases p, 2int,
{
    seq![B_QUOTE] + esc_bytes(p.0) + seq![B_QUOTE, B_COLON] + ser(p.1)
}

/// The frame text of object members, comma separated.
pub open spec fn ser_members(ps: Seq<(Seq<u8>, JsonV)>) -> Seq<u8>
    decreases ps, 0int,
{
    if ps.len() == 0 {
        Seq::empty()
    } else if ps.len() == 1 {
        ser_member(ps[0])
    } else {
        ser_member(ps[0]) + seq![B_COMMA] + ser_members(ps.drop_first())
    }
}

impl JsonV {
    /// A model value the codec carries both ways: every number fits
    /// `i64`, and the one magnitude whose text the number grammar
    /// rejects (`i64::MIN`) is left out.
    pub open spec fn wf(self) -> bool
        decreases self, 1int,
    {
        match self {
            JsonV::Null => true,
            JsonV::Bool(_) => true,
            JsonV::Num(n) => i64::MIN < n <= i64::MAX,
            JsonV::Str(_) => true,
            JsonV::Arr(es) => wf_elems(es),
            JsonV::Obj(ps) => wf_pairs(ps),
        }
    }
}

/// Every value of the sequence is well formed.
pub open spec fn wf_elems(es: Seq<JsonV>) -> bool
    decreases es, 0int,
{
    if es.len() == 0 {
        true
    } else {
        wf_elems(es.drop_last()) && es.last().wf()
    }
}

/// Every pair's value is well formed.
pub open spec fn wf_pairs(ps: Seq<(Seq<u8>, JsonV)>) -> bool
    decreases ps, 0int,
{
    if ps.len() == 0 {
        true
    } else {
        wf_pairs(ps.drop_last()) && ps.last().1.wf()
    }
}

/// `wf_elems` holds exactly when each element is well formed.
pub broadcast proof fn lemma_wf_elems(es: Seq<JsonV>)
    ensures
        #[trigger] wf_elems(es) <==> (forall|i: int| 0 <= i < es.len() ==> (#[trigger] es[i]).wf()),
    decreases es.len(),
{
    if es.len() > 0 {
        lemma_wf_elems(es.drop_last());
        if wf_elems(es) {
            assert forall|i: int| 0 <= i < es.len() implies (#[trigger] es[i]).wf() by {
                if i < es.len() - 1 {
                    assert(es.drop_last()[i] == es[i]);
                } else {
                    assert(es[i] == es.last());
                }
            }
        }
        if forall|i: int| 0 <= i < es.len() ==> (#[trigger] es[i]).wf() {
            assert forall|i: int| 0 <= i < es.drop_last().len() implies (#[trigger] es.drop_last()[i]).wf() by {
                assert(es.drop_last()[i] == es[i]);
            }
            assert(es.last() == es[es.len() - 1]);
            assert(wf_elems(es));
        }
    }
}

/// `wf_pairs` holds exactly when each pair's value is well formed.
pub broadcast proof fn lemma_wf_pairs(ps: Seq<(Seq<u8>, JsonV)>)
    ensures
        #[trigger] wf_pairs(ps) <==> (forall|i: int|
            0 <= i < ps.len() ==> (#[trigger] ps[i]).1.wf()),
    decreases ps.len(),
{
    if ps.len() > 0 {
        lemma_wf_pairs(ps.drop_last());
        if wf_pairs(ps) {
            assert forall|i: int| 0 <= i < ps.len() implies (#[trigger] ps[i]).1.wf() by {
                if i < ps.len() - 1 {
                    assert(ps.drop_last()[i] == ps[i]);
                } else {
                    assert(ps[i] == ps.last());
                }
            }
        }
        if forall|i: int| 0 <= i < ps.len() ==> (#[trigger] ps[i]).1.wf() {
            assert forall|i: int| 0 <= i < ps.drop_last().len() implies (#[trigger] ps.drop_last()[i]).1.wf() by {
                assert(ps.drop_last()[i] == ps[i]);
            }
            assert(ps.last() == ps[ps.len() - 1]);
            assert(wf_pairs(ps));
        }
    }
}

/// Append the decimal digits of `m`, most significant first.
fn encode_digits(m: u64, out: &mut Vec<u8>)
    ensures
        final(out)@ == old(out)@ + dec_digits(m as int),
    decreases m,
{
    if m < 10 {
        out.push((0x30 + m as u8));
        assert(out@ =~= old(out)@ + dec_digits(m as int));
    } else {
        encode_digits(m / 10, out);
        out.push((0x30 + (m % 10) as u8));
        assert(out@ =~= old(out)@ + dec_digits(m as int));
    }
}

/// Append the frame text of an `i64`.
fn encode_int(n: i64, out: &mut Vec<u8>)
    ensures
        final(out)@ == old(out)@ + ser_int(n as int),
{
    if n < 0 {
        out.push(B_MINUS);
        let m: u64 = (-(n as i128)) as u64;
        assert(m as int == -(n as int));
        encode_digits(m, out);
        assert(out@ =~= old(out)@ + ser_int(n as int));
    } else {
        encode_digits(n as u64, out);
    }
}

/// Append the escaped form of the string body `s`, from index `k` on.
fn encode_str_bytes(s: &Vec<u8>, k: usize, out: &mut Vec<u8>)
    requires
        k <= s@.len(),
    ensures
        final(out)@ == old(out)@ + esc_bytes(s@.subrange(k as int, s@.len() as int)),
    decreases s@.len() - k,
{
    if k == s.len() {
        assert(out@ =~= old(out)@ + esc_bytes(s@.subrange(k as int, s@.len() as int)));
    } else {
        let b = s[k];
        if b == B_QUOTE {
            out.push(B_BACKSLASH);
            out.push(B_QUOTE);
        } else if b == B_BACKSLASH {
            out.push(B_BACKSLASH);
            out.push(B_BACKSLASH);
        } else if b < 0x20 {
            out.push(B_BACKSLASH);
            out.push(0x75);
            out.push(0x30);
            out.push(0x30);
            out.push(if b / 16 < 10 { 0x30 + b / 16 } else { 0x61 + (b / 16 - 10) });
            out.push(if b % 16 < 10 { 0x30 + b % 16 } else { 0x61 + (b % 16 - 10) });
        } else {
            out.push(b);
        }
        let ghost mid = out@;
        assert(mid == old(out)@ + esc_byte(s@[k as int]));
        encode_str_bytes(s, k + 1, out);
        proof {
            let whole = s@.subrange(k as int, s@.len() as int);
            assert(whole.drop_first() =~= s@.subrange(k + 1, s@.len() as int));
            assert(out@ =~= old(out)@ + esc_bytes(whole));
        }
    }
}

/// Append the canonical frame text of `v`.
pub fn encode_value(v: &Json, out: &mut Vec<u8>)
    ensures
        final(out)@ == old(out)@ + ser(v.model()),
    decreases *v, 1int,
{
    match v {
        Json::Null => {
            out.push(0x6e);
            out.push(0x75);
            out.push(0x6c);
            out.push(0x6c);
            assert(out@ =~= old(out)@ + ser(v.model()));
        },
        Json::Bool(b) => {
            if *b {
                out.push(0x74);
                out.push(0x72);
                out.push(0x75);
                out.push(0x65);
            } else {
                out.push(0x66);
                out.push(0x61);
                out.push(0x6c);
                out.push(0x73);
                out.push(0x65);
            }
            assert(out@ =~= old(out)@ + ser(v.model()));
        },
        Json::Num(n) => {
            encode_int(*n, out);
        },
        Json::Str(s) => {
            out.push(B_QUOTE);
            encode_str_bytes(s, 0, out);
            out.push(B_QUOTE);
            proof {
                assert(s@.subrange(0, s@.len() as int) =~= s@);
                assert(out@ =~= old(out)@ + ser(v.model()));
            }
        },
        Json::Arr(es) => {
            out.push(B_LBRACKET);
            if es.len() > 0 {
                encode_elems(es, 0, out);
            }
            out.push(B_RBRACKET);
            proof {
                lemma_model_elems(es@);
                assert(model_elems(es@).subrange(0, model_elems(es@).len() as int) =~= model_elems(es@));
                assert(out@ =~= old(out)@ + ser(v.model()));
            }
        },
        Json::Obj(ps) => {
            out.push(B_LBRACE);
            if ps.len() > 0 {
                encode_members(ps, 0, out);
            }
            out.push(B_RBRACE);
            proof {
                lemma_model_pairs(ps@);
                assert(model_pairs(ps@).subrange(0, model_pairs(ps@).len() as int) =~= model_pairs(ps@));
                assert(out@ =~= old(out)@ + ser(v.model()));
            }
        },
    }
}

/// Append the frame text of the elements `es[k..]`, comma separated.
fn encode_elems(es: &Vec<Json>, k: usize, out: &mut Vec<u8>)
    requires
        k < es@.len(),
    ensures
        final(out)@ == old(out)@ + ser_elems(model_elems(es@).subrange(k as int, es@.len() as int)),
    decreases es@, es@.len() - k,
{
    proof {
        lemma_model_elems(es@);
    }
    encode_value(&es[k], out);
    let ghost tail = model_elems(es@).subrange(k as int, es@.len() as int);
    if k < es.len() - 1 {
        out.push(B_COMMA);
        encode_elems(es, k + 1, out);
        proof {
            assert(tail.drop_first() =~= model_elems(es@).subrange(k + 1, es@.len() as int));
            assert(tail[0] == es@[k as int].model());
            assert(out@ =~= old(out)@ + ser_elems(tail));
        }
    } else {
        proof {
            assert(tail =~= seq![es@[k as int].model()]);
            assert(out@ =~= old(out)@ + ser_elems(tail));
        }
    }
}

/// Append the frame text of the members `ps[k..]`, comma separated.
fn encode_members(ps: &Vec<(Vec<u8>, Json)>, k: usize, out: &mut Vec<u8>)
    requires
        k < ps@.len(),
    ensures
        final(out)@ == old(out)@ + ser_members(model_pairs(ps@).subrange(k as int, ps@.len() as int)),
    decreases ps@, ps@.len() - k,
{
    proof {
        lemma_model_pairs(ps@);
    }
    out.push(B_QUOTE);
    encode_str_bytes(&ps[k].0, 0, out);
    out.push(B_QUOTE);
    out.push(B_COLON);
    encode_value(&ps[k].1, out);
    let ghost tail = model_pairs(ps@).subrange(k as int, ps@.len() as int);
    proof {
        assert(ps@[k as int].0@.subrange(0, ps@[k as int].0@.len() as int) =~= ps@[k as int].0@);
        assert(tail[0] == (ps@[k as int].0@, ps@[k as int].1.model()));
        assert(out@ =~= old(out)@ + seq![B_QUOTE] + esc_bytes(ps@[k as int].0@) + seq![B_QUOTE]
            + seq![B_COLON] + ser(ps@[k as int].1.model()));
        assert(out@ =~= old(out)@ + ser_member(tail[0]));
    }
    if k < ps.len() - 1 {
        out.push(B_COMMA);
        encode_members(ps, k + 1, out);
        proof {
            assert(tail.drop_first() =~= model_pairs(ps@).subrange(k + 1, ps@.len() as int));
            assert(out@ =~= old(out)@ + ser_members(tail));
        }
    } else {
        proof {
            assert(tail =~= seq![(ps@[k as int].0@, ps@[k as int].1.model())]);
            assert(out@ =~= old(out)@ + ser_members(tail));
        }
    }
}

} // verus!
