//! The frame parser: from bytes to a JSON value.
//!
//! The grammar is given by the `parse_*` spec functions; the executable
//! parser is proved to return exactly what they say. Whitespace may
//! stand around every token; strings take the standard escapes plus
//! `\uXXXX` for code points below 0x80; numbers are optionally signed
//! decimal integers whose magnitude fits `i64`. Anything else, and any
//! byte left over after the value (whitespace aside), rejects the frame.

use vstd::prelude::*;

use crate::json::{
    Json, JsonV, model_elems, model_pairs, lemma_model_elems, lemma_model_pairs, B_QUOTE,
    B_BACKSLASH, B_LBRACKET, B_RBRACKET, B_LBRACE, B_RBRACE, B_COMMA, B_COLON, B_MINUS, B_LF,
};

verus! {

/// Frame whitespace: space, tab, line feed, carriage return.
pub open spec fn is_ws(b: u8) -> bool {
    b == 0x20 || b == 0x09 || b == B_LF || b == 0x0d
}

/// A decimal digit byte.
pub open spec fn is_digit(b: u8) -> bool {
    0x30 <= b <= 0x39
}

/// A hexadecimal digit byte, either case.
pub open spec fn is_hex(b: u8) -> bool {
    is_digit(b) || 0x41 <= b <= 0x46 || 0x61 <= b <= 0x66
}

/// The value of a hexadecimal digit byte.
pub open spec fn hex_val(b: u8) -> int {
    if is_digit(b) {
        b - 0x30
    } else if 0x41 <= b <= 0x46 {
        b - 0x41 + 10
    } else {
        b - 0x61 + 10
    }
}

/// The end of the run of digit bytes starting at `i`.
pub open spec fn digit_run_end(s: Seq<u8>, i: int) -> int
    decreases s.len() - i,
{
    if 0 <= i < s.len() && is_digit(s[i]) {
        digit_run_end(s, i + 1)
    } else {
        i
    }
}

/// The number written by a sequence of digit bytes, most significant first.
pub open spec fn digits_val(ds: Seq<u8>) -> int
    decreases ds.len(),
{
    if ds.len() == 0 {
        0
    } else {
        digits_val(ds.drop_last()) * 10 + (ds.last() - 0x30)
    }
}

/// An unsigned number at `i`: its value and the position after it.
/// Rejected when no digit stands at `i` or the value exceeds `i64::MAX`.
pub open spec fn parse_digits(s: Seq<u8>, i: int) -> Option<(int, int)> {
    let j = digit_run_end(s, i);
    if j == i {
        None
    } else if digits_val(s.subrange(i, j)) > i64::MAX {
        None
    } else {
        Some((digits_val(s.subrange(i, j)), j))
    }
}

/// A number at `i`: an optional minus sign and digits.
pub open spec fn parse_number(s: Seq<u8>, i: int) -> Option<(JsonV, int)> {
    if 0 <= i < s.len() && s[i] == B_MINUS {
        match parse_digits(s, i + 1) {
            Some((n, j)) => Some((JsonV::Num(-n), j)),
            None => None,
        }
    } else {
        match parse_digits(s, i) {
            Some((n, j)) => Some((JsonV::Num(n), j)),
            None => None,
        }
    }
}

/// The byte written by a one-letter escape, if the letter is one.
pub open spec fn unescape1(e: u8) -> Option<u8> {
    if e == B_QUOTE {
        Some(B_QUOTE)
    } else if e == B_BACKSLASH {
        Some(B_BACKSLASH)
    } else if e == 0x2f {  // '/'
        Some(0x2f)
    } else if e == 0x62 {  // 'b'
        Some(0x08)
    } else if e == 0x66 {  // 'f'
        Some(0x0c)
    } else if e == 0x6e {  // 'n'
        Some(B_LF)
    } else if e == 0x72 {  // 'r'
        Some(0x0d)
    } else if e == 0x74 {  // 't'
        Some(0x09)
    } else {
        None
    }
}

/// A string body at `i` (the opening quote already passed): the bytes it
/// writes and the position after the closing quote.
pub open spec fn parse_string_body(s: Seq<u8>, i: int) -> Option<(Seq<u8>, int)>
    decreases s.len() - i,
{
    if i < 0 || i >= s.len() {
        None
    } else if s[i] == B_QUOTE {
        Some((Seq::empty(), i + 1))
    } else if s[i] == B_BACKSLASH {
        if i + 1 >= s.len() {
            None
        } else if s[i + 1] == 0x75 {  // 'u'
            if i + 6 <= s.len() && is_hex(s[i + 2]) && is_hex(s[i + 3]) && is_hex(s[i + 4])
                && is_hex(s[i + 5]) {
                let cp = hex_val(s[i + 2]) * 4096 + hex_val(s[i + 3]) * 256 + hex_val(s[i + 4])
                    * 16 + hex_val(s[i + 5]);
                if cp < 0x80 {
                    match parse_string_body(s, i + 6) {
                        Some((t, j)) => Some((seq![cp as u8] + t, j)),
                        None => None,
                    }
                } else {
                    None
                }
            } else {
                None
            }
        } else {
            match unescape1(s[i + 1]) {
                Some(b) => match parse_string_body(s, i + 2) {
                    Some((t, j)) => Some((seq![b] + t, j)),
                    None => None,
                },
                None => None,
            }
        }
    } else {
        match parse_string_body(s, i + 1) {
            Some((t, j)) => Some((seq![s[i]] + t, j)),
            None => None,
        }
    }
}

/// A value at `i`, leading whitespace allowed: the value and the
/// position after it.
pub open spec fn parse_value(s: Seq<u8>, i: int) -> Option<(JsonV, int)>
    decreases s.len() - i, 0int,
{
    if 0 <= i < s.len() && is_ws(s[i]) {
        parse_value(s, i + 1)
    } else if i < 0 || i >= s.len() {
        None
    } else if s[i] == 0x6e {  // 'n'
        if i + 4 <= s.len() && s.subrange(i, i + 4) == seq![0x6eu8, 0x75, 0x6c, 0x6c] {
            Some((JsonV::Null, i + 4))
        } else {
            None
        }
    } else if s[i] == 0x74 {  // 't'
        if i + 4 <= s.len() && s.subrange(i, i + 4) == seq![0x74u8, 0x72, 0x75, 0x65] {
            Some((JsonV::Bool(true), i + 4))
        } else {
            None
        }
    } else if s[i] == 0x66 {  // 'f'
        if i + 5 <= s.len() && s.subrange(i, i + 5) == seq![0x66u8, 0x61, 0x6c, 0x73, 0x65] {
            Some((JsonV::Bool(false), i + 5))
        } else {
            None
        }
    } else if s[i] == B_QUOTE {
        match parse_string_body(s, i + 1) {
            Some((t, j)) => Some((JsonV::Str(t), j)),
            None => None,
        }
    } else if s[i] == B_MINUS || is_digit(s[i]) {
        parse_number(s, i)
    } else if s[i] == B_LBRACKET {
        match parse_elems_first(s, i + 1) {
            Some((es, j)) => Some((JsonV::Arr(es), j)),
            None => None,
        }
    } else if s[i] == B_LBRACE {
        match parse_members_first(s, i + 1) {
            Some((ps, j)) => Some((JsonV::Obj(ps), j)),
            None => None,
        }
    } else {
        None
    }
}

/// Array elements right after `[`: either a closing bracket or a first
/// element.
pub open spec fn parse_elems_first(s: Seq<u8>, i: int) -> Option<(Seq<JsonV>, int)>
    decreases s.len() - i, 2int,
{
    if 0 <= i < s.len() && is_ws(s[i]) {
        parse_elems_first(s, i + 1)
    } else if 0 <= i < s.len() && s[i] == B_RBRACKET {
        Some((Seq::empty(), i + 1))
    } else {
        parse_elems_at(s, i)
    }
}

/// Array elements from a position where an element must stand.
pub open spec fn parse_elems_at(s: Seq<u8>, i: int) -> Option<(Seq<JsonV>, int)>
    decreases s.len() - i, 1int,
{
    match parse_value(s, i) {
        Some((v, j)) => if !(i < j <= s.len()) {
            None
        } else {
            match parse_elems_after(s, j) {
                Some((vs, m)) => Some((seq![v] + vs, m)),
                None => None,
            }
        },
        None => None,
    }
}

/// After an array element: a comma and more elements, or the closing
/// bracket.
pub open spec fn parse_elems_after(s: Seq<u8>, i: int) -> Option<(Seq<JsonV>, int)>
    decreases s.len() - i, 2int,
{
    if 0 <= i < s.len() && is_ws(s[i]) {
        parse_elems_after(s, i + 1)
    } else if 0 <= i < s.len() && s[i] == B_RBRACKET {
        Some((Seq::empty(), i + 1))
    } else if 0 <= i < s.len() && s[i] == B_COMMA {
        parse_elems_at(s, i + 1)
    } else {
        None
    }
}

/// Object members right after `{`: either a closing brace or a first
/// member.
pub open spec fn parse_members_first(s: Seq<u8>, i: int) -> Option<(Seq<(Seq<u8>, JsonV)>, int)>
    decreases s.len() - i, 2int,
{
    if 0 <= i < s.len() && is_ws(s[i]) {
        parse_members_first(s, i + 1)
    } else if 0 <= i < s.len() && s[i] == B_RBRACE {
        Some((Seq::empty(), i + 1))
    } else {
        parse_members_at(s, i)
    }
}

/// Object members from a position where a member's key must stand,
/// leading whitespace allowed.
pub open spec fn parse_members_at(s: Seq<u8>, i: int) -> Option<(Seq<(Seq<u8>, JsonV)>, int)>
    decreases s.len() - i, 1int,
{
    if 0 <= i < s.len() && is_ws(s[i]) {
        parse_members_at(s, i + 1)
    } else if 0 <= i < s.len() && s[i] == B_QUOTE {
        match parse_string_body(s, i + 1) {
            Some((key, j)) => if !(i < j <= s.len()) {
                None
            } else {
                parse_members_colon(s, j, key)
            },
            None => None,
        }
    } else {
        None
    }
}

/// After a member's key: a colon, the value, and what follows it.
pub open spec fn parse_members_colon(s: Seq<u8>, i: int, key: Seq<u8>) -> Option<
    (Seq<(Seq<u8>, JsonV)>, int),
>
    decreases s.len() - i, 2int,
{
    if 0 <= i < s.len() && is_ws(s[i]) {
        parse_members_colon(s, i + 1, key)
    } else if 0 <= i < s.len() && s[i] == B_COLON {
        match parse_value(s, i + 1) {
            Some((v, j)) => if !(i < j <= s.len()) {
                None
            } else {
                match parse_members_after(s, j) {
                    Some((ms, m)) => Some((seq![(key, v)] + ms, m)),
                    None => None,
                }
            },
            None => None,
        }
    } else {
        None
    }
}

/// After an object member: a comma and more members, or the closing
/// brace.
pub open spec fn parse_members_after(s: Seq<u8>, i: int) -> Option<(Seq<(Seq<u8>, JsonV)>, int)>
    decreases s.len() - i, 2int,
{
    if 0 <= i < s.len() && is_ws(s[i]) {
        parse_members_after(s, i + 1)
    } else if 0 <= i < s.len() && s[i] == B_RBRACE {
        Some((Seq::empty(), i + 1))
    } else if 0 <= i < s.len() && s[i] == B_COMMA {
        parse_members_at(s, i + 1)
    } else {
        None
    }
}

/// Nothing but whitespace from `i` to the end.
pub open spec fn ws_only(s: Seq<u8>, i: int) -> bool
    decreases s.len() - i,
{
    i >= s.len() || (0 <= i && is_ws(s[i]) && ws_only(s, i + 1))
}

/// One whole frame: a single value with nothing but whitespace after it.
pub open spec fn parse_text(s: Seq<u8>) -> Option<JsonV> {
    match parse_value(s, 0) {
        Some((v, j)) => if ws_only(s, j) {
            Some(v)
        } else {
            None
        },
        None => None,
    }
}

// ---------------------------------------------------------------------
// The executable parser. Each function mirrors one spec function above
// and is proved to return exactly its result.
// ---------------------------------------------------------------------

/// The executable and the specified outcome of a value parse agree.
pub open spec fn value_matches(r: Option<(Json, usize)>, sr: Option<(JsonV, int)>) -> bool {
    match (r, sr) {
        (Option::None, Option::None) => true,
        (Option::Some((v, j)), Option::Some((w, m))) => v.model() == w && j as int == m,
        _ => false,
    }
}

/// Agreement for string bodies.
pub open spec fn bytes_matches(r: Option<(Vec<u8>, usize)>, sr: Option<(Seq<u8>, int)>) -> bool {
    match (r, sr) {
        (Option::None, Option::None) => true,
        (Option::Some((v, j)), Option::Some((w, m))) => v@ == w && j as int == m,
        _ => false,
    }
}

/// Agreement for numbers.
pub open spec fn num_matches(r: Option<(i64, usize)>, sr: Option<(int, int)>) -> bool {
    match (r, sr) {
        (Option::None, Option::None) => true,
        (Option::Some((n, j)), Option::Some((m, mj))) => n as int == m && j as int == mj,
        _ => false,
    }
}

/// Agreement for element lists.
pub open spec fn elems_matches(r: Option<(Vec<Json>, usize)>, sr: Option<(Seq<JsonV>, int)>) -> bool {
    match (r, sr) {
        (Option::None, Option::None) => true,
        (Option::Some((vs, j)), Option::Some((ws, m))) => model_elems(vs@) == ws && j as int == m,
        _ => false,
    }
}

/// Agreement for member lists.
pub open spec fn members_matches(
    r: Option<(Vec<(Vec<u8>, Json)>, usize)>,
    sr: Option<(Seq<(Seq<u8>, JsonV)>, int)>,
) -> bool {
    match (r, sr) {
        (Option::None, Option::None) => true,
        (Option::Some((ps, j)), Option::Some((qs, m))) => model_pairs(ps@) == qs && j as int == m,
        _ => false,
    }
}

fn b_is_ws(b: u8) -> (r: bool)
    ensures
        r == is_ws(b),
{
    b == 0x20 || b == 0x09 || b == B_LF || b == 0x0d
}

fn b_is_digit(b: u8) -> (r: bool)
    ensures
        r == is_digit(b),
{
    0x30 <= b && b <= 0x39
}

fn b_is_hex(b: u8) -> (r: bool)
    ensures
        r == is_hex(b),
{
    (0x30 <= b && b <= 0x39) || (0x41 <= b && b <= 0x46) || (0x61 <= b && b <= 0x66)
}

fn b_hex_val(b: u8) -> (r: u8)
    requires
        is_hex(b),
    ensures
        r as int == hex_val(b),
{
    if 0x30 <= b && b <= 0x39 {
        b - 0x30
    } else if 0x41 <= b && b <= 0x46 {
        b - 0x41 + 10
    } else {
        b - 0x61 + 10
    }
}

fn b_unescape1(e: u8) -> (r: Option<u8>)
    ensures
        r == unescape1(e),
{
    if e == B_QUOTE {
        Some(B_QUOTE)
    } else if e == B_BACKSLASH {
        Some(B_BACKSLASH)
    } else if e == 0x2f {
        Some(0x2f)
    } else if e == 0x62 {
        Some(0x08)
    } else if e == 0x66 {
        Some(0x0c)
    } else if e == 0x6e {
        Some(B_LF)
    } else if e == 0x72 {
        Some(0x0d)
    } else if e == 0x74 {
        Some(0x09)
    } else {
        None
    }
}

/// Every byte of a digit sequence writes a nonnegative value.
pub(crate) proof fn lemma_digits_val_nonneg(ds: Seq<u8>)
    requires
        forall|t: int| 0 <= t < ds.len() ==> is_digit(#[trigger] ds[t]),
    ensures
        digits_val(ds) >= 0,
    decreases ds.len(),
{
    if ds.len() > 0 {
        lemma_digits_val_nonneg(ds.drop_last());
    }
}

fn p_digits(s: &Vec<u8>, i: usize) -> (r: Option<(i64, usize)>)
    ensures
        num_matches(r, parse_digits(s@, i as int)),
        r matches Some((n, _)) ==> n >= 0,
{
    if i >= s.len() {
        return None;
    }
    let mut j = i;
    while j < s.len() && 0x30 <= s[j] && s[j] <= 0x39
        invariant
            i <= j <= s@.len(),
            digit_run_end(s@, i as int) == digit_run_end(s@, j as int),
            forall|t: int| i <= t < j ==> is_digit(#[trigger] s@[t]),
        decreases s@.len() - j,
    {
        proof {
            assert(digit_run_end(s@, j as int) == digit_run_end(s@, j as int + 1));
        }
        j = j + 1;
    }
    proof {
        assert(digit_run_end(s@, j as int) == j as int);
    }
    if j == i {
        return None;
    }
    let mut acc: u128 = 0;
    let mut over = false;
    let mut k = i;
    while k < j
        invariant
            i <= k <= j <= s@.len(),
            forall|t: int| i <= t < j ==> is_digit(#[trigger] s@[t]),
            !over ==> acc == digits_val(s@.subrange(i as int, k as int)) && acc <= i64::MAX,
            over ==> digits_val(s@.subrange(i as int, k as int)) > i64::MAX,
        decreases j - k,
    {
        let d = s[k] - 0x30;
        proof {
            let pre = s@.subrange(i as int, k as int);
            let post = s@.subrange(i as int, k as int + 1);
            assert(post.drop_last() =~= pre);
            assert(digits_val(post) == digits_val(pre) * 10 + (s@[k as int] - 0x30));
            if over {
                assert(digits_val(pre) > i64::MAX);
                assert(digits_val(post) >= digits_val(pre));
            }
        }
        if !over {
            acc = acc * 10 + (d as u128);
            if acc > i64::MAX as u128 {
                over = true;
            }
        }
        k = k + 1;
    }
    if over {
        None
    } else {
        Some((acc as i64, j))
    }
}

fn p_number(s: &Vec<u8>, i: usize) -> (r: Option<(Json, usize)>)
    ensures
        value_matches(r, parse_number(s@, i as int)),
{
    if i < s.len() && s[i] == B_MINUS {
        match p_digits(s, i + 1) {
            Some((n, j)) => Some((Json::Num(-n), j)),
            None => None,
        }
    } else {
        match p_digits(s, i) {
            Some((n, j)) => Some((Json::Num(n), j)),
            None => None,
        }
    }
}

fn p_string_body(s: &Vec<u8>, i: usize) -> (r: Option<(Vec<u8>, usize)>)
    ensures
        bytes_matches(r, parse_string_body(s@, i as int)),
    decreases s@.len() - i,
{
    if i >= s.len() {
        return None;
    }
    let b = s[i];
    if b == B_QUOTE {
        return Some((Vec::new(), i + 1));
    }
    if b == B_BACKSLASH {
        if s.len() - i <= 1 {
            return None;
        }
        let e = s[i + 1];
        if e == 0x75 {
            if s.len() - i >= 6 && b_is_hex(s[i + 2]) && b_is_hex(s[i + 3]) && b_is_hex(s[i + 4])
                && b_is_hex(s[i + 5]) {
                let cp: u32 = (b_hex_val(s[i + 2]) as u32) * 4096 + (b_hex_val(s[i + 3]) as u32)
                    * 256 + (b_hex_val(s[i + 4]) as u32) * 16 + (b_hex_val(s[i + 5]) as u32);
                if cp < 0x80 {
                    match p_string_body(s, i + 6) {
                        Some((t, j)) => {
                            let ghost pre = t@;
                            let mut t2 = t;
                            t2.insert(0, cp as u8);
                            proof {
                                assert(t2@ =~= seq![(cp as u8)] + pre);
                            }
                            Some((t2, j))
                        },
                        None => None,
                    }
                } else {
                    None
                }
            } else {
                None
            }
        } else {
            match b_unescape1(e) {
                Some(ub) => match p_string_body(s, i + 2) {
                    Some((t, j)) => {
                        let ghost pre = t@;
                        let mut t2 = t;
                        t2.insert(0, ub);
                        proof {
                            assert(t2@ =~= seq![ub] + pre);
                        }
                        Some((t2, j))
                    },
                    None => None,
                },
                None => None,
            }
        }
    } else {
        match p_string_body(s, i + 1) {
            Some((t, j)) => {
                let ghost pre = t@;
                let mut t2 = t;
                t2.insert(0, b);
                proof {
                    assert(t2@ =~= seq![b] + pre);
                }
                Some((t2, j))
            },
            None => None,
        }
    }
}

fn p_value(s: &Vec<u8>, i: usize) -> (r: Option<(Json, usize)>)
    ensures
        value_matches(r, parse_value(s@, i as int)),
    decreases s@.len() - i, 0int,
{
    if i < s.len() && b_is_ws(s[i]) {
        return p_value(s, i + 1);
    }
    if i >= s.len() {
        return None;
    }
    let b = s[i];
    if b == 0x6e {
        if s.len() - i >= 4 && s[i + 1] == 0x75 && s[i + 2] == 0x6c && s[i + 3] == 0x6c {
            proof {
                assert(s@.subrange(i as int, i as int + 4) =~= seq![0x6eu8, 0x75, 0x6c, 0x6c]);
            }
            Some((Json::Null, i + 4))
        } else {
            proof {
                if i as int + 4 <= s@.len() {
                    let sub = s@.subrange(i as int, i as int + 4);
                    assert(sub[1] == s@[i as int + 1]);
                    assert(sub[2] == s@[i as int + 2]);
                    assert(sub[3] == s@[i as int + 3]);
                }
            }
            None
        }
    } else if b == 0x74 {
        if s.len() - i >= 4 && s[i + 1] == 0x72 && s[i + 2] == 0x75 && s[i + 3] == 0x65 {
            proof {
                assert(s@.subrange(i as int, i as int + 4) =~= seq![0x74u8, 0x72, 0x75, 0x65]);
            }
            Some((Json::Bool(true), i + 4))
        } else {
            proof {
                if i as int + 4 <= s@.len() {
                    let sub = s@.subrange(i as int, i as int + 4);
                    assert(sub[1] == s@[i as int + 1]);
                    assert(sub[2] == s@[i as int + 2]);
                    assert(sub[3] == s@[i as int + 3]);
                }
            }
            None
        }
    } else if b == 0x66 {
        if s.len() - i >= 5 && s[i + 1] == 0x61 && s[i + 2] == 0x6c && s[i + 3] == 0x73 && s[i + 4]
            == 0x65 {
            proof {
                assert(s@.subrange(i as int, i as int + 5) =~= seq![0x66u8, 0x61, 0x6c, 0x73, 0x65]);
            }
            Some((Json::Bool(false), i + 5))
        } else {
            proof {
                if i as int + 5 <= s@.len() {
                    let sub = s@.subrange(i as int, i as int + 5);
                    assert(sub[1] == s@[i as int + 1]);
                    assert(sub[2] == s@[i as int + 2]);
                    assert(sub[3] == s@[i as int + 3]);
                    assert(sub[4] == s@[i as int + 4]);
                }
            }
            None
        }
    } else if b == B_QUOTE {
        match p_string_body(s, i + 1) {
            Some((t, j)) => Some((Json::Str(t), j)),
            None => None,
        }
    } else if b == B_MINUS || b_is_digit(b) {
        p_number(s, i)
    } else if b == B_LBRACKET {
        match p_elems_first(s, i + 1) {
            Some((es, j)) => Some((Json::Arr(es), j)),
            None => None,
        }
    } else if b == B_LBRACE {
        match p_members_first(s, i + 1) {
            Some((ps, j)) => Some((Json::Obj(ps), j)),
            None => None,
        }
    } else {
        None
    }
}

fn p_elems_first(s: &Vec<u8>, i: usize) -> (r: Option<(Vec<Json>, usize)>)
    ensures
        elems_matches(r, parse_elems_first(s@, i as int)),
    decreases s@.len() - i, 2int,
{
    if i < s.len() && b_is_ws(s[i]) {
        return p_elems_first(s, i + 1);
    }
    if i < s.len() && s[i] == B_RBRACKET {
        return Some((Vec::new(), i + 1));
    }
    p_elems_at(s, i)
}

fn p_elems_at(s: &Vec<u8>, i: usize) -> (r: Option<(Vec<Json>, usize)>)
    ensures
        elems_matches(r, parse_elems_at(s@, i as int)),
    decreases s@.len() - i, 1int,
{
    match p_value(s, i) {
        None => None,
        Some((v, j)) => {
            if i < j && j <= s.len() {
                match p_elems_after(s, j) {
                    None => None,
                    Some((vs, m)) => {
                        let ghost pre = vs@;
                        let ghost gv = v;
                        let mut vs2 = vs;
                        vs2.insert(0, v);
                        proof {
                            assert(vs2@ =~= seq![gv] + pre);
                            lemma_model_elems(vs2@);
                            lemma_model_elems(pre);
                            assert forall|t: int| 0 <= t < vs2@.len() implies model_elems(vs2@)[t]
                                == (seq![gv.model()] + model_elems(pre))[t] by {
                                assert(model_elems(vs2@)[t] == vs2@[t].model());
                                if t > 0 {
                                    assert(vs2@[t] == pre[t - 1]);
                                    assert(model_elems(pre)[t - 1] == pre[t - 1].model());
                                }
                            }
                            assert(model_elems(vs2@) =~= seq![gv.model()] + model_elems(pre));
                        }
                        Some((vs2, m))
                    },
                }
            } else {
                None
            }
        },
    }
}

fn p_elems_after(s: &Vec<u8>, i: usize) -> (r: Option<(Vec<Json>, usize)>)
    ensures
        elems_matches(r, parse_elems_after(s@, i as int)),
    decreases s@.len() - i, 2int,
{
    if i < s.len() && b_is_ws(s[i]) {
        return p_elems_after(s, i + 1);
    }
    if i < s.len() && s[i] == B_RBRACKET {
        return Some((Vec::new(), i + 1));
    }
    if i < s.len() && s[i] == B_COMMA {
        return p_elems_at(s, i + 1);
    }
    None
}

fn p_members_first(s: &Vec<u8>, i: usize) -> (r: Option<(Vec<(Vec<u8>, Json)>, usize)>)
    ensures
        members_matches(r, parse_members_first(s@, i as int)),
    decreases s@.len() - i, 2int,
{
    if i < s.len() && b_is_ws(s[i]) {
        return p_members_first(s, i + 1);
    }
    if i < s.len() && s[i] == B_RBRACE {
        return Some((Vec::new(), i + 1));
    }
    p_members_at(s, i)
}

fn p_members_at(s: &Vec<u8>, i: usize) -> (r: Option<(Vec<(Vec<u8>, Json)>, usize)>)
    ensures
        members_matches(r, parse_members_at(s@, i as int)),
    decreases s@.len() - i, 1int,
{
    if i < s.len() && b_is_ws(s[i]) {
        return p_members_at(s, i + 1);
    }
    if i < s.len() && s[i] == B_QUOTE {
        match p_string_body(s, i + 1) {
            Some((key, j)) => {
                if i < j && j <= s.len() {
                    p_members_colon(s, j, key)
                } else {
                    None
                }
            },
            None => None,
        }
    } else {
        None
    }
}

fn p_members_colon(s: &Vec<u8>, i: usize, key: Vec<u8>) -> (r: Option<
    (Vec<(Vec<u8>, Json)>, usize),
>)
    ensures
        members_matches(r, parse_members_colon(s@, i as int, key@)),
    decreases s@.len() - i, 2int,
{
    if i < s.len() && b_is_ws(s[i]) {
        return p_members_colon(s, i + 1, key);
    }
    if i < s.len() && s[i] == B_COLON {
        match p_value(s, i + 1) {
            Some((v, j)) => {
                if i < j && j <= s.len() {
                    match p_members_after(s, j) {
                        None => None,
                        Some((ps, m)) => {
                            let ghost pre = ps@;
                            let ghost gk = key@;
                            let ghost gv = v;
                            let mut ps2 = ps;
                            ps2.insert(0, (key, v));
                            proof {
                                lemma_model_pairs(ps2@);
                                lemma_model_pairs(pre);
                                assert forall|t: int| 0 <= t < ps2@.len() implies model_pairs(
                                    ps2@,
                                )[t] == (seq![(gk, gv.model())] + model_pairs(pre))[t] by {
                                    assert(model_pairs(ps2@)[t] == (ps2@[t].0@, ps2@[t].1.model()));
                                    if t > 0 {
                                        assert(ps2@[t] == pre[t - 1]);
                                        assert(model_pairs(pre)[t - 1] == (
                                            pre[t - 1].0@,
                                            pre[t - 1].1.model(),
                                        ));
                                    }
                                }
                                assert(model_pairs(ps2@) =~= seq![(gk, gv.model())] + model_pairs(
                                    pre,
                                ));
                            }
                            Some((ps2, m))
                        },
                    }
                } else {
                    None
                }
            },
            None => None,
        }
    } else {
        None
    }
}

fn p_members_after(s: &Vec<u8>, i: usize) -> (r: Option<(Vec<(Vec<u8>, Json)>, usize)>)
    ensures
        members_matches(r, parse_members_after(s@, i as int)),
    decreases s@.len() - i, 2int,
{
    if i < s.len() && b_is_ws(s[i]) {
        return p_members_after(s, i + 1);
    }
    if i < s.len() && s[i] == B_RBRACE {
        return Some((Vec::new(), i + 1));
    }
    if i < s.len() && s[i] == B_COMMA {
        return p_members_at(s, i + 1);
    }
    None
}

fn p_ws_only(s: &Vec<u8>, i: usize) -> (r: bool)
    ensures
        r == ws_only(s@, i as int),
    decreases s@.len() - i,
{
    if i >= s.len() {
        true
    } else if b_is_ws(s[i]) {
        p_ws_only(s, i + 1)
    } else {
        false
    }
}

/// The executable and the specified outcome of a frame parse agree.
pub open spec fn frame_matches(r: Option<Json>, sr: Option<JsonV>) -> bool {
    match (r, sr) {
        (Option::None, Option::None) => true,
        (Option::Some(v), Option::Some(w)) => v.model() == w,
        _ => false,
    }
}

/// Parse one whole frame: a single JSON value, whitespace aside.
pub fn parse_frame(s: &Vec<u8>) -> (r: Option<Json>)
    ensures
        frame_matches(r, parse_text(s@)),
{
    match p_value(s, 0) {
        None => None,
        Some((v, j)) => if p_ws_only(s, j) {
            Some(v)
        } else {
            None
        },
    }
}

} // verus!
