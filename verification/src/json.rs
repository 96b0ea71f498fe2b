//! A JSON value model, a serializer and a parser, both specified over byte
//! sequences, with a proof that parsing a serialized value finds it again.
//! Numbers are unsigned 64-bit integers — the only kind the protocol carries;
//! any other number parses as `NumOther`, which callers treat as they treat
//! an absent value. String contents are raw bytes: the serializer escapes
//! quotes, backslashes and control bytes exactly as the compact JSON form
//! does, and the parser understands the full escape set including surrogate
//! pairs.

use vstd::prelude::*;

verus! {

broadcast use vstd::seq::group_seq_axioms, vstd::std_specs::vec::group_vec_axioms;

/// The mathematical JSON value.
pub enum JsonV {
    Null,
    Bool(bool),
    UInt(u64),
    /// Minus the held magnitude: a negative integer down to the smallest
    /// signed 64-bit value.
    NegInt(u64),
    /// A syntactically valid number that is neither an unsigned 64-bit
    /// integer nor such a negative one.
    NumOther,
    Str(Seq<u8>),
    Arr(Seq<JsonV>),
    Obj(Seq<(Seq<u8>, JsonV)>),
}

/// The executable JSON value.
pub enum Json {
    Null,
    Bool(bool),
    UInt(u64),
    NegInt(u64),
    NumOther,
    Str(Vec<u8>),
    Arr(Vec<Json>),
    Obj(Vec<(Vec<u8>, Json)>),
}

/// The value a `Json` tree stands for.
pub open spec fn json_view(v: Json) -> JsonV
    decreases v, 0int, 0int,
{
    match v {
        Json::Null => JsonV::Null,
        Json::Bool(b) => JsonV::Bool(b),
        Json::UInt(n) => JsonV::UInt(n),
        Json::NegInt(m) => JsonV::NegInt(m),
        Json::NumOther => JsonV::NumOther,
        Json::Str(s) => JsonV::Str(s@),
        Json::Arr(a) => JsonV::Arr(arr_view(a, 0)),
        Json::Obj(o) => JsonV::Obj(obj_view(o, 0)),
    }
}

/// The values of the array elements from `i` on.
pub open spec fn arr_view(a: Vec<Json>, i: int) -> Seq<JsonV>
    decreases a, 1int, a.len() - i,
{
    if i < 0 || i >= a.len() {
        Seq::<JsonV>::empty()
    } else {
        seq![json_view(a[i])] + arr_view(a, i + 1)
    }
}

/// The key-value pairs of the object members from `i` on.
pub open spec fn obj_view(o: Vec<(Vec<u8>, Json)>, i: int) -> Seq<(Seq<u8>, JsonV)>
    decreases o, 1int, o.len() - i,
{
    if i < 0 || i >= o.len() {
        Seq::<(Seq<u8>, JsonV)>::empty()
    } else {
        seq![(o[i].0@, json_view(o[i].1))] + obj_view(o, i + 1)
    }
}

pub proof fn lemma_arr_view_index(a: Vec<Json>, i: int)
    requires
        0 <= i <= a.len(),
    ensures
        arr_view(a, i).len() == a.len() - i,
        forall|k: int|
            i <= k < a.len() ==> arr_view(a, i)[k - i] == json_view(#[trigger] a[k]),
    decreases a.len() - i,
{
    if i < a.len() {
        lemma_arr_view_index(a, i + 1);
    }
}

pub proof fn lemma_obj_view_index(o: Vec<(Vec<u8>, Json)>, i: int)
    requires
        0 <= i <= o.len(),
    ensures
        obj_view(o, i).len() == o.len() - i,
        forall|k: int|
            i <= k < o.len() ==> obj_view(o, i)[k - i] == ((#[trigger] o[k]).0@, json_view(
                o[k].1,
            )),
    decreases o.len() - i,
{
    if i < o.len() {
        lemma_obj_view_index(o, i + 1);
    }
}

pub broadcast proof fn lemma_arr_view_len(a: Vec<Json>)
    ensures
        (#[trigger] arr_view(a, 0)).len() == a.len(),
{
    lemma_arr_view_index(a, 0);
}

pub broadcast proof fn lemma_arr_view_at(a: Vec<Json>, k: int)
    requires
        0 <= k < a.len(),
    ensures
        #[trigger] arr_view(a, 0)[k] == json_view(a[k]),
{
    lemma_arr_view_index(a, 0);
}

pub broadcast proof fn lemma_obj_view_len(o: Vec<(Vec<u8>, Json)>)
    ensures
        (#[trigger] obj_view(o, 0)).len() == o.len(),
{
    lemma_obj_view_index(o, 0);
}

pub broadcast proof fn lemma_obj_view_at(o: Vec<(Vec<u8>, Json)>, k: int)
    requires
        0 <= k < o.len(),
    ensures
        #[trigger] obj_view(o, 0)[k] == (o[k].0@, json_view(o[k].1)),
{
    lemma_obj_view_index(o, 0);
}

impl View for Json {
    type V = JsonV;

    open spec fn view(&self) -> JsonV {
        json_view(*self)
    }
}

/// A value the serializer can write: no `NumOther` anywhere.
pub open spec fn wf_json(v: JsonV) -> bool
    decreases v, 0int,
{
    match v {
        JsonV::Null => true,
        JsonV::Bool(_) => true,
        JsonV::UInt(_) => true,
        JsonV::NegInt(m) => 1 <= m <= 0x8000000000000000u64,
        JsonV::NumOther => false,
        JsonV::Str(_) => true,
        JsonV::Arr(a) => wf_json_list(a),
        JsonV::Obj(o) => wf_json_members(o),
    }
}

/// Every value of the list can be written.
pub open spec fn wf_json_list(a: Seq<JsonV>) -> bool
    decreases a, 1int,
{
    if a.len() == 0 {
        true
    } else {
        wf_json(a.first()) && wf_json_list(a.drop_first())
    }
}

/// Every member value can be written.
pub open spec fn wf_json_members(o: Seq<(Seq<u8>, JsonV)>) -> bool
    decreases o, 1int,
{
    if o.len() == 0 {
        true
    } else {
        wf_json(o.first().1) && wf_json_members(o.drop_first())
    }
}

/// The decimal digits of `n`, most significant first, no leading zeros.
pub open spec fn dec_digits(n: u64) -> Seq<u8>
    decreases n,
{
    if n < 10 {
        seq![(0x30 + n) as u8]
    } else {
        dec_digits(n / 10) + seq![(0x30 + n % 10) as u8]
    }
}

/// The lowercase hex digit for a value below sixteen.
pub open spec fn hex_digit(x: u8) -> u8 {
    if x < 10 {
        (0x30 + x) as u8
    } else {
        (0x57 + x) as u8
    }
}

/// How one string byte is written: itself, a two-byte escape, or `\u00XX`
/// for the control bytes without a short form.
pub open spec fn esc_byte(b: u8) -> Seq<u8> {
    if b == 0x22 {
        seq![0x5cu8, 0x22u8]
    } else if b == 0x5c {
        seq![0x5cu8, 0x5cu8]
    } else if b == 0x08 {
        seq![0x5cu8, 0x62u8]
    } else if b == 0x09 {
        seq![0x5cu8, 0x74u8]
    } else if b == 0x0a {
        seq![0x5cu8, 0x6eu8]
    } else if b == 0x0c {
        seq![0x5cu8, 0x66u8]
    } else if b == 0x0d {
        seq![0x5cu8, 0x72u8]
    } else if b < 0x20 {
        seq![0x5cu8, 0x75u8, 0x30u8, 0x30u8, hex_digit(b / 16), hex_digit(b % 16)]
    } else {
        seq![b]
    }
}

/// A string body, byte after byte, each escaped as needed.
pub open spec fn ser_str_body(s: Seq<u8>) -> Seq<u8>
    decreases s.len(),
{
    if s.len() == 0 {
        Seq::<u8>::empty()
    } else {
        esc_byte(s.first()) + ser_str_body(s.drop_first())
    }
}

/// A string with its quotes.
pub open spec fn ser_string(s: Seq<u8>) -> Seq<u8> {
    seq![0x22u8] + ser_str_body(s) + seq![0x22u8]
}

/// The compact serialized form of a value: no whitespace anywhere.
pub open spec fn jser(v: JsonV) -> Seq<u8>
    decreases v, 1int,
{
    match v {
        JsonV::Null => seq![0x6eu8, 0x75u8, 0x6cu8, 0x6cu8],
        JsonV::Bool(b) => if b {
            seq![0x74u8, 0x72u8, 0x75u8, 0x65u8]
        } else {
            seq![0x66u8, 0x61u8, 0x6cu8, 0x73u8, 0x65u8]
        },
        JsonV::UInt(n) => dec_digits(n),
        JsonV::NegInt(m) => seq![0x2du8] + dec_digits(m),
        JsonV::NumOther => Seq::<u8>::empty(),
        JsonV::Str(s) => ser_string(s),
        JsonV::Arr(a) => if a.len() == 0 {
            seq![0x5bu8, 0x5du8]
        } else {
            seq![0x5bu8] + jser_items(a) + seq![0x5du8]
        },
        JsonV::Obj(o) => if o.len() == 0 {
            seq![0x7bu8, 0x7du8]
        } else {
            seq![0x7bu8] + jser_members(o) + seq![0x7du8]
        },
    }
}

/// Array items joined by commas; the list is nonempty.
pub open spec fn jser_items(a: Seq<JsonV>) -> Seq<u8>
    decreases a, 0int,
{
    if a.len() == 0 {
        Seq::<u8>::empty()
    } else if a.len() == 1 {
        jser(a.first())
    } else {
        jser(a.first()) + seq![0x2cu8] + jser_items(a.drop_first())
    }
}

/// Object members joined by commas; the list is nonempty.
pub open spec fn jser_members(o: Seq<(Seq<u8>, JsonV)>) -> Seq<u8>
    decreases o, 0int,
{
    if o.len() == 0 {
        Seq::<u8>::empty()
    } else if o.len() == 1 {
        ser_string(o.first().0) + seq![0x3au8] + jser(o.first().1)
    } else {
        ser_string(o.first().0) + seq![0x3au8] + jser(o.first().1) + seq![0x2cu8] + jser_members(
            o.drop_first(),
        )
    }
}

/// JSON whitespace.
pub open spec fn is_ws(c: u8) -> bool {
    c == 0x20 || c == 0x09 || c == 0x0a || c == 0x0d
}

/// An ASCII decimal digit.
pub open spec fn is_digit(c: u8) -> bool {
    0x30 <= c <= 0x39
}

/// The first position at or after `pos` that holds no whitespace.
pub open spec fn skip_ws(b: Seq<u8>, pos: int) -> int
    decreases b.len() - pos,
{
    if pos < 0 || pos >= b.len() {
        pos
    } else if is_ws(b[pos]) {
        skip_ws(b, pos + 1)
    } else {
        pos
    }
}

pub proof fn lemma_skip_ws_bounds(b: Seq<u8>, pos: int)
    requires
        0 <= pos <= b.len(),
    ensures
        pos <= skip_ws(b, pos) <= b.len(),
        skip_ws(b, pos) < b.len() ==> !is_ws(b[skip_ws(b, pos)]),
    decreases b.len() - pos,
{
    if pos < b.len() && is_ws(b[pos]) {
        lemma_skip_ws_bounds(b, pos + 1);
    }
}

/// The value of a hex digit byte, or nothing.
pub open spec fn hex_val(c: u8) -> Option<int> {
    if 0x30 <= c <= 0x39 {
        Some((c - 0x30) as int)
    } else if 0x61 <= c <= 0x66 {
        Some((c - 0x61 + 10) as int)
    } else if 0x41 <= c <= 0x46 {
        Some((c - 0x41 + 10) as int)
    } else {
        None
    }
}

/// The value of the four hex digits at `pos`, or nothing.
pub open spec fn hex4(b: Seq<u8>, pos: int) -> Option<int> {
    if pos < 0 || pos + 4 > b.len() {
        None
    } else {
        match (hex_val(b[pos]), hex_val(b[pos + 1]), hex_val(b[pos + 2]), hex_val(b[pos + 3])) {
            (Some(a), Some(x), Some(y), Some(z)) => Some(a * 0x1000 + x * 0x100 + y * 0x10 + z),
            _ => None,
        }
    }
}

/// The shortest encoding of a code point as bytes.
pub open spec fn utf8_enc(cp: int) -> Seq<u8> {
    if cp < 0x80 {
        seq![cp as u8]
    } else if cp < 0x800 {
        seq![(0xc0 + cp / 0x40) as u8, (0x80 + cp % 0x40) as u8]
    } else if cp < 0x10000 {
        seq![(0xe0 + cp / 0x1000) as u8, (0x80 + (cp / 0x40) % 0x40) as u8, (0x80 + cp % 0x40) as u8]
    } else {
        seq![
            (0xf0 + cp / 0x40000) as u8,
            (0x80 + (cp / 0x1000) % 0x40) as u8,
            (0x80 + (cp / 0x40) % 0x40) as u8,
            (0x80 + cp % 0x40) as u8,
        ]
    }
}

/// Parse a string body from just after the opening quote: the content bytes
/// and the position after the closing quote. Escapes are decoded, surrogate
/// pairs combined; a raw control byte or a lone surrogate is refused.
pub open spec fn jparse_str(b: Seq<u8>, pos: int) -> Option<(Seq<u8>, int)>
    decreases b.len() - pos,
{
    if pos < 0 || pos >= b.len() {
        None
    } else {
        let c = b[pos];
        if c == 0x22 {
            Some((Seq::<u8>::empty(), pos + 1))
        } else if c == 0x5c {
            if pos + 2 > b.len() {
                None
            } else {
                let e = b[pos + 1];
                if e == 0x75 {
                    match hex4(b, pos + 2) {
                        None => None,
                        Some(cp) => {
                            if 0xd800 <= cp < 0xdc00 {
                                if pos + 12 > b.len() || b[pos + 6] != 0x5c || b[pos + 7] != 0x75 {
                                    None
                                } else {
                                    match hex4(b, pos + 8) {
                                        Some(lo) => {
                                            if 0xdc00 <= lo < 0xe000 {
                                                let full = 0x10000 + (cp - 0xd800) * 0x400 + (lo
                                                    - 0xdc00);
                                                match jparse_str(b, pos + 12) {
                                                    Some((rest, end)) => Some(
                                                        (utf8_enc(full) + rest, end),
                                                    ),
                                                    None => None,
                                                }
                                            } else {
                                                None
                                            }
                                        },
                                        None => None,
                                    }
                                }
                            } else if 0xdc00 <= cp < 0xe000 {
                                None
                            } else {
                                match jparse_str(b, pos + 6) {
                                    Some((rest, end)) => Some((utf8_enc(cp) + rest, end)),
                                    None => None,
                                }
                            }
                        },
                    }
                } else {
                    let decoded: Option<u8> = if e == 0x22 {
                        Some(0x22u8)
                    } else if e == 0x5c {
                        Some(0x5cu8)
                    } else if e == 0x2f {
                        Some(0x2fu8)
                    } else if e == 0x62 {
                        Some(0x08u8)
                    } else if e == 0x66 {
                        Some(0x0cu8)
                    } else if e == 0x6e {
                        Some(0x0au8)
                    } else if e == 0x72 {
                        Some(0x0du8)
                    } else if e == 0x74 {
                        Some(0x09u8)
                    } else {
                        None
                    };
                    match decoded {
                        Some(d) => match jparse_str(b, pos + 2) {
                            Some((rest, end)) => Some((seq![d] + rest, end)),
                            None => None,
                        },
                        None => None,
                    }
                }
            }
        } else if c < 0x20 {
            None
        } else {
            match jparse_str(b, pos + 1) {
                Some((rest, end)) => Some((seq![c] + rest, end)),
                None => None,
            }
        }
    }
}

/// The first position at or after `pos` that holds no digit.
pub open spec fn digits_end(b: Seq<u8>, pos: int) -> int
    decreases b.len() - pos,
{
    if pos < 0 || pos >= b.len() {
        pos
    } else if is_digit(b[pos]) {
        digits_end(b, pos + 1)
    } else {
        pos
    }
}

pub proof fn lemma_digits_end_bounds(b: Seq<u8>, pos: int)
    requires
        0 <= pos <= b.len(),
    ensures
        pos <= digits_end(b, pos) <= b.len(),
        digits_end(b, pos) < b.len() ==> !is_digit(b[digits_end(b, pos)]),
        forall|i: int| pos <= i < digits_end(b, pos) ==> is_digit(#[trigger] b[i]),
    decreases b.len() - pos,
{
    if pos < b.len() && is_digit(b[pos]) {
        lemma_digits_end_bounds(b, pos + 1);
    }
}

/// The decimal value of the digit bytes from `from` to `to`.
pub open spec fn digits_val(b: Seq<u8>, from: int, to: int) -> int
    decreases to - from,
{
    if to <= from {
        0
    } else {
        digits_val(b, from, to - 1) * 10 + (b[to - 1] - 0x30)
    }
}

/// Parse a number starting at `pos`, which holds a minus sign or a digit.
/// The result is `UInt` exactly for a plain unsigned integer that fits
/// 64 bits (or a minus-zero), `NumOther` for every other valid number.
pub open spec fn jparse_number(b: Seq<u8>, pos: int) -> Option<(JsonV, int)> {
    let (neg, p0) = if 0 <= pos < b.len() && b[pos] == 0x2d {
        (true, pos + 1)
    } else {
        (false, pos)
    };
    if p0 < 0 || p0 >= b.len() || !is_digit(b[p0]) {
        None
    } else if b[p0] == 0x30 && p0 + 1 < b.len() && is_digit(b[p0 + 1]) {
        None
    } else {
        let ip_end = digits_end(b, p0);
        let (fr_ok, fr_end) = if ip_end < b.len() && b[ip_end] == 0x2e {
            let fe = digits_end(b, ip_end + 1);
            (fe > ip_end + 1, fe)
        } else {
            (true, ip_end)
        };
        let has_frac = fr_end != ip_end;
        if !fr_ok {
            None
        } else {
            let (ex_ok, ex_end) = if fr_end < b.len() && (b[fr_end] == 0x65 || b[fr_end]
                == 0x45) {
                let sp = if fr_end + 1 < b.len() && (b[fr_end + 1] == 0x2b || b[fr_end + 1]
                    == 0x2d) {
                    fr_end + 2
                } else {
                    fr_end + 1
                };
                let ee = digits_end(b, sp);
                (ee > sp, ee)
            } else {
                (true, fr_end)
            };
            let has_exp = ex_end != fr_end;
            if !ex_ok {
                None
            } else {
                let dv = digits_val(b, p0, ip_end);
                let v = if has_frac || has_exp {
                    JsonV::NumOther
                } else if !neg {
                    if dv <= u64::MAX {
                        JsonV::UInt(dv as u64)
                    } else {
                        JsonV::NumOther
                    }
                } else if dv == 0 {
                    JsonV::UInt(0)
                } else if dv <= 0x8000000000000000u64 {
                    JsonV::NegInt(dv as u64)
                } else {
                    JsonV::NumOther
                };
                Some((v, ex_end))
            }
        }
    }
}

/// Parse one value: whitespace, then a literal, number, string, array or
/// object.
pub open spec fn jparse_value(b: Seq<u8>, pos: int) -> Option<(JsonV, int)>
    decreases b.len() - pos, 2int,
{
    let p = skip_ws(b, pos);
    if p < pos || p >= b.len() {
        None
    } else {
        let c = b[p];
        if c == 0x6e {
            if p + 4 <= b.len() && b[p + 1] == 0x75 && b[p + 2] == 0x6c && b[p + 3] == 0x6c {
                Some((JsonV::Null, p + 4))
            } else {
                None
            }
        } else if c == 0x74 {
            if p + 4 <= b.len() && b[p + 1] == 0x72 && b[p + 2] == 0x75 && b[p + 3] == 0x65 {
                Some((JsonV::Bool(true), p + 4))
            } else {
                None
            }
        } else if c == 0x66 {
            if p + 5 <= b.len() && b[p + 1] == 0x61 && b[p + 2] == 0x6c && b[p + 3] == 0x73 && b[p
                + 4] == 0x65 {
                Some((JsonV::Bool(false), p + 5))
            } else {
                None
            }
        } else if c == 0x22 {
            match jparse_str(b, p + 1) {
                Some((s, end)) => Some((JsonV::Str(s), end)),
                None => None,
            }
        } else if c == 0x5b {
            let p1 = skip_ws(b, p + 1);
            if p1 < b.len() && b[p1] == 0x5d {
                Some((JsonV::Arr(Seq::<JsonV>::empty()), p1 + 1))
            } else {
                match jparse_items(b, p + 1) {
                    Some((items, end)) => Some((JsonV::Arr(items), end)),
                    None => None,
                }
            }
        } else if c == 0x7b {
            let p1 = skip_ws(b, p + 1);
            if p1 < b.len() && b[p1] == 0x7d {
                Some((JsonV::Obj(Seq::<(Seq<u8>, JsonV)>::empty()), p1 + 1))
            } else {
                match jparse_members(b, p + 1) {
                    Some((o, end)) => Some((JsonV::Obj(o), end)),
                    None => None,
                }
            }
        } else if c == 0x2d || is_digit(c) {
            jparse_number(b, p)
        } else {
            None
        }
    }
}

/// Parse the items of a nonempty array from just after the bracket or comma,
/// up to and including the closing bracket.
pub open spec fn jparse_items(b: Seq<u8>, pos: int) -> Option<(Seq<JsonV>, int)>
    decreases b.len() - pos, 3int,
{
    if pos < 0 {
        None
    } else {
        match jparse_value(b, pos) {
            None => None,
            Some((v, p1)) => {
                if p1 <= pos || p1 > b.len() {
                    None
                } else {
                    let p2 = skip_ws(b, p1);
                    if p2 < p1 || p2 >= b.len() {
                        None
                    } else if b[p2] == 0x2c {
                        match jparse_items(b, p2 + 1) {
                            Some((rest, end)) => Some((seq![v] + rest, end)),
                            None => None,
                        }
                    } else if b[p2] == 0x5d {
                        Some((seq![v], p2 + 1))
                    } else {
                        None
                    }
                }
            },
        }
    }
}

/// Parse the members of a nonempty object from just after the brace or
/// comma, up to and including the closing brace.
pub open spec fn jparse_members(b: Seq<u8>, pos: int) -> Option<(Seq<(Seq<u8>, JsonV)>, int)>
    decreases b.len() - pos, 3int,
{
    if pos < 0 {
        None
    } else {
        let p = skip_ws(b, pos);
        if p < pos || p >= b.len() || b[p] != 0x22 {
            None
        } else {
            match jparse_str(b, p + 1) {
                None => None,
                Some((k, p1)) => {
                    if p1 <= p || p1 > b.len() {
                        None
                    } else {
                        let p2 = skip_ws(b, p1);
                        if p2 < p1 || p2 >= b.len() || b[p2] != 0x3a {
                            None
                        } else {
                            match jparse_value(b, p2 + 1) {
                                None => None,
                                Some((v, p3)) => {
                                    if p3 <= p2 || p3 > b.len() {
                                        None
                                    } else {
                                        let p4 = skip_ws(b, p3);
                                        if p4 < p3 || p4 >= b.len() {
                                            None
                                        } else if b[p4] == 0x2c {
                                            match jparse_members(b, p4 + 1) {
                                                Some((rest, end)) => Some(
                                                    (seq![(k, v)] + rest, end),
                                                ),
                                                None => None,
                                            }
                                        } else if b[p4] == 0x7d {
                                            Some((seq![(k, v)], p4 + 1))
                                        } else {
                                            None
                                        }
                                    }
                                },
                            }
                        }
                    }
                },
            }
        }
    }
}

/// Parse a whole buffer as one JSON value with nothing but whitespace after
/// it.
pub open spec fn jparse(b: Seq<u8>) -> Option<JsonV> {
    match jparse_value(b, 0) {
        None => None,
        Some((v, end)) => {
            if skip_ws(b, end) == b.len() {
                Some(v)
            } else {
                None
            }
        },
    }
}

/// A serialized value is never empty, and its first byte announces its kind:
/// a letter, a digit, a quote, or an opening bracket or brace — never a
/// delimiter.
pub proof fn lemma_jser_first_byte(v: JsonV)
    requires
        wf_json(v),
    ensures
        jser(v).len() >= 1,
        jser(v)[0] != 0x2c && jser(v)[0] != 0x5d && jser(v)[0] != 0x7d && jser(v)[0] != 0x3a,
        (v is Str) ==> jser(v)[0] == 0x22,
    decreases v,
{
    match v {
        JsonV::UInt(n) => {
            if n < 10 {
            } else {
                lemma_dec_digits_shape(n);
            }
        },
        JsonV::NegInt(m) => {
            lemma_dec_digits_shape(m);
        },
        _ => {},
    }
}

/// Decimal digits are nonempty, all digit bytes, and never start with a zero
/// unless the value is zero.
pub proof fn lemma_dec_digits_shape(n: u64)
    ensures
        dec_digits(n).len() >= 1,
        forall|i: int|
            0 <= i < dec_digits(n).len() ==> 0x30 <= #[trigger] dec_digits(n)[i] <= 0x39,
        n >= 10 ==> dec_digits(n)[0] != 0x30,
        n < 10 ==> dec_digits(n) == seq![(0x30 + n) as u8],
    decreases n,
{
    if n >= 10 {
        lemma_dec_digits_shape(n / 10);
        if n / 10 < 10 {
            assert(n / 10 >= 1);
        }
    }
}

pub proof fn lemma_hex_digit_val(x: u8)
    requires
        x < 16,
    ensures
        hex_val(hex_digit(x)) == Some(x as int),
        !is_ws(hex_digit(x)),
{
}

/// Over a run of digit bytes ending at a non-digit (or the end), the scan
/// stops exactly there.
pub proof fn lemma_digits_end_exact(b: Seq<u8>, from: int, to: int)
    requires
        0 <= from <= to <= b.len(),
        forall|i: int| from <= i < to ==> is_digit(#[trigger] b[i]),
        to == b.len() || !is_digit(b[to]),
    ensures
        digits_end(b, from) == to,
    decreases to - from,
{
    if from < to {
        lemma_digits_end_exact(b, from + 1, to);
    }
}

/// Reading back the decimal digits of `n` finds `n`.
pub proof fn lemma_digits_val_round(b: Seq<u8>, pos: int, n: u64)
    requires
        0 <= pos,
        pos + dec_digits(n).len() <= b.len(),
        b.subrange(pos, pos + dec_digits(n).len()) == dec_digits(n),
    ensures
        digits_val(b, pos, pos + dec_digits(n).len()) == n,
    decreases n,
{
    let ds = dec_digits(n);
    if n < 10 {
        assert(b[pos] == ds[0]);
        assert(digits_val(b, pos, pos) == 0);
        assert(digits_val(b, pos, pos + 1) == n);
    } else {
        let hd = dec_digits(n / 10);
        assert(ds == hd + seq![(0x30 + n % 10) as u8]);
        assert(b.subrange(pos, pos + hd.len()) =~= hd);
        lemma_digits_val_round(b, pos, n / 10);
        assert(b[pos + ds.len() - 1] == ds[ds.len() - 1]);
        assert(digits_val(b, pos, pos + ds.len()) == digits_val(b, pos, pos + hd.len()) * 10 + (
        b[pos + ds.len() - 1] - 0x30));
    }
}

/// Reading back an escaped string body finds the original bytes.
pub proof fn lemma_str_body_round(b: Seq<u8>, pos: int, s: Seq<u8>)
    requires
        0 <= pos,
        pos + ser_str_body(s).len() + 1 <= b.len(),
        b.subrange(pos, pos + ser_str_body(s).len() + 1) == ser_str_body(s) + seq![0x22u8],
    ensures
        jparse_str(b, pos) == Some((s, pos + ser_str_body(s).len() + 1)),
    decreases s.len(),
{
    let body = ser_str_body(s);
    let whole = b.subrange(pos, pos + body.len() + 1);
    assert(forall|i: int| 0 <= i < whole.len() ==> #[trigger] whole[i] == b[pos + i]);
    if s.len() == 0 {
        assert(whole[0] == 0x22);
    } else {
        let c = s.first();
        let e = esc_byte(c);
        let rest = ser_str_body(s.drop_first());
        assert(body == e + rest);
        let d = e.len() as int;
        assert(body + seq![0x22u8] =~= e + (rest + seq![0x22u8]));
        assert forall|i: int| 0 <= i < d implies b[pos + i] == #[trigger] e[i] by {
            assert(whole[i] == (e + (rest + seq![0x22u8]))[i]);
        }
        assert(b.subrange(pos + d, pos + d + rest.len() + 1) =~= rest + seq![0x22u8]) by {
            assert(forall|i: int|
                0 <= i < rest.len() + 1 ==> #[trigger] b.subrange(
                    pos + d,
                    pos + d + rest.len() + 1,
                )[i] == whole[d + i]);
        }
        lemma_str_body_round(b, pos + d, s.drop_first());
        assert(seq![c] + s.drop_first() =~= s);
        if c == 0x22 || c == 0x5c || c == 0x08 || c == 0x09 || c == 0x0a || c == 0x0c || c
            == 0x0d {
            assert(b[pos] == 0x5c);
        } else if c < 0x20 {
            assert(b[pos] == 0x5c && b[pos + 1] == 0x75);
            assert(b[pos + 2] == 0x30 && b[pos + 3] == 0x30);
            assert(b[pos + 4] == hex_digit(c / 16) && b[pos + 5] == hex_digit(c % 16));
            lemma_hex_digit_val(c / 16);
            lemma_hex_digit_val(c % 16);
            assert(hex4(b, pos + 2) == Some((c / 16) * 0x10 + (c % 16) as int));
            assert((c / 16) * 0x10 + (c % 16) as int == c as int) by (nonlinear_arith);
            assert(utf8_enc(c as int) =~= seq![c]);
            assert(utf8_enc(c as int) + s.drop_first() =~= s);
        } else {
            assert(b[pos] == c);
        }
    }
}

/// Reading back a serialized value finds it, stopping right after it; the
/// byte after it, if any, must be a delimiter so that a number does not run
/// on.
#[verifier::rlimit(100)]
pub proof fn lemma_jser_round(b: Seq<u8>, pos: int, v: JsonV)
    requires
        wf_json(v),
        0 <= pos,
        pos + jser(v).len() <= b.len(),
        b.subrange(pos, pos + jser(v).len()) == jser(v),
        pos + jser(v).len() < b.len() ==> (b[pos + jser(v).len()] == 0x2c || b[pos + jser(
            v,
        ).len()] == 0x5d || b[pos + jser(v).len()] == 0x7d),
    ensures
        jparse_value(b, pos) == Some((v, pos + jser(v).len())),
    decreases v, 1int,
{
    let w = jser(v);
    let whole = b.subrange(pos, pos + w.len());
    assert(forall|i: int| 0 <= i < w.len() ==> b[pos + i] == #[trigger] w[i]);
    lemma_jser_first_byte(v);
    assert(!is_ws(b[pos])) by {
        lemma_jser_ws_free_head(v);
    }
    assert(skip_ws(b, pos) == pos);
    match v {
        JsonV::Null => {
            assert(b[pos] == w[0] && b[pos + 1] == w[1] && b[pos + 2] == w[2] && b[pos + 3]
                == w[3]);
            assert(jparse_value(b, pos) == Some((v, pos + jser(v).len())));
        },
        JsonV::Bool(t) => {
            if t {
                assert(b[pos] == w[0] && b[pos + 1] == w[1] && b[pos + 2] == w[2] && b[pos + 3]
                    == w[3]);
            } else {
                assert(b[pos] == w[0] && b[pos + 1] == w[1] && b[pos + 2] == w[2] && b[pos + 3]
                    == w[3] && b[pos + 4] == w[4]);
            }
            assert(jparse_value(b, pos) == Some((v, pos + jser(v).len())));
        },
        JsonV::UInt(n) => {
            lemma_dec_digits_shape(n);
            assert(b[pos] == w[0]);
            assert(is_digit(b[pos]));
            assert(b[pos] != 0x2d);
            assert forall|i: int| pos <= i < pos + w.len() implies is_digit(#[trigger] b[i]) by {
                assert(b[i] == w[i - pos]);
            }
            lemma_digits_end_exact(b, pos, pos + w.len());
            lemma_digits_val_round(b, pos, n);
            if n < 10 {
                if b[pos] == 0x30 && pos + 1 < b.len() && is_digit(b[pos + 1]) {
                    assert(false);
                }
            } else {
                assert(b[pos] != 0x30);
            }
            assert(jparse_value(b, pos) == Some((v, pos + jser(v).len())));
        },
        JsonV::NegInt(m) => {
            lemma_dec_digits_shape(m);
            assert(b[pos] == w[0]);
            assert(b[pos] == 0x2d);
            let p0 = pos + 1;
            assert(b.subrange(p0, p0 + dec_digits(m).len()) =~= dec_digits(m)) by {
                assert(forall|i: int|
                    0 <= i < dec_digits(m).len() ==> #[trigger] b.subrange(
                        p0,
                        p0 + dec_digits(m).len(),
                    )[i] == w[1 + i]);
            }
            assert(forall|i: int| 0 <= i < dec_digits(m).len() ==> b[p0 + i] == #[trigger]
                dec_digits(m)[i]);
            assert(b[p0] == dec_digits(m)[0]);
            assert(is_digit(b[p0]));
            assert forall|i: int| p0 <= i < p0 + dec_digits(m).len() implies is_digit(
                #[trigger] b[i],
            ) by {
                assert(b[i] == dec_digits(m)[i - p0]);
            }
            lemma_digits_end_exact(b, p0, p0 + dec_digits(m).len());
            lemma_digits_val_round(b, p0, m);
            if m < 10 {
                assert(m >= 1);
                assert(b[p0] != 0x30);
            } else {
                assert(b[p0] != 0x30);
            }
            assert(jparse_value(b, pos) == Some((v, pos + jser(v).len())));
        },
        JsonV::NumOther => {
            assert(false);
        },
        JsonV::Str(s) => {
            assert(b[pos] == 0x22);
            assert(b.subrange(pos + 1, pos + 1 + ser_str_body(s).len() + 1) =~= ser_str_body(s)
                + seq![0x22u8]) by {
                assert(ser_string(s) =~= seq![0x22u8] + (ser_str_body(s) + seq![0x22u8]));
                assert(forall|i: int|
                    0 <= i < ser_str_body(s).len() + 1 ==> #[trigger] b.subrange(
                        pos + 1,
                        pos + 1 + ser_str_body(s).len() + 1,
                    )[i] == whole[1 + i]);
            }
            lemma_str_body_round(b, pos + 1, s);
            assert(jparse_value(b, pos) == Some((v, pos + jser(v).len())));
        },
        JsonV::Arr(a) => {
            if a.len() == 0 {
                assert(b[pos] == 0x5b && b[pos + 1] == 0x5d);
                assert(!is_ws(b[pos + 1]));
                assert(skip_ws(b, pos + 1) == pos + 1);
                assert(a =~= Seq::<JsonV>::empty());
            } else {
                let items = jser_items(a);
                assert(w == seq![0x5bu8] + items + seq![0x5du8]);
                assert(a.first() == a[0]);
                lemma_jser_first_byte(a.first());
                lemma_jser_ws_free_head(a.first());
                lemma_jser_items_first(a);
                assert(w[1 + items.len() as int] == 0x5d);
                assert(b[pos + 1 + items.len()] == 0x5d);
                assert(b.subrange(pos + 1, pos + 1 + items.len() as int) =~= items) by {
                    assert(forall|i: int|
                        0 <= i < items.len() ==> #[trigger] b.subrange(
                            pos + 1,
                            pos + 1 + items.len() as int,
                        )[i] == w[1 + i]);
                }
                assert(w[1] == items[0]);
                assert(items[0] == jser(a.first())[0]);
                assert(b[pos + 1] == items[0]);
                assert(!is_ws(b[pos + 1]));
                assert(skip_ws(b, pos + 1) == pos + 1);
                assert(b[pos + 1] != 0x5d);
                lemma_jser_items_round(b, pos + 1, a);
            }
            assert(jparse_value(b, pos) == Some((v, pos + jser(v).len())));
        },
        JsonV::Obj(o) => {
            if o.len() == 0 {
                assert(b[pos] == 0x7b && b[pos + 1] == 0x7d);
                assert(!is_ws(b[pos + 1]));
                assert(skip_ws(b, pos + 1) == pos + 1);
                assert(o =~= Seq::<(Seq<u8>, JsonV)>::empty());
            } else {
                let items = jser_members(o);
                assert(w == seq![0x7bu8] + items + seq![0x7du8]);
                lemma_jser_members_first(o);
                assert(w[1 + items.len() as int] == 0x7d);
                assert(b[pos + 1 + items.len()] == 0x7d);
                assert(b.subrange(pos + 1, pos + 1 + items.len() as int) =~= items) by {
                    assert(forall|i: int|
                        0 <= i < items.len() ==> #[trigger] b.subrange(
                            pos + 1,
                            pos + 1 + items.len() as int,
                        )[i] == w[1 + i]);
                }
                assert(w[1] == items[0]);
                assert(b[pos + 1] == items[0]);
                assert(!is_ws(b[pos + 1]));
                assert(skip_ws(b, pos + 1) == pos + 1);
                assert(b[pos + 1] != 0x7d);
                lemma_jser_members_round(b, pos + 1, o);
            }
            assert(jparse_value(b, pos) == Some((v, pos + jser(v).len())));
        },
    }
}

/// The head byte of a serialized value is never whitespace.
pub proof fn lemma_jser_ws_free_head(v: JsonV)
    requires
        wf_json(v),
    ensures
        jser(v).len() >= 1,
        !is_ws(jser(v)[0]),
    decreases v,
{
    lemma_jser_first_byte(v);
    match v {
        JsonV::UInt(n) => {
            lemma_dec_digits_shape(n);
        },
        JsonV::NegInt(m) => {
            lemma_dec_digits_shape(m);
        },
        _ => {},
    }
}

/// A nonempty item list starts with its first value's first byte.
pub proof fn lemma_jser_items_first(a: Seq<JsonV>)
    requires
        a.len() >= 1,
        wf_json_list(a),
    ensures
        jser_items(a).len() >= jser(a.first()).len(),
        forall|i: int|
            0 <= i < jser(a.first()).len() ==> #[trigger] jser_items(a)[i] == jser(a.first())[i],
{
    lemma_jser_first_byte(a.first());
}

/// A nonempty member list starts with a quote.
pub proof fn lemma_jser_members_first(o: Seq<(Seq<u8>, JsonV)>)
    requires
        o.len() >= 1,
    ensures
        jser_members(o).len() >= 1,
        jser_members(o)[0] == 0x22,
{
}

/// Reading back serialized array items, with the closing bracket after them,
/// finds them all.
#[verifier::rlimit(80)]
pub proof fn lemma_jser_items_round(b: Seq<u8>, pos: int, a: Seq<JsonV>)
    requires
        a.len() >= 1,
        wf_json_list(a),
        0 <= pos,
        pos + jser_items(a).len() + 1 <= b.len(),
        b.subrange(pos, pos + jser_items(a).len()) == jser_items(a),
        b[pos + jser_items(a).len()] == 0x5d,
    ensures
        jparse_items(b, pos) == Some((a, pos + jser_items(a).len() + 1)),
    decreases a, 0int,
{
    let items = jser_items(a);
    let whole = b.subrange(pos, pos + items.len());
    assert(forall|i: int| 0 <= i < items.len() ==> b[pos + i] == #[trigger] items[i]);
    let v0 = a.first();
    assert(a.first() == a[0]);
    assert(wf_json(v0));
    let w0 = jser(v0);
    lemma_jser_first_byte(v0);
    if a.len() == 1 {
        assert(items == w0);
        lemma_jser_round(b, pos, v0);
        let p1 = pos + w0.len() as int;
        assert(b[p1] == 0x5d);
        assert(!is_ws(b[p1]));
        assert(skip_ws(b, p1) == p1);
        assert(seq![v0] =~= a);
    } else {
        assert(items =~= w0 + (seq![0x2cu8] + jser_items(a.drop_first()))) by {
            assert(items == w0 + seq![0x2cu8] + jser_items(a.drop_first()));
        }
        assert(b.subrange(pos, pos + w0.len()) =~= w0) by {
            assert(forall|i: int|
                0 <= i < w0.len() ==> #[trigger] b.subrange(pos, pos + w0.len())[i] == whole[i]);
        }
        let p1 = pos + w0.len() as int;
        assert(items[w0.len() as int] == 0x2c) by {
            assert(items == w0 + seq![0x2cu8] + jser_items(a.drop_first()));
        }
        assert(b[p1] == 0x2c);
        lemma_jser_round(b, pos, v0);
        assert(!is_ws(b[p1]));
        assert(skip_ws(b, p1) == p1);
        let rest = jser_items(a.drop_first());
        assert(b.subrange(p1 + 1, p1 + 1 + rest.len()) =~= rest) by {
            assert(forall|i: int|
                0 <= i < rest.len() ==> #[trigger] b.subrange(p1 + 1, p1 + 1 + rest.len())[i]
                    == whole[w0.len() + 1 + i]);
        }
        assert(wf_json_list(a.drop_first()));
        assert(b[p1 + 1 + rest.len()] == 0x5d);
        lemma_jser_items_round(b, p1 + 1, a.drop_first());
        assert(seq![v0] + a.drop_first() =~= a);
    }
}

/// Reading back serialized object members, with the closing brace after
/// them, finds them all.
#[verifier::rlimit(80)]
pub proof fn lemma_jser_members_round(b: Seq<u8>, pos: int, o: Seq<(Seq<u8>, JsonV)>)
    requires
        o.len() >= 1,
        wf_json_members(o),
        0 <= pos,
        pos + jser_members(o).len() + 1 <= b.len(),
        b.subrange(pos, pos + jser_members(o).len()) == jser_members(o),
        b[pos + jser_members(o).len()] == 0x7d,
    ensures
        jparse_members(b, pos) == Some((o, pos + jser_members(o).len() + 1)),
    decreases o, 0int,
{
    let items = jser_members(o);
    let whole = b.subrange(pos, pos + items.len());
    assert(forall|i: int| 0 <= i < items.len() ==> b[pos + i] == #[trigger] items[i]);
    let k0 = o.first().0;
    let v0 = o.first().1;
    assert(o.first() == o[0]);
    assert(wf_json(v0));
    let ks = ser_string(k0);
    let w0 = jser(v0);
    lemma_jser_first_byte(v0);
    lemma_jser_ws_free_head(v0);
    assert(ks[0] == 0x22);
    assert(items[0] == ks[0]) by {
        if o.len() == 1 {
            assert(items == ks + seq![0x3au8] + jser(o.first().1));
        } else {
            assert(items == ks + seq![0x3au8] + jser(o.first().1) + seq![0x2cu8] + jser_members(
                o.drop_first(),
            ));
        }
    }
    assert(b[pos] == 0x22);
    assert(skip_ws(b, pos) == pos);
    // the key string
    assert(b.subrange(pos + 1, pos + 1 + ser_str_body(k0).len() + 1) =~= ser_str_body(k0)
        + seq![0x22u8]) by {
        if o.len() == 1 {
            assert(items == ks + seq![0x3au8] + w0);
        } else {
            assert(items == ks + seq![0x3au8] + w0 + seq![0x2cu8] + jser_members(o.drop_first()));
        }
        assert(ks =~= seq![0x22u8] + (ser_str_body(k0) + seq![0x22u8]));
        assert(forall|i: int|
            0 <= i < ser_str_body(k0).len() + 1 ==> #[trigger] b.subrange(
                pos + 1,
                pos + 1 + ser_str_body(k0).len() + 1,
            )[i] == whole[1 + i]);
    }
    lemma_str_body_round(b, pos + 1, k0);
    let p1 = pos + ks.len() as int;
    assert(b[p1] == 0x3a) by {
        if o.len() == 1 {
            assert(items == ks + seq![0x3au8] + w0);
            assert(items[ks.len() as int] == 0x3a);
        } else {
            assert(items == ks + seq![0x3au8] + w0 + seq![0x2cu8] + jser_members(o.drop_first()));
            assert(items[ks.len() as int] == 0x3a);
        }
    }
    assert(!is_ws(b[p1]));
    assert(skip_ws(b, p1) == p1);
    // the value
    let pv = p1 + 1;
    assert(b.subrange(pv, pv + w0.len()) =~= w0) by {
        if o.len() == 1 {
            assert(items == ks + seq![0x3au8] + w0);
        } else {
            assert(items == ks + seq![0x3au8] + w0 + seq![0x2cu8] + jser_members(o.drop_first()));
        }
        assert(forall|i: int|
            0 <= i < w0.len() ==> #[trigger] b.subrange(pv, pv + w0.len())[i] == whole[ks.len()
                + 1 + i]);
    }
    let p3 = pv + w0.len() as int;
    if o.len() == 1 {
        assert(items == ks + seq![0x3au8] + w0);
        assert(p3 == pos + items.len());
        assert(b[p3] == 0x7d);
        lemma_jser_round(b, pv, v0);
        assert(!is_ws(b[p3]));
        assert(skip_ws(b, p3) == p3);
        assert(seq![(k0, v0)] =~= o);
    } else {
        assert(items == ks + seq![0x3au8] + w0 + seq![0x2cu8] + jser_members(o.drop_first()));
        assert(b[p3] == 0x2c) by {
            assert(items[ks.len() + 1 + w0.len() as int] == 0x2c);
        }
        lemma_jser_round(b, pv, v0);
        assert(!is_ws(b[p3]));
        assert(skip_ws(b, p3) == p3);
        let rest = jser_members(o.drop_first());
        assert(b.subrange(p3 + 1, p3 + 1 + rest.len()) =~= rest) by {
            assert(forall|i: int|
                0 <= i < rest.len() ==> #[trigger] b.subrange(p3 + 1, p3 + 1 + rest.len())[i]
                    == whole[ks.len() + 1 + w0.len() + 1 + i]);
        }
        assert(wf_json_members(o.drop_first()));
        assert(b[p3 + 1 + rest.len()] == 0x7d);
        lemma_jser_members_round(b, p3 + 1, o.drop_first());
        assert(seq![(k0, v0)] + o.drop_first() =~= o);
    }
}

/// Parsing the serialized form of a well-formed value finds exactly that
/// value.
pub proof fn lemma_json_round_trip(v: JsonV)
    requires
        wf_json(v),
    ensures
        jparse(jser(v)) == Some(v),
{
    let b = jser(v);
    assert(b.subrange(0, b.len() as int) =~= b);
    lemma_jser_round(b, 0, v);
    lemma_skip_ws_bounds(b, b.len() as int);
}

/// Append the decimal digits of `n`.
pub fn emit_u64_dec(n: u64, out: &mut Vec<u8>)
    ensures
        final(out)@ == old(out)@ + dec_digits(n),
    decreases n,
{
    if n < 10 {
        out.push(0x30 + n as u8);
        proof {
            assert(out@ =~= old(out)@ + dec_digits(n));
        }
    } else {
        emit_u64_dec(n / 10, out);
        out.push(0x30 + (n % 10) as u8);
        proof {
            assert(out@ =~= old(out)@ + dec_digits(n));
        }
    }
}

/// Append one string byte, escaped as needed.
fn emit_esc_byte(c: u8, out: &mut Vec<u8>)
    ensures
        final(out)@ == old(out)@ + esc_byte(c),
{
    if c == 0x22 {
        out.push(0x5c);
        out.push(0x22);
    } else if c == 0x5c {
        out.push(0x5c);
        out.push(0x5c);
    } else if c == 0x08 {
        out.push(0x5c);
        out.push(0x62);
    } else if c == 0x09 {
        out.push(0x5c);
        out.push(0x74);
    } else if c == 0x0a {
        out.push(0x5c);
        out.push(0x6e);
    } else if c == 0x0c {
        out.push(0x5c);
        out.push(0x66);
    } else if c == 0x0d {
        out.push(0x5c);
        out.push(0x72);
    } else if c < 0x20 {
        out.push(0x5c);
        out.push(0x75);
        out.push(0x30);
        out.push(0x30);
        let hi = c / 16;
        let lo = c % 16;
        out.push(if hi < 10 { 0x30 + hi } else { 0x57 + hi });
        out.push(if lo < 10 { 0x30 + lo } else { 0x57 + lo });
    } else {
        out.push(c);
    }
    proof {
        assert(out@ =~= old(out)@ + esc_byte(c));
    }
}

/// Append a quoted, escaped string.
pub fn emit_string(s: &Vec<u8>, out: &mut Vec<u8>)
    ensures
        final(out)@ == old(out)@ + ser_string(s@),
{
    out.push(0x22);
    let ghost start = out@;
    let mut i: usize = 0;
    proof {
        assert(s@.subrange(0, s@.len() as int) =~= s@);
    }
    while i < s.len()
        invariant
            i <= s@.len(),
            out@ + ser_str_body(s@.subrange(i as int, s@.len() as int)) == start + ser_str_body(
                s@,
            ),
        decreases s@.len() - i,
    {
        let ghost rest = s@.subrange(i as int, s@.len() as int);
        proof {
            assert(rest.first() == s@[i as int]);
            assert(rest.drop_first() =~= s@.subrange(i as int + 1, s@.len() as int));
        }
        let ghost pre = out@;
        emit_esc_byte(s[i], out);
        proof {
            assert(out@ + ser_str_body(s@.subrange(i as int + 1, s@.len() as int)) =~= pre
                + ser_str_body(rest));
        }
        i = i + 1;
    }
    proof {
        assert(s@.subrange(s@.len() as int, s@.len() as int) =~= Seq::<u8>::empty());
        assert(out@ + Seq::<u8>::empty() =~= out@);
    }
    out.push(0x22);
    proof {
        assert(out@ =~= old(out)@ + ser_string(s@));
    }
}

/// Append the compact serialized form of a value.
#[verifier::loop_isolation(false)]
#[verifier::rlimit(100)]
pub fn emit_json(v: &Json, out: &mut Vec<u8>)
    ensures
        final(out)@ == old(out)@ + jser(v@),
    decreases v,
{
    match v {
        Json::Null => {
            out.push(0x6e);
            out.push(0x75);
            out.push(0x6c);
            out.push(0x6c);
            proof {
                assert(out@ =~= old(out)@ + jser(v@));
            }
        },
        Json::Bool(t) => {
            if *t {
                out.push(0x74);
                out.push(0x72);
                out.push(0x75);
                out.push(0x65);
            } else {
                out.push(0x66);
                out.push(0x61);
                out.push(0x6c);
                out.push(0x73);
                out.push(0x65);
            }
            proof {
                assert(out@ =~= old(out)@ + jser(v@));
            }
        },
        Json::UInt(n) => {
            emit_u64_dec(*n, out);
        },
        Json::NegInt(m) => {
            out.push(0x2d);
            let ghost mid = out@;
            emit_u64_dec(*m, out);
            proof {
                assert(out@ =~= old(out)@ + jser(v@));
            }
        },
        Json::NumOther => {
            proof {
                assert(out@ =~= old(out)@ + jser(v@));
            }
        },
        Json::Str(s) => {
            emit_string(s, out);
        },
        Json::Arr(a) => {
            let ghost av = arr_view(*a, 0);
            proof {
                lemma_arr_view_index(*a, 0);
            }
            out.push(0x5b);
            if a.len() == 0 {
                out.push(0x5d);
                proof {
                    assert(out@ =~= old(out)@ + jser(v@));
                }
            } else {
                let ghost start = out@;
                let mut i: usize = 0;
                proof {
                    assert(av.subrange(0, av.len() as int) =~= av);
                }
                while i < a.len()
                    invariant
                        i <= a@.len(),
                        out@ + jser_items(av.subrange(i as int, av.len() as int)) == start
                            + jser_items(av),
                    decreases a@.len() - i,
                {
                    let ghost rest = av.subrange(i as int, av.len() as int);
                    proof {
                        assert(rest.first() == av[i as int]);
                        assert(rest.drop_first() =~= av.subrange(i as int + 1, av.len() as int));
                    }
                    let ghost pre = out@;
                    proof {
                        assert(decreases_to!(*a => a[i as int]));
                    }
                    emit_json(&a[i], out);
                    if i + 1 < a.len() {
                        out.push(0x2c);
                    }
                    proof {
                        if i + 1 < a.len() {
                            assert(out@ + jser_items(
                                av.subrange(i as int + 1, av.len() as int),
                            ) =~= pre + jser_items(rest));
                        } else {
                            assert(jser_items(rest) == jser(av[i as int]));
                            assert(av.subrange(i as int + 1, av.len() as int)
                                =~= Seq::<JsonV>::empty());
                            assert(out@ + jser_items(av.subrange(i as int + 1, av.len() as int))
                                =~= out@);
                        }
                    }
                    i = i + 1;
                }
                proof {
                    assert(av.subrange(av.len() as int, av.len() as int)
                        =~= Seq::<JsonV>::empty());
                    assert(out@ + Seq::<u8>::empty() =~= out@);
                }
                out.push(0x5d);
                proof {
                    assert(out@ =~= old(out)@ + jser(v@));
                }
            }
        },
        Json::Obj(o) => {
            let ghost ov = obj_view(*o, 0);
            proof {
                lemma_obj_view_index(*o, 0);
            }
            out.push(0x7b);
            if o.len() == 0 {
                out.push(0x7d);
                proof {
                    assert(out@ =~= old(out)@ + jser(v@));
                }
            } else {
                let ghost start = out@;
                let mut i: usize = 0;
                proof {
                    assert(ov.subrange(0, ov.len() as int) =~= ov);
                }
                while i < o.len()
                    invariant
                        i <= o@.len(),
                        out@ + jser_members(ov.subrange(i as int, ov.len() as int)) == start
                            + jser_members(ov),
                    decreases o@.len() - i,
                {
                    let ghost rest = ov.subrange(i as int, ov.len() as int);
                    proof {
                        assert(rest.first() == ov[i as int]);
                        assert(rest.drop_first() =~= ov.subrange(i as int + 1, ov.len() as int));
                    }
                    let ghost pre = out@;
                    emit_string(&o[i].0, out);
                    out.push(0x3a);
                    proof {
                        assert(decreases_to!(*o => o[i as int]));
                        assert(decreases_to!(o[i as int] => o[i as int].1));
                    }
                    emit_json(&o[i].1, out);
                    if i + 1 < o.len() {
                        out.push(0x2c);
                    }
                    proof {
                        if i + 1 < o.len() {
                            assert(out@ + jser_members(
                                ov.subrange(i as int + 1, ov.len() as int),
                            ) =~= pre + jser_members(rest));
                        } else {
                            assert(jser_members(rest) == ser_string(ov[i as int].0) + seq![0x3au8]
                                + jser(ov[i as int].1));
                            assert(ov.subrange(i as int + 1, ov.len() as int) =~= Seq::<(
                                Seq<u8>,
                                JsonV,
                            )>::empty());
                            assert(out@ + jser_members(ov.subrange(i as int + 1, ov.len() as int))
                                =~= out@);
                        }
                    }
                    i = i + 1;
                }
                proof {
                    assert(ov.subrange(ov.len() as int, ov.len() as int) =~= Seq::<(
                        Seq<u8>,
                        JsonV,
                    )>::empty());
                    assert(out@ + Seq::<u8>::empty() =~= out@);
                }
                out.push(0x7d);
                proof {
                    assert(out@ =~= old(out)@ + jser(v@));
                }
            }
        },
    }
}

/// Appending one element extends the element views by its view.
pub proof fn lemma_arr_view_snoc(a: Vec<Json>, w: Vec<Json>, x: Json, i: int)
    requires
        0 <= i <= a.len(),
        w@ == a@.push(x),
    ensures
        arr_view(w, i) == arr_view(a, i).push(json_view(x)),
    decreases a.len() - i,
{
    if i == a.len() {
        assert(w[i] == x);
        assert(arr_view(w, i + 1) =~= Seq::<JsonV>::empty());
        assert(arr_view(w, i) =~= arr_view(a, i).push(json_view(x)));
    } else {
        lemma_arr_view_snoc(a, w, x, i + 1);
        assert(w[i] == a[i]);
        assert(arr_view(w, i) =~= arr_view(a, i).push(json_view(x)));
    }
}

pub proof fn lemma_obj_view_snoc(o: Vec<(Vec<u8>, Json)>, w: Vec<(Vec<u8>, Json)>, x: (
    Vec<u8>,
    Json,
), i: int)
    requires
        0 <= i <= o.len(),
        w@ == o@.push(x),
    ensures
        obj_view(w, i) == obj_view(o, i).push((x.0@, json_view(x.1))),
    decreases o.len() - i,
{
    if i == o.len() {
        assert(w[i] == x);
        assert(obj_view(w, i + 1) =~= Seq::<(Seq<u8>, JsonV)>::empty());
        assert(obj_view(w, i) =~= obj_view(o, i).push((x.0@, json_view(x.1))));
    } else {
        lemma_obj_view_snoc(o, w, x, i + 1);
        assert(w[i] == o[i]);
        assert(obj_view(w, i) =~= obj_view(o, i).push((x.0@, json_view(x.1))));
    }
}

/// The position after any leading whitespace.
#[verifier::loop_isolation(false)]
pub fn skip_ws_x(b: &Vec<u8>, pos: usize) -> (r: usize)
    requires
        pos <= b@.len(),
    ensures
        r as int == skip_ws(b@, pos as int),
        pos <= r <= b@.len(),
        r < b@.len() ==> !is_ws(b@[r as int]),
    decreases b@.len() - pos,
{
    let mut i: usize = pos;
    while i < b.len() && (b[i] == 0x20 || b[i] == 0x09 || b[i] == 0x0a || b[i] == 0x0d)
        invariant
            pos <= i <= b@.len(),
            skip_ws(b@, pos as int) == skip_ws(b@, i as int),
        decreases b@.len() - i,
    {
        i = i + 1;
    }
    i
}

fn hexv(c: u8) -> (r: Option<u8>)
    ensures
        match r {
            Some(x) => hex_val(c) == Some(x as int) && x < 16,
            None => hex_val(c) is None,
        },
{
    if 0x30 <= c && c <= 0x39 {
        Some(c - 0x30)
    } else if 0x61 <= c && c <= 0x66 {
        Some(c - 0x61 + 10)
    } else if 0x41 <= c && c <= 0x46 {
        Some(c - 0x41 + 10)
    } else {
        None
    }
}

/// The value of four hex digits, if all four are there.
fn hex4_x(b: &Vec<u8>, pos: usize) -> (r: Option<u32>)
    requires
        pos <= b@.len(),
    ensures
        match r {
            Some(x) => hex4(b@, pos as int) == Some(x as int) && x < 0x10000,
            None => hex4(b@, pos as int) is None,
        },
{
    if b.len() - pos < 4 {
        return None;
    }
    let a = hexv(b[pos]);
    let x = hexv(b[pos + 1]);
    let y = hexv(b[pos + 2]);
    let z = hexv(b[pos + 3]);
    match (a, x, y, z) {
        (Some(a), Some(x), Some(y), Some(z)) => Some(
            (a as u32) * 0x1000 + (x as u32) * 0x100 + (y as u32) * 0x10 + (z as u32),
        ),
        _ => None,
    }
}

/// Append the shortest encoding of a code point.
fn push_utf8(out: &mut Vec<u8>, cp: u32)
    requires
        cp < 0x110000,
    ensures
        final(out)@ == old(out)@ + utf8_enc(cp as int),
{
    if cp < 0x80 {
        out.push(cp as u8);
    } else if cp < 0x800 {
        out.push((0xc0 + cp / 0x40) as u8);
        out.push((0x80 + cp % 0x40) as u8);
    } else if cp < 0x10000 {
        out.push((0xe0 + cp / 0x1000) as u8);
        out.push((0x80 + (cp / 0x40) % 0x40) as u8);
        out.push((0x80 + cp % 0x40) as u8);
    } else {
        out.push((0xf0 + cp / 0x40000) as u8);
        out.push((0x80 + (cp / 0x1000) % 0x40) as u8);
        out.push((0x80 + (cp / 0x40) % 0x40) as u8);
        out.push((0x80 + cp % 0x40) as u8);
    }
    proof {
        assert(out@ =~= old(out)@ + utf8_enc(cp as int));
    }
}

/// Parse a string body from just after the opening quote.
#[verifier::loop_isolation(false)]
#[verifier::rlimit(60)]
pub fn parse_str_x(b: &Vec<u8>, pos: usize) -> (r: Result<(Vec<u8>, usize), ()>)
    requires
        pos <= b@.len(),
    ensures
        match r {
            Ok((s, end)) => jparse_str(b@, pos as int) == Some((s@, end as int)) && pos < end
                <= b@.len(),
            Err(_) => jparse_str(b@, pos as int) is None,
        },
{
    let mut acc: Vec<u8> = Vec::new();
    let mut cur: usize = pos;
    loop
        invariant
            pos <= cur <= b@.len(),
            jparse_str(b@, pos as int) == (match jparse_str(b@, cur as int) {
                Some((rest, end)) => Some((acc@ + rest, end)),
                None => None::<(Seq<u8>, int)>,
            }),
        decreases b@.len() - cur,
    {
        if cur >= b.len() {
            return Err(());
        }
        let c = b[cur];
        if c == 0x22 {
            proof {
                assert(acc@ + Seq::<u8>::empty() =~= acc@);
            }
            return Ok((acc, cur + 1));
        } else if c == 0x5c {
            if b.len() - cur < 2 {
                return Err(());
            }
            let e = b[cur + 1];
            if e == 0x75 {
                match hex4_x(b, cur + 2) {
                    None => {
                        return Err(());
                    },
                    Some(cp) => {
                        if 0xd800 <= cp && cp < 0xdc00 {
                            if b.len() - cur < 12 || b[cur + 6] != 0x5c || b[cur + 7] != 0x75 {
                                return Err(());
                            }
                            match hex4_x(b, cur + 8) {
                                None => {
                                    return Err(());
                                },
                                Some(lo) => {
                                    if !(0xdc00 <= lo && lo < 0xe000) {
                                        return Err(());
                                    }
                                    let full: u32 = 0x10000 + (cp - 0xd800) * 0x400 + (lo
                                        - 0xdc00);
                                    let ghost pre = acc@;
                                    push_utf8(&mut acc, full);
                                    proof {
                                        assert(forall|rest: Seq<u8>|
                                            pre + (utf8_enc(full as int) + rest) =~= #[trigger] (
                                            acc@ + rest));
                                    }
                                    cur = cur + 12;
                                },
                            }
                        } else if 0xdc00 <= cp && cp < 0xe000 {
                            return Err(());
                        } else {
                            let ghost pre = acc@;
                            push_utf8(&mut acc, cp);
                            proof {
                                assert(forall|rest: Seq<u8>|
                                    pre + (utf8_enc(cp as int) + rest) =~= #[trigger] (acc@
                                        + rest));
                            }
                            cur = cur + 6;
                        }
                    },
                }
            } else {
                let d: u8 = if e == 0x22 {
                    0x22
                } else if e == 0x5c {
                    0x5c
                } else if e == 0x2f {
                    0x2f
                } else if e == 0x62 {
                    0x08
                } else if e == 0x66 {
                    0x0c
                } else if e == 0x6e {
                    0x0a
                } else if e == 0x72 {
                    0x0d
                } else if e == 0x74 {
                    0x09
                } else {
                    return Err(());
                };
                let ghost pre = acc@;
                acc.push(d);
                proof {
                    assert(forall|rest: Seq<u8>|
                        pre + (seq![d] + rest) =~= #[trigger] (acc@ + rest));
                }
                cur = cur + 2;
            }
        } else if c < 0x20 {
            return Err(());
        } else {
            let ghost pre = acc@;
            acc.push(c);
            proof {
                assert(forall|rest: Seq<u8>| pre + (seq![c] + rest) =~= #[trigger] (acc@ + rest));
            }
            cur = cur + 1;
        }
    }
}

/// The digit run is worth at least any of its prefixes.
proof fn lemma_digits_val_mono(b: Seq<u8>, from: int, i: int, to: int)
    requires
        0 <= from <= i <= to <= b.len(),
        forall|k: int| from <= k < to ==> is_digit(#[trigger] b[k]),
    ensures
        digits_val(b, from, to) >= digits_val(b, from, i) >= 0,
    decreases to - i,
{
    if i == to {
        lemma_digits_val_nonneg(b, from, to);
    } else {
        lemma_digits_val_mono(b, from, i, to - 1);
        lemma_digits_val_nonneg(b, from, to - 1);
    }
}

proof fn lemma_digits_val_nonneg(b: Seq<u8>, from: int, to: int)
    requires
        0 <= from <= to <= b.len(),
        forall|k: int| from <= k < to ==> is_digit(#[trigger] b[k]),
    ensures
        digits_val(b, from, to) >= 0,
    decreases to - from,
{
    if from < to {
        lemma_digits_val_nonneg(b, from, to - 1);
    }
}

/// The position after the run of digits starting at `pos`.
#[verifier::loop_isolation(false)]
fn digits_end_x(b: &Vec<u8>, pos: usize) -> (r: usize)
    requires
        pos <= b@.len(),
    ensures
        r as int == digits_end(b@, pos as int),
        pos <= r <= b@.len(),
    decreases b@.len() - pos,
{
    let mut i: usize = pos;
    while i < b.len() && 0x30 <= b[i] && b[i] <= 0x39
        invariant
            pos <= i <= b@.len(),
            digits_end(b@, pos as int) == digits_end(b@, i as int),
        decreases b@.len() - i,
    {
        i = i + 1;
    }
    i
}

/// The value of the digit run, or nothing if it does not fit 64 bits.
#[verifier::loop_isolation(false)]
fn digits_value_x(b: &Vec<u8>, from: usize, to: usize) -> (r: Option<u64>)
    requires
        from <= to <= b@.len(),
        forall|k: int| from <= k < to ==> is_digit(#[trigger] b@[k]),
    ensures
        match r {
            Some(x) => digits_val(b@, from as int, to as int) == x,
            None => digits_val(b@, from as int, to as int) > u64::MAX,
        },
{
    let mut acc: u64 = 0;
    let mut i: usize = from;
    while i < to
        invariant
            from <= i <= to,
            acc == digits_val(b@, from as int, i as int),
        decreases to - i,
    {
        let d = b[i] - 0x30;
        let next: u128 = acc as u128 * 10 + d as u128;
        if next > u64::MAX as u128 {
            proof {
                lemma_digits_val_mono(b@, from as int, i as int + 1, to as int);
            }
            return None;
        }
        acc = next as u64;
        i = i + 1;
    }
    Some(acc)
}

/// Parse a number starting at `pos`, which the caller has checked opens with
/// a minus sign or a digit.
#[verifier::loop_isolation(false)]
pub fn parse_num_x(b: &Vec<u8>, pos: usize) -> (r: Result<(Json, usize), ()>)
    requires
        pos <= b@.len(),
    ensures
        match r {
            Ok((v, end)) => jparse_number(b@, pos as int) == Some((v@, end as int)) && pos < end
                <= b@.len(),
            Err(_) => jparse_number(b@, pos as int) is None,
        },
{
    let (neg, p0): (bool, usize) = if pos < b.len() && b[pos] == 0x2d {
        (true, pos + 1)
    } else {
        (false, pos)
    };
    if p0 >= b.len() {
        return Err(());
    }
    let c0 = b[p0];
    if !(0x30 <= c0 && c0 <= 0x39) {
        return Err(());
    }
    if c0 == 0x30 && p0 + 1 < b.len() && 0x30 <= b[p0 + 1] && b[p0 + 1] <= 0x39 {
        return Err(());
    }
    let ip_end = digits_end_x(b, p0);
    proof {
        lemma_digits_end_bounds(b@, p0 as int);
    }
    let (fr_end, fr_has): (usize, bool) = if ip_end < b.len() && b[ip_end] == 0x2e {
        let fe = digits_end_x(b, ip_end + 1);
        if fe == ip_end + 1 {
            return Err(());
        }
        (fe, true)
    } else {
        (ip_end, false)
    };
    let (ex_end, ex_has): (usize, bool) = if fr_end < b.len() && (b[fr_end] == 0x65 || b[fr_end]
        == 0x45) {
        let sp: usize = if fr_end + 1 < b.len() && (b[fr_end + 1] == 0x2b || b[fr_end + 1]
            == 0x2d) {
            fr_end + 2
        } else {
            fr_end + 1
        };
        let ee = digits_end_x(b, sp);
        if ee == sp {
            return Err(());
        }
        (ee, true)
    } else {
        (fr_end, false)
    };
    let v: Json = if !fr_has && !ex_has {
        match digits_value_x(b, p0, ip_end) {
            Some(val) => {
                if !neg {
                    Json::UInt(val)
                } else if val == 0 {
                    Json::UInt(0)
                } else if val <= 0x8000000000000000u64 {
                    Json::NegInt(val)
                } else {
                    Json::NumOther
                }
            },
            None => Json::NumOther,
        }
    } else {
        Json::NumOther
    };
    Ok((v, ex_end))
}

/// Parse one JSON value starting at `pos`.
#[verifier::loop_isolation(false)]
#[verifier::rlimit(100)]
pub fn parse_value_x(b: &Vec<u8>, pos: usize) -> (r: Result<(Json, usize), ()>)
    requires
        pos <= b@.len(),
    ensures
        match r {
            Ok((v, end)) => jparse_value(b@, pos as int) == Some((v@, end as int)) && pos < end
                <= b@.len(),
            Err(_) => jparse_value(b@, pos as int) is None,
        },
    decreases b@.len() - pos,
{
    let p = skip_ws_x(b, pos);
    if p >= b.len() {
        return Err(());
    }
    let c = b[p];
    if c == 0x6e {
        if b.len() - p >= 4 && b[p + 1] == 0x75 && b[p + 2] == 0x6c && b[p + 3] == 0x6c {
            Ok((Json::Null, p + 4))
        } else {
            Err(())
        }
    } else if c == 0x74 {
        if b.len() - p >= 4 && b[p + 1] == 0x72 && b[p + 2] == 0x75 && b[p + 3] == 0x65 {
            Ok((Json::Bool(true), p + 4))
        } else {
            Err(())
        }
    } else if c == 0x66 {
        if b.len() - p >= 5 && b[p + 1] == 0x61 && b[p + 2] == 0x6c && b[p + 3] == 0x73 && b[p
            + 4] == 0x65 {
            Ok((Json::Bool(false), p + 5))
        } else {
            Err(())
        }
    } else if c == 0x22 {
        match parse_str_x(b, p + 1) {
            Ok((s, end)) => Ok((Json::Str(s), end)),
            Err(_) => Err(()),
        }
    } else if c == 0x5b {
        let p1 = skip_ws_x(b, p + 1);
        if p1 < b.len() && b[p1] == 0x5d {
            let inner: Vec<Json> = Vec::new();
            proof {
                assert(arr_view(inner, 0) =~= Seq::<JsonV>::empty());
            }
            return Ok((Json::Arr(inner), p1 + 1));
        }
        let mut acc: Vec<Json> = Vec::new();
        let mut cur: usize = p + 1;
        let ghost istart = p as int + 1;
        proof {
            assert(arr_view(acc, 0) =~= Seq::<JsonV>::empty());
            assert(Seq::<JsonV>::empty() + arr_view(acc, 0) =~= arr_view(acc, 0));
        }
        loop
            invariant
                istart <= cur <= b@.len(),
                pos < cur,
                jparse_items(b@, istart) == (match jparse_items(b@, cur as int) {
                    Some((rest, end)) => Some((arr_view(acc, 0) + rest, end)),
                    None => None::<(Seq<JsonV>, int)>,
                }),
            decreases b@.len() - cur,
        {
            let ghost accv = arr_view(acc, 0);
            match parse_value_x(b, cur) {
                Err(_) => {
                    return Err(());
                },
                Ok((v, pv)) => {
                    let p2 = skip_ws_x(b, pv);
                    if p2 >= b.len() {
                        return Err(());
                    }
                    if b[p2] == 0x2c {
                        let ghost apre = acc;
                        acc.push(v);
                        proof {
                            lemma_arr_view_snoc(apre, acc, v, 0);
                            assert(forall|rest: Seq<JsonV>|
                                accv + (seq![v@] + rest) =~= #[trigger] (arr_view(acc, 0)
                                    + rest));
                        }
                        cur = p2 + 1;
                    } else if b[p2] == 0x5d {
                        let ghost apre = acc;
                        acc.push(v);
                        proof {
                            lemma_arr_view_snoc(apre, acc, v, 0);
                            assert(jparse_items(b@, cur as int) == Some(
                                (seq![v@], p2 as int + 1),
                            ));
                            assert(accv + seq![v@] =~= arr_view(acc, 0));
                        }
                        return Ok((Json::Arr(acc), p2 + 1));
                    } else {
                        return Err(());
                    }
                },
            }
        }
    } else if c == 0x7b {
        let p1 = skip_ws_x(b, p + 1);
        if p1 < b.len() && b[p1] == 0x7d {
            let inner: Vec<(Vec<u8>, Json)> = Vec::new();
            proof {
                assert(obj_view(inner, 0) =~= Seq::<(Seq<u8>, JsonV)>::empty());
            }
            return Ok((Json::Obj(inner), p1 + 1));
        }
        let mut acc: Vec<(Vec<u8>, Json)> = Vec::new();
        let mut cur: usize = p + 1;
        let ghost istart = p as int + 1;
        proof {
            assert(obj_view(acc, 0) =~= Seq::<(Seq<u8>, JsonV)>::empty());
        }
        loop
            invariant
                istart <= cur <= b@.len(),
                pos < cur,
                jparse_members(b@, istart) == (match jparse_members(b@, cur as int) {
                    Some((rest, end)) => Some((obj_view(acc, 0) + rest, end)),
                    None => None::<(Seq<(Seq<u8>, JsonV)>, int)>,
                }),
            decreases b@.len() - cur,
        {
            let ghost accv = obj_view(acc, 0);
            let pk = skip_ws_x(b, cur);
            if pk >= b.len() {
                return Err(());
            }
            if b[pk] != 0x22 {
                return Err(());
            }
            match parse_str_x(b, pk + 1) {
                Err(_) => {
                    return Err(());
                },
                Ok((k, pk1)) => {
                    let p2 = skip_ws_x(b, pk1);
                    if p2 >= b.len() || b[p2] != 0x3a {
                        return Err(());
                    }
                    match parse_value_x(b, p2 + 1) {
                        Err(_) => {
                            return Err(());
                        },
                        Ok((v, p3)) => {
                            let p4 = skip_ws_x(b, p3);
                            if p4 >= b.len() {
                                return Err(());
                            }
                            if b[p4] == 0x2c {
                                let ghost opre = acc;
                                let ghost kv = (k@, v@);
                                acc.push((k, v));
                                proof {
                                    lemma_obj_view_snoc(opre, acc, acc@[opre@.len() as int], 0);
                                    assert(forall|rest: Seq<(Seq<u8>, JsonV)>|
                                        accv + (seq![kv] + rest) =~= #[trigger] (obj_view(acc, 0)
                                            + rest));
                                }
                                cur = p4 + 1;
                            } else if b[p4] == 0x7d {
                                let ghost opre = acc;
                                let ghost kv = (k@, v@);
                                acc.push((k, v));
                                proof {
                                    lemma_obj_view_snoc(opre, acc, acc@[opre@.len() as int], 0);
                                    assert(jparse_members(b@, cur as int) == Some(
                                        (seq![kv], p4 as int + 1),
                                    ));
                                    assert(accv + seq![kv] =~= obj_view(acc, 0));
                                }
                                return Ok((Json::Obj(acc), p4 + 1));
                            } else {
                                return Err(());
                            }
                        },
                    }
                },
            }
        }
    } else if c == 0x2d || (0x30 <= c && c <= 0x39) {
        match parse_num_x(b, p) {
            Ok((v, end)) => Ok((v, end)),
            Err(_) => Err(()),
        }
    } else {
        Err(())
    }
}

/// Parse a whole buffer as one JSON value with nothing but whitespace after.
pub fn parse_json_x(b: &Vec<u8>) -> (r: Result<Json, ()>)
    ensures
        match r {
            Ok(v) => jparse(b@) == Some(v@),
            Err(_) => jparse(b@) is None,
        },
{
    match parse_value_x(b, 0) {
        Err(_) => Err(()),
        Ok((v, end)) => {
            let e2 = skip_ws_x(b, end);
            if e2 == b.len() {
                Ok(v)
            } else {
                Err(())
            }
        },
    }
}

} // verus!
