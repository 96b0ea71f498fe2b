//! The protocol messages and their JSON shapes. A request frame carries
//! `jsonrpc`, `method`, `params` and an optional `id`; a response frame
//! carries `jsonrpc`, one of `result` or `error`, and `id`. Request keys
//! match exactly; response keys match without regard to ASCII case, as the
//! wire peers do. A frame that repeats a key is refused.

use vstd::prelude::*;

use crate::json::JsonV;

verus! {

broadcast use vstd::seq::group_seq_axioms;

/// A request id: a number or a short string (at most 36 bytes on the wire).
#[derive(Debug, PartialEq, Eq)]
pub enum MessageId {
    Num(u64),
    Str(Vec<u8>),
}

/// The ghost form of a request id.
pub enum IdV {
    Num(u64),
    Str(Seq<u8>),
}

impl View for MessageId {
    type V = IdV;

    open spec fn view(&self) -> IdV {
        match self {
            MessageId::Num(n) => IdV::Num(*n),
            MessageId::Str(s) => IdV::Str(s@),
        }
    }
}

/// One element of a response result array: a null, a string, or an unsigned
/// number. Anything else a peer puts in such an array is elided.
#[derive(Debug, PartialEq, Eq)]
pub enum ResponseElem {
    Null,
    Str(Vec<u8>),
    Num(u64),
}

pub enum ElemV {
    Null,
    Str(Seq<u8>),
    Num(u64),
}

impl View for ResponseElem {
    type V = ElemV;

    open spec fn view(&self) -> ElemV {
        match self {
            ResponseElem::Null => ElemV::Null,
            ResponseElem::Str(s) => ElemV::Str(s@),
            ResponseElem::Num(n) => ElemV::Num(*n),
        }
    }
}

/// The polymorphic `result` of a response: a boolean, an array of elements,
/// or a null.
#[derive(Debug, PartialEq, Eq)]
pub enum ResponseParams {
    Bool(bool),
    Array(Vec<ResponseElem>),
    Null,
}

pub enum ParamsV {
    Bool(bool),
    Array(Seq<ElemV>),
    Null,
}

impl View for ResponseParams {
    type V = ParamsV;

    open spec fn view(&self) -> ParamsV {
        match self {
            ResponseParams::Bool(b) => ParamsV::Bool(*b),
            ResponseParams::Array(a) => ParamsV::Array(a@.map_values(|e: ResponseElem| e@)),
            ResponseParams::Null => ParamsV::Null,
        }
    }
}

/// A JSON-RPC error object: its code and its message (at most 31 bytes on
/// the wire).
#[derive(Debug, PartialEq, Eq)]
pub struct RpcError {
    pub code: i64,
    pub message: Vec<u8>,
}

pub struct ErrV {
    pub code: i64,
    pub message: Seq<u8>,
}

impl View for RpcError {
    type V = ErrV;

    open spec fn view(&self) -> ErrV {
        ErrV { code: self.code, message: self.message@ }
    }
}

/// One protocol message. String fields are raw bytes.
#[derive(Debug, PartialEq, Eq)]
pub enum StratumMessage {
    /// id, user agent, protocol version, session id.
    Subscribe(MessageId, Vec<u8>, Vec<u8>, Option<Vec<u8>>),
    /// id, worker name, worker password.
    Authorize(MessageId, Vec<u8>, Vec<u8>),
    /// difficulty target.
    SetTarget(u64),
    /// job id, epoch challenge, address, clean jobs.
    Notify(Vec<u8>, Vec<u8>, Option<Vec<u8>>, bool),
    /// id, worker name, job id, nonce, commitment, proof.
    Submit(MessageId, Vec<u8>, Vec<u8>, Vec<u8>, Vec<u8>, Vec<u8>),
    /// id, result, error.
    Response(MessageId, Option<ResponseParams>, Option<RpcError>),
}

pub enum MsgV {
    Subscribe(IdV, Seq<u8>, Seq<u8>, Option<Seq<u8>>),
    Authorize(IdV, Seq<u8>, Seq<u8>),
    SetTarget(u64),
    Notify(Seq<u8>, Seq<u8>, Option<Seq<u8>>, bool),
    Submit(IdV, Seq<u8>, Seq<u8>, Seq<u8>, Seq<u8>, Seq<u8>),
    Response(IdV, Option<ParamsV>, Option<ErrV>),
}

pub open spec fn opt_bytes_view(o: Option<Vec<u8>>) -> Option<Seq<u8>> {
    match o {
        Some(v) => Some(v@),
        None => None,
    }
}

impl View for StratumMessage {
    type V = MsgV;

    open spec fn view(&self) -> MsgV {
        match self {
            StratumMessage::Subscribe(id, ua, pv, sess) => MsgV::Subscribe(
                id@,
                ua@,
                pv@,
                opt_bytes_view(*sess),
            ),
            StratumMessage::Authorize(id, w, p) => MsgV::Authorize(id@, w@, p@),
            StratumMessage::SetTarget(t) => MsgV::SetTarget(*t),
            StratumMessage::Notify(j, e, a, c) => MsgV::Notify(j@, e@, opt_bytes_view(*a), *c),
            StratumMessage::Submit(id, w, j, n, cm, pr) => MsgV::Submit(
                id@,
                w@,
                j@,
                n@,
                cm@,
                pr@,
            ),
            StratumMessage::Response(id, r, e) => MsgV::Response(
                id@,
                match r {
                    Some(p) => Some(p@),
                    None => None,
                },
                match e {
                    Some(x) => Some(x@),
                    None => None,
                },
            ),
        }
    }
}

// The wire keys.
pub open spec fn key_jsonrpc() -> Seq<u8> {
    seq![0x6au8, 0x73u8, 0x6fu8, 0x6eu8, 0x72u8, 0x70u8, 0x63u8]
}

pub open spec fn key_method() -> Seq<u8> {
    seq![0x6du8, 0x65u8, 0x74u8, 0x68u8, 0x6fu8, 0x64u8]
}

pub open spec fn key_params() -> Seq<u8> {
    seq![0x70u8, 0x61u8, 0x72u8, 0x61u8, 0x6du8, 0x73u8]
}

pub open spec fn key_id() -> Seq<u8> {
    seq![0x69u8, 0x64u8]
}

pub open spec fn key_result() -> Seq<u8> {
    seq![0x72u8, 0x65u8, 0x73u8, 0x75u8, 0x6cu8, 0x74u8]
}

pub open spec fn key_error() -> Seq<u8> {
    seq![0x65u8, 0x72u8, 0x72u8, 0x6fu8, 0x72u8]
}

pub open spec fn key_code() -> Seq<u8> {
    seq![0x63u8, 0x6fu8, 0x64u8, 0x65u8]
}

pub open spec fn key_message() -> Seq<u8> {
    seq![0x6du8, 0x65u8, 0x73u8, 0x73u8, 0x61u8, 0x67u8, 0x65u8]
}

pub open spec fn key_data() -> Seq<u8> {
    seq![0x64u8, 0x61u8, 0x74u8, 0x61u8]
}

pub open spec fn lit_2_0() -> Seq<u8> {
    seq![0x32u8, 0x2eu8, 0x30u8]
}

pub open spec fn m_subscribe() -> Seq<u8> {
    // "mining.subscribe"
    seq![
        0x6du8,
        0x69u8,
        0x6eu8,
        0x69u8,
        0x6eu8,
        0x67u8,
        0x2eu8,
        0x73u8,
        0x75u8,
        0x62u8,
        0x73u8,
        0x63u8,
        0x72u8,
        0x69u8,
        0x62u8,
        0x65u8,
    ]
}

pub open spec fn m_authorize() -> Seq<u8> {
    // "mining.authorize"
    seq![
        0x6du8,
        0x69u8,
        0x6eu8,
        0x69u8,
        0x6eu8,
        0x67u8,
        0x2eu8,
        0x61u8,
        0x75u8,
        0x74u8,
        0x68u8,
        0x6fu8,
        0x72u8,
        0x69u8,
        0x7au8,
        0x65u8,
    ]
}

pub open spec fn m_set_target() -> Seq<u8> {
    // "mining.set_target"
    seq![
        0x6du8,
        0x69u8,
        0x6eu8,
        0x69u8,
        0x6eu8,
        0x67u8,
        0x2eu8,
        0x73u8,
        0x65u8,
        0x74u8,
        0x5fu8,
        0x74u8,
        0x61u8,
        0x72u8,
        0x67u8,
        0x65u8,
        0x74u8,
    ]
}

pub open spec fn m_notify() -> Seq<u8> {
    // "mining.notify"
    seq![
        0x6du8,
        0x69u8,
        0x6eu8,
        0x69u8,
        0x6eu8,
        0x67u8,
        0x2eu8,
        0x6eu8,
        0x6fu8,
        0x74u8,
        0x69u8,
        0x66u8,
        0x79u8,
    ]
}

pub open spec fn m_submit() -> Seq<u8> {
    // "mining.submit"
    seq![
        0x6du8,
        0x69u8,
        0x6eu8,
        0x69u8,
        0x6eu8,
        0x67u8,
        0x2eu8,
        0x73u8,
        0x75u8,
        0x62u8,
        0x6du8,
        0x69u8,
        0x74u8,
    ]
}

/// The JSON value of an id.
pub open spec fn id_json(id: IdV) -> JsonV {
    match id {
        IdV::Num(n) => JsonV::UInt(n),
        IdV::Str(s) => JsonV::Str(s),
    }
}

/// The JSON value of a signed error code.
pub open spec fn int_json(c: i64) -> JsonV {
    if c >= 0 {
        JsonV::UInt(c as u64)
    } else {
        JsonV::NegInt((-(c as int)) as u64)
    }
}

/// The JSON value of one result array element.
pub open spec fn elem_json(e: ElemV) -> JsonV {
    match e {
        ElemV::Null => JsonV::Null,
        ElemV::Str(s) => JsonV::Str(s),
        ElemV::Num(n) => JsonV::UInt(n),
    }
}

pub open spec fn elems_json(a: Seq<ElemV>) -> Seq<JsonV> {
    a.map_values(|e: ElemV| elem_json(e))
}

/// The JSON value of a response result.
pub open spec fn params_json(p: ParamsV) -> JsonV {
    match p {
        ParamsV::Bool(b) => JsonV::Bool(b),
        ParamsV::Array(a) => JsonV::Arr(elems_json(a)),
        ParamsV::Null => JsonV::Null,
    }
}

pub open spec fn jsonrpc_pair() -> (Seq<u8>, JsonV) {
    (key_jsonrpc(), JsonV::Str(lit_2_0()))
}

pub open spec fn opt_str_json(o: Option<Seq<u8>>) -> JsonV {
    match o {
        Some(s) => JsonV::Str(s),
        None => JsonV::Null,
    }
}

/// The JSON object a message is written as.
pub open spec fn msg_json(m: MsgV) -> JsonV {
    match m {
        MsgV::Subscribe(id, ua, pv, sess) => JsonV::Obj(
            seq![
                jsonrpc_pair(),
                (key_method(), JsonV::Str(m_subscribe())),
                (
                    key_params(),
                    JsonV::Arr(seq![JsonV::Str(ua), JsonV::Str(pv), opt_str_json(sess)]),
                ),
                (key_id(), id_json(id)),
            ],
        ),
        MsgV::Authorize(id, w, p) => JsonV::Obj(
            seq![
                jsonrpc_pair(),
                (key_method(), JsonV::Str(m_authorize())),
                (key_params(), JsonV::Arr(seq![JsonV::Str(w), JsonV::Str(p)])),
                (key_id(), id_json(id)),
            ],
        ),
        MsgV::SetTarget(t) => JsonV::Obj(
            seq![
                jsonrpc_pair(),
                (key_method(), JsonV::Str(m_set_target())),
                (key_params(), JsonV::Arr(seq![JsonV::UInt(t)])),
            ],
        ),
        MsgV::Notify(j, e, a, c) => JsonV::Obj(
            seq![
                jsonrpc_pair(),
                (key_method(), JsonV::Str(m_notify())),
                (
                    key_params(),
                    JsonV::Arr(
                        seq![JsonV::Str(j), JsonV::Str(e), opt_str_json(a), JsonV::Bool(c)],
                    ),
                ),
            ],
        ),
        MsgV::Submit(id, w, j, n, cm, pr) => JsonV::Obj(
            seq![
                jsonrpc_pair(),
                (key_method(), JsonV::Str(m_submit())),
                (
                    key_params(),
                    JsonV::Arr(
                        seq![
                            JsonV::Str(w),
                            JsonV::Str(j),
                            JsonV::Str(n),
                            JsonV::Str(cm),
                            JsonV::Str(pr),
                        ],
                    ),
                ),
                (key_id(), id_json(id)),
            ],
        ),
        MsgV::Response(id, r, e) => match e {
            Some(err) => JsonV::Obj(
                seq![
                    jsonrpc_pair(),
                    (
                        key_error(),
                        JsonV::Obj(
                            seq![
                                (key_code(), int_json(err.code)),
                                (key_message(), JsonV::Str(err.message)),
                            ],
                        ),
                    ),
                    (key_id(), id_json(id)),
                ],
            ),
            None => JsonV::Obj(
                seq![
                    jsonrpc_pair(),
                    (
                        key_result(),
                        match r {
                            Some(p) => params_json(p),
                            None => JsonV::Null,
                        },
                    ),
                    (key_id(), id_json(id)),
                ],
            ),
        },
    }
}

/// A message the codec can write and read back identically: ids fit the wire
/// limit, and a response holds either a boolean or array result, or an error
/// whose message fits the wire limit.
pub open spec fn wf_id(id: IdV) -> bool {
    match id {
        IdV::Num(_) => true,
        IdV::Str(s) => s.len() <= 36,
    }
}

pub open spec fn wf_msg(m: MsgV) -> bool {
    match m {
        MsgV::Subscribe(id, _, _, _) => wf_id(id),
        MsgV::Authorize(id, _, _) => wf_id(id),
        MsgV::SetTarget(_) => true,
        MsgV::Notify(_, _, _, _) => true,
        MsgV::Submit(id, _, _, _, _, _) => wf_id(id),
        MsgV::Response(id, r, e) => wf_id(id) && (match e {
            Some(err) => r is None && err.message.len() <= 31,
            None => match r {
                Some(p) => p is Bool || p is Array,
                None => false,
            },
        }),
    }
}

// ---------------------------------------------------------------------------
// Reading a frame's JSON object back into a message.
// ---------------------------------------------------------------------------
/// Lowercase an ASCII byte.
pub open spec fn lc(c: u8) -> u8 {
    if 0x41 <= c <= 0x5a {
        (c + 0x20) as u8
    } else {
        c
    }
}

/// Byte equality without regard to ASCII case.
pub open spec fn ci_eq(a: Seq<u8>, b: Seq<u8>) -> bool {
    a.len() == b.len() && forall|i: int| 0 <= i < a.len() ==> lc(a[i]) == lc(b[i])
}

pub open spec fn has_key(o: Seq<(Seq<u8>, JsonV)>, k: Seq<u8>) -> bool
    decreases o.len(),
{
    if o.len() == 0 {
        false
    } else {
        o.last().0 == k || has_key(o.drop_last(), k)
    }
}

/// The value under the last occurrence of `k`.
pub open spec fn get_key(o: Seq<(Seq<u8>, JsonV)>, k: Seq<u8>) -> Option<JsonV>
    decreases o.len(),
{
    if o.len() == 0 {
        None
    } else if o.last().0 == k {
        Some(o.last().1)
    } else {
        get_key(o.drop_last(), k)
    }
}

pub open spec fn has_key_ci(o: Seq<(Seq<u8>, JsonV)>, k: Seq<u8>) -> bool
    decreases o.len(),
{
    if o.len() == 0 {
        false
    } else {
        ci_eq(o.last().0, k) || has_key_ci(o.drop_last(), k)
    }
}

pub open spec fn get_key_ci(o: Seq<(Seq<u8>, JsonV)>, k: Seq<u8>) -> Option<JsonV>
    decreases o.len(),
{
    if o.len() == 0 {
        None
    } else if ci_eq(o.last().0, k) {
        Some(o.last().1)
    } else {
        get_key_ci(o.drop_last(), k)
    }
}

/// No key occurs twice.
pub open spec fn keys_unique(o: Seq<(Seq<u8>, JsonV)>) -> bool
    decreases o.len(),
{
    if o.len() == 0 {
        true
    } else {
        !has_key(o.drop_last(), o.last().0) && keys_unique(o.drop_last())
    }
}

/// No two keys are equal without regard to case.
pub open spec fn keys_unique_ci(o: Seq<(Seq<u8>, JsonV)>) -> bool
    decreases o.len(),
{
    if o.len() == 0 {
        true
    } else {
        !has_key_ci(o.drop_last(), o.last().0) && keys_unique_ci(o.drop_last())
    }
}

/// Every key is one a request may carry.
pub open spec fn keys_among_req(o: Seq<(Seq<u8>, JsonV)>) -> bool
    decreases o.len(),
{
    if o.len() == 0 {
        true
    } else {
        (o.last().0 == key_jsonrpc() || o.last().0 == key_method() || o.last().0 == key_params()
            || o.last().0 == key_id()) && keys_among_req(o.drop_last())
    }
}

/// Every key is one a response may carry, without regard to case.
pub open spec fn keys_among_resp(o: Seq<(Seq<u8>, JsonV)>) -> bool
    decreases o.len(),
{
    if o.len() == 0 {
        true
    } else {
        (ci_eq(o.last().0, key_jsonrpc()) || ci_eq(o.last().0, key_result()) || ci_eq(
            o.last().0,
            key_error(),
        ) || ci_eq(o.last().0, key_id())) && keys_among_resp(o.drop_last())
    }
}

/// Every key is one an error object may carry.
pub open spec fn keys_among_err(o: Seq<(Seq<u8>, JsonV)>) -> bool
    decreases o.len(),
{
    if o.len() == 0 {
        true
    } else {
        (o.last().0 == key_code() || o.last().0 == key_message() || o.last().0 == key_data())
            && keys_among_err(o.drop_last())
    }
}

/// The id field: absent or null stands for no id; a number or a string of at
/// most 36 bytes is an id; anything else refuses the frame.
pub open spec fn id_of_json(v: Option<JsonV>) -> Option<Option<IdV>> {
    match v {
        None => Some(None),
        Some(JsonV::Null) => Some(None),
        Some(JsonV::UInt(n)) => Some(Some(IdV::Num(n))),
        Some(JsonV::Str(s)) => if s.len() <= 36 {
            Some(Some(IdV::Str(s)))
        } else {
            None
        },
        Some(_) => None,
    }
}

pub open spec fn id_or_zero(i: Option<IdV>) -> IdV {
    match i {
        Some(x) => x,
        None => IdV::Num(0),
    }
}

pub open spec fn as_str(v: JsonV) -> Option<Seq<u8>> {
    match v {
        JsonV::Str(s) => Some(s),
        _ => None,
    }
}

pub open spec fn as_opt_str(v: JsonV) -> Option<Option<Seq<u8>>> {
    match v {
        JsonV::Str(s) => Some(Some(s)),
        JsonV::Null => Some(None),
        _ => None,
    }
}

/// Array elements a response result keeps: nulls, strings and unsigned
/// numbers; other numbers read as nulls, and anything else is elided.
pub open spec fn elems_of(a: Seq<JsonV>) -> Seq<ElemV>
    decreases a.len(),
{
    if a.len() == 0 {
        Seq::<ElemV>::empty()
    } else {
        let rest = elems_of(a.drop_first());
        match a.first() {
            JsonV::Null => seq![ElemV::Null] + rest,
            JsonV::Str(s) => seq![ElemV::Str(s)] + rest,
            JsonV::UInt(n) => seq![ElemV::Num(n)] + rest,
            JsonV::NegInt(_) => seq![ElemV::Null] + rest,
            JsonV::NumOther => seq![ElemV::Null] + rest,
            _ => rest,
        }
    }
}

/// A non-null result value: a boolean or an array; anything else refuses the
/// frame.
pub open spec fn params_of_json(v: JsonV) -> Option<ParamsV> {
    match v {
        JsonV::Bool(b) => Some(ParamsV::Bool(b)),
        JsonV::Arr(a) => Some(ParamsV::Array(elems_of(a))),
        _ => None,
    }
}

/// A signed 64-bit error code.
pub open spec fn code_of_json(v: JsonV) -> Option<i64> {
    match v {
        JsonV::UInt(n) => if n <= i64::MAX {
            Some(n as i64)
        } else {
            None
        },
        JsonV::NegInt(m) => if 1 <= m <= 0x8000000000000000u64 {
            Some((-(m as int)) as i64)
        } else {
            None
        },
        _ => None,
    }
}

/// An error object: a required code and message, and an optional null data
/// field.
pub open spec fn err_of_json(v: JsonV) -> Option<ErrV> {
    match v {
        JsonV::Obj(eo) => {
            if !keys_unique(eo) || !keys_among_err(eo) {
                None
            } else {
                match (get_key(eo, key_code()), get_key(eo, key_message())) {
                    (Some(cv), Some(JsonV::Str(msg))) => {
                        if msg.len() <= 31 {
                            match code_of_json(cv) {
                                Some(c) => match get_key(eo, key_data()) {
                                    None => Some(ErrV { code: c, message: msg }),
                                    Some(JsonV::Null) => Some(ErrV { code: c, message: msg }),
                                    Some(_) => None,
                                },
                                None => None,
                            }
                        } else {
                            None
                        }
                    },
                    _ => None,
                }
            }
        },
        _ => None,
    }
}

/// Dispatch a request on its method name and parameter list.
pub open spec fn dispatch_req(m: Seq<u8>, ps: Seq<JsonV>, id: IdV) -> Option<MsgV> {
    if m == m_subscribe() {
        if ps.len() == 3 {
            match (as_str(ps[0]), as_str(ps[1]), as_opt_str(ps[2])) {
                (Some(ua), Some(pv), Some(sess)) => Some(MsgV::Subscribe(id, ua, pv, sess)),
                _ => None,
            }
        } else {
            None
        }
    } else if m == m_authorize() {
        if ps.len() == 2 {
            match (as_str(ps[0]), as_str(ps[1])) {
                (Some(w), Some(pw)) => Some(MsgV::Authorize(id, w, pw)),
                _ => None,
            }
        } else {
            None
        }
    } else if m == m_set_target() {
        if ps.len() == 1 {
            match ps[0] {
                JsonV::UInt(t) => Some(MsgV::SetTarget(t)),
                _ => None,
            }
        } else {
            None
        }
    } else if m == m_notify() {
        if ps.len() == 4 {
            match (as_str(ps[0]), as_str(ps[1]), as_opt_str(ps[2]), ps[3]) {
                (Some(j), Some(e), Some(a), JsonV::Bool(c)) => Some(MsgV::Notify(j, e, a, c)),
                _ => None,
            }
        } else {
            None
        }
    } else if m == m_submit() {
        if ps.len() == 5 {
            match (as_str(ps[0]), as_str(ps[1]), as_str(ps[2]), as_str(ps[3]), as_str(ps[4])) {
                (Some(w), Some(j), Some(n), Some(cm), Some(pr)) => Some(
                    MsgV::Submit(id, w, j, n, cm, pr),
                ),
                _ => None,
            }
        } else {
            None
        }
    } else {
        None
    }
}

/// A frame with a `method` key: check the envelope, then dispatch.
pub open spec fn req_of_obj(o: Seq<(Seq<u8>, JsonV)>) -> Option<MsgV> {
    if !keys_among_req(o) {
        None
    } else if !(match get_key(o, key_jsonrpc()) {
        None => true,
        Some(JsonV::Str(s)) => s == lit_2_0(),
        Some(_) => false,
    }) {
        None
    } else {
        match get_key(o, key_method()) {
            Some(JsonV::Str(m)) => {
                if m.len() <= 32 {
                    match get_key(o, key_params()) {
                        Some(JsonV::Arr(ps)) => match id_of_json(get_key(o, key_id())) {
                            Some(ido) => dispatch_req(m, ps, id_or_zero(ido)),
                            None => None,
                        },
                        _ => None,
                    }
                } else {
                    None
                }
            },
            _ => None,
        }
    }
}

pub open spec fn non_null(v: Option<JsonV>) -> Option<JsonV> {
    match v {
        Some(JsonV::Null) => None,
        x => x,
    }
}

/// A frame without a `method` key: a response, with exactly one of a
/// non-null `result` or a non-null `error`.
pub open spec fn resp_of_obj(o: Seq<(Seq<u8>, JsonV)>) -> Option<MsgV> {
    if !keys_among_resp(o) || !keys_unique_ci(o) {
        None
    } else if !(match get_key_ci(o, key_jsonrpc()) {
        None => true,
        Some(JsonV::Str(s)) => s == lit_2_0(),
        Some(_) => false,
    }) {
        None
    } else {
        match id_of_json(get_key_ci(o, key_id())) {
            None => None,
            Some(ido) => {
                let id = id_or_zero(ido);
                match (non_null(get_key_ci(o, key_result())), non_null(
                    get_key_ci(o, key_error()),
                )) {
                    (Some(rv), None) => match params_of_json(rv) {
                        Some(p) => Some(MsgV::Response(id, Some(p), None)),
                        None => None,
                    },
                    (None, Some(ev)) => match err_of_json(ev) {
                        Some(err) => Some(MsgV::Response(id, None, Some(err))),
                        None => None,
                    },
                    _ => None,
                }
            },
        }
    }
}

/// Read a message from a frame's JSON value.
pub open spec fn msg_of_json(v: JsonV) -> Option<MsgV> {
    match v {
        JsonV::Obj(o) => {
            if !keys_unique(o) {
                None
            } else if has_key(o, key_method()) {
                req_of_obj(o)
            } else {
                resp_of_obj(o)
            }
        },
        _ => None,
    }
}

/// The whole frame, bytes to message.
pub open spec fn decode_frame_spec(b: Seq<u8>) -> Option<MsgV> {
    match crate::json::jparse(b) {
        Some(v) => msg_of_json(v),
        None => None,
    }
}

/// The whole frame, message to bytes (without the newline).
pub open spec fn encode_frame_spec(m: MsgV) -> Seq<u8> {
    crate::json::jser(msg_json(m))
}

} // verus!