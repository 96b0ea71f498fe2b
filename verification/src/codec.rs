//! The frame codec: a message becomes one JSON object terminated by a
//! newline, at most 4096 bytes; an incoming buffer is split at the first
//! newline and the frame before it is read back as a message. Writing a
//! well-formed message and reading the frame back finds exactly the same
//! message.

use vstd::prelude::*;

use crate::json::{
    arr_view, jparse, jser, json_view, lemma_arr_view_index, lemma_json_round_trip,
    lemma_obj_view_index, obj_view, wf_json, wf_json_list, wf_json_members, Json, JsonV,
};
use crate::message::{
    ci_eq, code_of_json, decode_frame_spec, dispatch_req, elem_json, elems_json, elems_of,
    encode_frame_spec, err_of_json, get_key, get_key_ci, has_key, has_key_ci, id_json, int_json,
    key_code, key_data, key_error, key_id, key_jsonrpc, key_message, key_method, key_params,
    key_result, keys_among_err, keys_among_req, keys_among_resp, keys_unique, keys_unique_ci,
    lc, lit_2_0, m_authorize, m_notify, m_set_target, m_submit, m_subscribe, msg_json,
    msg_of_json,
    opt_str_json, params_json, wf_msg, ElemV, ErrV, IdV, MessageId, MsgV, ParamsV, ResponseElem,
    ResponseParams, RpcError, StratumMessage,
};

verus! {

broadcast use vstd::seq::group_seq_axioms, crate::json::lemma_arr_view_len,
    crate::json::lemma_arr_view_at, crate::json::lemma_obj_view_len, crate::json::lemma_obj_view_at;

pub proof fn lemma_has_key_iff(o: Seq<(Seq<u8>, JsonV)>, k: Seq<u8>)
    ensures
        has_key(o, k) == exists|i: int| 0 <= i < o.len() && (#[trigger] o[i].0) == k,
    decreases o.len(),
{
    if o.len() > 0 {
        lemma_has_key_iff(o.drop_last(), k);
        if o.last().0 == k {
            assert(o[o.len() - 1].0 == k);
        } else if has_key(o.drop_last(), k) {
            let i = choose|i: int|
                0 <= i < o.drop_last().len() && (#[trigger] o.drop_last()[i].0) == k;
            assert(o[i].0 == k);
        } else {
            assert forall|i: int| 0 <= i < o.len() implies (#[trigger] o[i].0) != k by {
                if i < o.len() - 1 {
                    assert(o.drop_last()[i].0 == o[i].0);
                }
            }
        }
    }
}

pub proof fn lemma_has_key_ci_iff(o: Seq<(Seq<u8>, JsonV)>, k: Seq<u8>)
    ensures
        has_key_ci(o, k) == exists|i: int| 0 <= i < o.len() && ci_eq(#[trigger] o[i].0, k),
    decreases o.len(),
{
    if o.len() > 0 {
        lemma_has_key_ci_iff(o.drop_last(), k);
        if ci_eq(o.last().0, k) {
            assert(ci_eq(o[o.len() - 1].0, k));
        } else if has_key_ci(o.drop_last(), k) {
            let i = choose|i: int|
                0 <= i < o.drop_last().len() && ci_eq(#[trigger] o.drop_last()[i].0, k);
            assert(ci_eq(o[i].0, k));
        } else {
            assert forall|i: int| 0 <= i < o.len() implies !ci_eq(#[trigger] o[i].0, k) by {
                if i < o.len() - 1 {
                    assert(o.drop_last()[i].0 == o[i].0);
                }
            }
        }
    }
}

/// Under unique keys, the lookup finds the one entry that holds the key.
pub proof fn lemma_get_key_at(o: Seq<(Seq<u8>, JsonV)>, k: Seq<u8>, i: int)
    requires
        keys_unique(o),
        0 <= i < o.len(),
        o[i].0 == k,
    ensures
        get_key(o, k) == Some(o[i].1),
    decreases o.len(),
{
    lemma_has_key_iff(o.drop_last(), k);
    if i == o.len() - 1 {
    } else {
        assert(o.drop_last()[i] == o[i]);
        assert(o.last().0 != k) by {
            if o.last().0 == k {
                assert(has_key(o.drop_last(), k));
            }
        }
        lemma_get_key_at(o.drop_last(), k, i);
    }
}

pub proof fn lemma_get_key_absent(o: Seq<(Seq<u8>, JsonV)>, k: Seq<u8>)
    requires
        forall|i: int| 0 <= i < o.len() ==> (#[trigger] o[i].0) != k,
    ensures
        get_key(o, k) is None,
        !has_key(o, k),
    decreases o.len(),
{
    if o.len() > 0 {
        assert(forall|i: int|
            0 <= i < o.drop_last().len() ==> (#[trigger] o.drop_last()[i].0) == o[i].0);
        lemma_get_key_absent(o.drop_last(), k);
        assert(o[o.len() - 1].0 != k);
    }
}

pub proof fn lemma_get_key_ci_at(o: Seq<(Seq<u8>, JsonV)>, k: Seq<u8>, i: int)
    requires
        keys_unique_ci(o),
        0 <= i < o.len(),
        ci_eq(o[i].0, k),
    ensures
        get_key_ci(o, k) == Some(o[i].1),
    decreases o.len(),
{
    lemma_has_key_ci_iff(o.drop_last(), o.last().0);
    if i == o.len() - 1 {
    } else {
        assert(o.drop_last()[i] == o[i]);
        assert(!ci_eq(o.last().0, k)) by {
            if ci_eq(o.last().0, k) {
                lemma_ci_eq_trans(o.last().0, k, o[i].0);
                assert(ci_eq(o.drop_last()[i].0, o.last().0));
            }
        }
        lemma_get_key_ci_at(o.drop_last(), k, i);
    }
}

pub proof fn lemma_get_key_ci_absent(o: Seq<(Seq<u8>, JsonV)>, k: Seq<u8>)
    requires
        forall|i: int| 0 <= i < o.len() ==> !ci_eq(#[trigger] o[i].0, k),
    ensures
        get_key_ci(o, k) is None,
    decreases o.len(),
{
    if o.len() > 0 {
        assert(forall|i: int|
            0 <= i < o.drop_last().len() ==> (#[trigger] o.drop_last()[i].0) == o[i].0);
        lemma_get_key_ci_absent(o.drop_last(), k);
        assert(!ci_eq(o[o.len() - 1].0, k));
    }
}

/// Case-blind equality relates keys that lowercase alike.
pub proof fn lemma_ci_eq_trans(a: Seq<u8>, k: Seq<u8>, c: Seq<u8>)
    requires
        ci_eq(a, k),
        ci_eq(c, k),
    ensures
        ci_eq(c, a),
{
}

pub proof fn lemma_keys_unique_of(o: Seq<(Seq<u8>, JsonV)>)
    requires
        forall|i: int, j: int| 0 <= i < j < o.len() ==> (#[trigger] o[i].0) != (#[trigger] o[j].0),
    ensures
        keys_unique(o),
    decreases o.len(),
{
    if o.len() > 0 {
        assert(forall|i: int|
            0 <= i < o.drop_last().len() ==> (#[trigger] o.drop_last()[i].0) == o[i].0);
        lemma_keys_unique_of(o.drop_last());
        lemma_has_key_iff(o.drop_last(), o.last().0);
        assert(forall|i: int| 0 <= i < o.len() - 1 ==> (#[trigger] o[i].0) != o[o.len() - 1].0);
    }
}

pub proof fn lemma_keys_unique_ci_of(o: Seq<(Seq<u8>, JsonV)>)
    requires
        forall|i: int, j: int|
            0 <= i < j < o.len() ==> !ci_eq(#[trigger] o[i].0, #[trigger] o[j].0),
    ensures
        keys_unique_ci(o),
    decreases o.len(),
{
    if o.len() > 0 {
        assert(forall|i: int|
            0 <= i < o.drop_last().len() ==> (#[trigger] o.drop_last()[i].0) == o[i].0);
        lemma_keys_unique_ci_of(o.drop_last());
        lemma_has_key_ci_iff(o.drop_last(), o.last().0);
        assert(forall|i: int|
            0 <= i < o.len() - 1 ==> !ci_eq(#[trigger] o[i].0, o[o.len() - 1].0));
    }
}

pub proof fn lemma_keys_among_req_of(o: Seq<(Seq<u8>, JsonV)>)
    requires
        forall|i: int|
            0 <= i < o.len() ==> ((#[trigger] o[i].0) == key_jsonrpc() || o[i].0 == key_method()
                || o[i].0 == key_params() || o[i].0 == key_id()),
    ensures
        keys_among_req(o),
    decreases o.len(),
{
    if o.len() > 0 {
        assert(forall|i: int|
            0 <= i < o.drop_last().len() ==> (#[trigger] o.drop_last()[i].0) == o[i].0);
        lemma_keys_among_req_of(o.drop_last());
        assert(o[o.len() - 1].0 == o.last().0);
    }
}

pub proof fn lemma_keys_among_resp_of(o: Seq<(Seq<u8>, JsonV)>)
    requires
        forall|i: int|
            0 <= i < o.len() ==> (ci_eq(#[trigger] o[i].0, key_jsonrpc()) || ci_eq(
                o[i].0,
                key_result(),
            ) || ci_eq(o[i].0, key_error()) || ci_eq(o[i].0, key_id())),
    ensures
        keys_among_resp(o),
    decreases o.len(),
{
    if o.len() > 0 {
        assert(forall|i: int|
            0 <= i < o.drop_last().len() ==> (#[trigger] o.drop_last()[i].0) == o[i].0);
        lemma_keys_among_resp_of(o.drop_last());
        assert(o[o.len() - 1].0 == o.last().0);
    }
}

pub proof fn lemma_keys_among_err_of(o: Seq<(Seq<u8>, JsonV)>)
    requires
        forall|i: int|
            0 <= i < o.len() ==> ((#[trigger] o[i].0) == key_code() || o[i].0 == key_message()
                || o[i].0 == key_data()),
    ensures
        keys_among_err(o),
    decreases o.len(),
{
    if o.len() > 0 {
        assert(forall|i: int|
            0 <= i < o.drop_last().len() ==> (#[trigger] o.drop_last()[i].0) == o[i].0);
        lemma_keys_among_err_of(o.drop_last());
        assert(o[o.len() - 1].0 == o.last().0);
    }
}

/// Reading back the array elements a response wrote finds them all: every
/// element the codec writes is one the reader keeps.
pub proof fn lemma_elems_round(a: Seq<ElemV>)
    ensures
        elems_of(elems_json(a)) == a,
    decreases a.len(),
{
    if a.len() == 0 {
        assert(elems_json(a) =~= Seq::<JsonV>::empty());
        assert(elems_of(elems_json(a)) =~= a);
    } else {
        lemma_elems_round(a.drop_first());
        assert(elems_json(a).drop_first() =~= elems_json(a.drop_first()));
        assert(elems_json(a).first() == elem_json(a.first()));
        assert(elems_json(a).len() == a.len());
        match a.first() {
            ElemV::Null => {
                assert(elems_of(elems_json(a)) =~= a);
            },
            ElemV::Str(s) => {
                assert(elems_of(elems_json(a)) =~= a);
            },
            ElemV::Num(n) => {
                assert(elems_of(elems_json(a)) =~= a);
            },
        }
    }
}

pub proof fn lemma_elems_json_wf(a: Seq<ElemV>)
    ensures
        wf_json_list(elems_json(a)),
    decreases a.len(),
{
    reveal_with_fuel(wf_json_list, 2);
    if a.len() > 0 {
        lemma_elems_json_wf(a.drop_first());
        assert(elems_json(a).len() == a.len());
        assert(elems_json(a).drop_first() =~= elems_json(a.drop_first()));
        assert(elems_json(a).first() == elem_json(a.first()));
        assert(wf_json(elem_json(a.first())));
    } else {
        assert(elems_json(a) =~= Seq::<JsonV>::empty());
    }
}

/// Everything the codec writes is a value the serializer accepts.
pub proof fn lemma_msg_json_wf(m: MsgV)
    requires
        wf_msg(m),
    ensures
        wf_json(msg_json(m)),
{
    reveal_with_fuel(wf_json_list, 8);
    reveal_with_fuel(wf_json_members, 8);
    reveal_with_fuel(wf_json, 3);
    let v = msg_json(m);
    let o = v->Obj_0;
    let e4: Seq<(Seq<u8>, JsonV)> = Seq::empty();
    let el: Seq<JsonV> = Seq::empty();
    assert(wf_json_members(e4));
    assert(wf_json_list(el));
    match m {
        MsgV::Subscribe(id, ua, pv, sess) => {
            let ps = seq![JsonV::Str(ua), JsonV::Str(pv), opt_str_json(sess)];
            assert(seq![opt_str_json(sess)].drop_first() =~= el);
            assert(wf_json(opt_str_json(sess)));
            assert(wf_json_list(seq![opt_str_json(sess)]));
            assert(seq![JsonV::Str(pv), opt_str_json(sess)].drop_first() =~= seq![
                opt_str_json(sess),
            ]);
            assert(wf_json_list(seq![JsonV::Str(pv), opt_str_json(sess)]));
            assert(ps.drop_first() =~= seq![JsonV::Str(pv), opt_str_json(sess)]);
            assert(wf_json_list(ps));
            assert(o.subrange(3, 4).drop_first() =~= e4);
            assert(wf_json(id_json(id)));
            assert(wf_json_members(o.subrange(3, 4)));
            assert(o.subrange(2, 4).drop_first() =~= o.subrange(3, 4));
            assert(wf_json_members(o.subrange(2, 4)));
            assert(o.subrange(1, 4).drop_first() =~= o.subrange(2, 4));
            assert(wf_json_members(o.subrange(1, 4)));
            assert(o.drop_first() =~= o.subrange(1, 4));
            assert(wf_json_members(o));
        },
        MsgV::Authorize(id, w, p) => {
            let ps = seq![JsonV::Str(w), JsonV::Str(p)];
            assert(seq![JsonV::Str(p)].drop_first() =~= el);
            assert(wf_json_list(seq![JsonV::Str(p)]));
            assert(ps.drop_first() =~= seq![JsonV::Str(p)]);
            assert(wf_json_list(ps));
            assert(o.subrange(3, 4).drop_first() =~= e4);
            assert(wf_json(id_json(id)));
            assert(wf_json_members(o.subrange(3, 4)));
            assert(o.subrange(2, 4).drop_first() =~= o.subrange(3, 4));
            assert(wf_json_members(o.subrange(2, 4)));
            assert(o.subrange(1, 4).drop_first() =~= o.subrange(2, 4));
            assert(wf_json_members(o.subrange(1, 4)));
            assert(o.drop_first() =~= o.subrange(1, 4));
            assert(wf_json_members(o));
        },
        MsgV::SetTarget(t) => {
            let ps = seq![JsonV::UInt(t)];
            assert(ps.drop_first() =~= el);
            assert(wf_json_list(ps));
            assert(o.subrange(2, 3).drop_first() =~= e4);
            assert(wf_json_members(o.subrange(2, 3)));
            assert(o.subrange(1, 3).drop_first() =~= o.subrange(2, 3));
            assert(wf_json_members(o.subrange(1, 3)));
            assert(o.drop_first() =~= o.subrange(1, 3));
            assert(wf_json_members(o));
        },
        MsgV::Notify(j, e, a, c) => {
            let ps = seq![JsonV::Str(j), JsonV::Str(e), opt_str_json(a), JsonV::Bool(c)];
            assert(seq![JsonV::Bool(c)].drop_first() =~= el);
            assert(wf_json_list(seq![JsonV::Bool(c)]));
            assert(seq![opt_str_json(a), JsonV::Bool(c)].drop_first() =~= seq![JsonV::Bool(c)]);
            assert(wf_json(opt_str_json(a)));
            assert(wf_json_list(seq![opt_str_json(a), JsonV::Bool(c)]));
            assert(seq![JsonV::Str(e), opt_str_json(a), JsonV::Bool(c)].drop_first() =~= seq![
                opt_str_json(a),
                JsonV::Bool(c),
            ]);
            assert(wf_json_list(seq![JsonV::Str(e), opt_str_json(a), JsonV::Bool(c)]));
            assert(ps.drop_first() =~= seq![JsonV::Str(e), opt_str_json(a), JsonV::Bool(c)]);
            assert(wf_json_list(ps));
            assert(o.subrange(2, 3).drop_first() =~= e4);
            assert(wf_json_members(o.subrange(2, 3)));
            assert(o.subrange(1, 3).drop_first() =~= o.subrange(2, 3));
            assert(wf_json_members(o.subrange(1, 3)));
            assert(o.drop_first() =~= o.subrange(1, 3));
            assert(wf_json_members(o));
        },
        MsgV::Submit(id, w, j, n, cm, pr) => {
            let ps = seq![JsonV::Str(w), JsonV::Str(j), JsonV::Str(n), JsonV::Str(cm), JsonV::Str(
                pr,
            )];
            assert(ps.subrange(4, 5).drop_first() =~= el);
            assert(wf_json_list(ps.subrange(4, 5)));
            assert(ps.subrange(3, 5).drop_first() =~= ps.subrange(4, 5));
            assert(wf_json_list(ps.subrange(3, 5)));
            assert(ps.subrange(2, 5).drop_first() =~= ps.subrange(3, 5));
            assert(wf_json_list(ps.subrange(2, 5)));
            assert(ps.subrange(1, 5).drop_first() =~= ps.subrange(2, 5));
            assert(wf_json_list(ps.subrange(1, 5)));
            assert(ps.drop_first() =~= ps.subrange(1, 5));
            assert(wf_json_list(ps));
            assert(o.subrange(3, 4).drop_first() =~= e4);
            assert(wf_json(id_json(id)));
            assert(wf_json_members(o.subrange(3, 4)));
            assert(o.subrange(2, 4).drop_first() =~= o.subrange(3, 4));
            assert(wf_json_members(o.subrange(2, 4)));
            assert(o.subrange(1, 4).drop_first() =~= o.subrange(2, 4));
            assert(wf_json_members(o.subrange(1, 4)));
            assert(o.drop_first() =~= o.subrange(1, 4));
            assert(wf_json_members(o));
        },
        MsgV::Response(id, r, e) => {
            match e {
                Some(err) => {
                    let eo = seq![
                        (key_code(), int_json(err.code)),
                        (key_message(), JsonV::Str(err.message)),
                    ];
                    assert(eo.subrange(1, 2).drop_first() =~= e4);
                    assert(wf_json_members(eo.subrange(1, 2)));
                    assert(eo.drop_first() =~= eo.subrange(1, 2));
                    assert(wf_json(int_json(err.code)));
                    assert(wf_json_members(eo));
                    assert(wf_json(JsonV::Obj(eo)));
                },
                None => {
                    match r {
                        Some(p) => {
                            match p {
                                ParamsV::Bool(_) => {},
                                ParamsV::Array(a) => {
                                    lemma_elems_json_wf(a);
                                },
                                ParamsV::Null => {},
                            }
                        },
                        None => {},
                    }
                },
            }
            assert(wf_json(o[1].1));
            assert(o.subrange(2, 3).drop_first() =~= e4);
            assert(wf_json(id_json(id)));
            assert(wf_json_members(o.subrange(2, 3)));
            assert(o.subrange(1, 3).drop_first() =~= o.subrange(2, 3));
            assert(wf_json_members(o.subrange(1, 3)));
            assert(o.drop_first() =~= o.subrange(1, 3));
            assert(wf_json_members(o));
        },
    }
}

/// The codec reads back exactly the message it wrote.
#[verifier::rlimit(100)]
pub proof fn lemma_msg_round_trip(m: MsgV)
    requires
        wf_msg(m),
    ensures
        msg_of_json(msg_json(m)) == Some(m),
{
    let v = msg_json(m);
    let o = v->Obj_0;
    match m {
        MsgV::Subscribe(id, ua, pv, sess) => {
            lemma_keys_unique_of(o);
            lemma_has_key_iff(o, key_method());
            assert(o[1].0 == key_method());
            lemma_keys_among_req_of(o);
            lemma_get_key_at(o, key_jsonrpc(), 0);
            lemma_get_key_at(o, key_method(), 1);
            lemma_get_key_at(o, key_params(), 2);
            lemma_get_key_at(o, key_id(), 3);
            let ps = seq![JsonV::Str(ua), JsonV::Str(pv), opt_str_json(sess)];
            assert(dispatch_req(m_subscribe(), ps, id) == Some(m));
        },
        MsgV::Authorize(id, w, p) => {
            lemma_keys_unique_of(o);
            lemma_has_key_iff(o, key_method());
            assert(o[1].0 == key_method());
            lemma_keys_among_req_of(o);
            lemma_get_key_at(o, key_jsonrpc(), 0);
            lemma_get_key_at(o, key_method(), 1);
            lemma_get_key_at(o, key_params(), 2);
            lemma_get_key_at(o, key_id(), 3);
            let ps = seq![JsonV::Str(w), JsonV::Str(p)];
            assert(dispatch_req(m_authorize(), ps, id) == Some(m));
        },
        MsgV::SetTarget(t) => {
            lemma_keys_unique_of(o);
            lemma_has_key_iff(o, key_method());
            assert(o[1].0 == key_method());
            lemma_keys_among_req_of(o);
            lemma_get_key_at(o, key_jsonrpc(), 0);
            lemma_get_key_at(o, key_method(), 1);
            lemma_get_key_at(o, key_params(), 2);
            lemma_get_key_absent(o, key_id());
            let ps = seq![JsonV::UInt(t)];
            assert(dispatch_req(m_set_target(), ps, IdV::Num(0)) == Some(m));
        },
        MsgV::Notify(j, e, a, c) => {
            lemma_keys_unique_of(o);
            lemma_has_key_iff(o, key_method());
            assert(o[1].0 == key_method());
            lemma_keys_among_req_of(o);
            lemma_get_key_at(o, key_jsonrpc(), 0);
            lemma_get_key_at(o, key_method(), 1);
            lemma_get_key_at(o, key_params(), 2);
            lemma_get_key_absent(o, key_id());
            let ps = seq![JsonV::Str(j), JsonV::Str(e), opt_str_json(a), JsonV::Bool(c)];
            assert(dispatch_req(m_notify(), ps, IdV::Num(0)) == Some(m));
        },
        MsgV::Submit(id, w, j, n, cm, pr) => {
            lemma_keys_unique_of(o);
            lemma_has_key_iff(o, key_method());
            assert(o[1].0 == key_method());
            lemma_keys_among_req_of(o);
            lemma_get_key_at(o, key_jsonrpc(), 0);
            lemma_get_key_at(o, key_method(), 1);
            lemma_get_key_at(o, key_params(), 2);
            lemma_get_key_at(o, key_id(), 3);
            let ps = seq![JsonV::Str(w), JsonV::Str(j), JsonV::Str(n), JsonV::Str(cm), JsonV::Str(
                pr,
            )];
            assert(dispatch_req(m_submit(), ps, id) == Some(m));
        },
        MsgV::Response(id, r, e) => {
            lemma_keys_unique_of(o);
            lemma_has_key_iff(o, key_method());
            assert(!has_key(o, key_method()));
            lemma_keys_unique_ci_of(o);
            lemma_keys_among_resp_of(o);
            lemma_get_key_ci_at(o, key_jsonrpc(), 0);
            lemma_get_key_ci_at(o, key_id(), 2);
            match e {
                Some(err) => {
                    lemma_get_key_ci_at(o, key_error(), 1);
                    lemma_get_key_ci_absent(o, key_result());
                    let eo = seq![
                        (key_code(), int_json(err.code)),
                        (key_message(), JsonV::Str(err.message)),
                    ];
                    lemma_keys_unique_of(eo);
                    lemma_keys_among_err_of(eo);
                    lemma_get_key_at(eo, key_code(), 0);
                    lemma_get_key_at(eo, key_message(), 1);
                    lemma_get_key_absent(eo, key_data());
                    assert(code_of_json(int_json(err.code)) == Some(err.code));
                    assert(err_of_json(o[1].1) == Some(err));
                },
                None => {
                    lemma_get_key_ci_at(o, key_result(), 1);
                    lemma_get_key_ci_absent(o, key_error());
                    match r {
                        Some(p) => {
                            match p {
                                ParamsV::Bool(_) => {},
                                ParamsV::Array(a) => {
                                    lemma_elems_round(a);
                                },
                                ParamsV::Null => {
                                    assert(false);
                                },
                            }
                        },
                        None => {
                            assert(false);
                        },
                    }
                },
            }
        },
    }
}

/// Writing a well-formed message and reading the frame back finds exactly
/// that message.
pub proof fn lemma_codec_round_trip(m: MsgV)
    requires
        wf_msg(m),
    ensures
        decode_frame_spec(encode_frame_spec(m)) == Some(m),
{
    lemma_msg_json_wf(m);
    lemma_json_round_trip(msg_json(m));
    lemma_msg_round_trip(m);
}

// ---------------------------------------------------------------------------
// Executable lookups over a parsed object.
// ---------------------------------------------------------------------------
/// A key is found exactly when the lookup returns a value.
pub proof fn lemma_has_get(o: Seq<(Seq<u8>, JsonV)>, k: Seq<u8>)
    ensures
        has_key(o, k) == (get_key(o, k) is Some),
    decreases o.len(),
{
    if o.len() > 0 {
        lemma_has_get(o.drop_last(), k);
    }
}

fn lc_x(c: u8) -> (r: u8)
    ensures
        r == lc(c),
{
    if 0x41 <= c && c <= 0x5a {
        c + 0x20
    } else {
        c
    }
}

fn ci_eq_x(a: &Vec<u8>, b: &Vec<u8>) -> (r: bool)
    ensures
        r == ci_eq(a@, b@),
{
    if a.len() != b.len() {
        return false;
    }
    let mut i: usize = 0;
    while i < a.len()
        invariant
            i <= a@.len(),
            a@.len() == b@.len(),
            forall|j: int| 0 <= j < i ==> lc(a@[j]) == lc(b@[j]),
        decreases a@.len() - i,
    {
        if lc_x(a[i]) != lc_x(b[i]) {
            return false;
        }
        i = i + 1;
    }
    true
}

/// The index of the last pair whose key equals `k`.
#[verifier::loop_isolation(false)]
pub fn get_key_idx(o: &Vec<(Vec<u8>, Json)>, k: &Vec<u8>) -> (r: Option<usize>)
    ensures
        match r {
            Some(i) => i < o@.len() && o@[i as int].0@ == k@ && get_key(
                obj_view(*o, 0),
                k@,
            ) == Some(json_view(o@[i as int].1)),
            None => get_key(obj_view(*o, 0), k@) is None,
        },
{
    let ghost ov = obj_view(*o, 0);
    proof {
        lemma_obj_view_index(*o, 0);
    }
    let mut j: usize = o.len();
    proof {
        assert(ov.subrange(0, ov.len() as int) =~= ov);
    }
    while j > 0
        invariant
            j <= o@.len(),
            get_key(ov, k@) == get_key(ov.subrange(0, j as int), k@),
        decreases j,
    {
        proof {
            assert(ov.subrange(0, j as int).last() == ov[j - 1]);
            assert(ov.subrange(0, j as int).drop_last() =~= ov.subrange(0, j as int - 1));
        }
        if crate::util::bytes_eq(&o[j - 1].0, k) {
            return Some(j - 1);
        }
        j = j - 1;
    }
    proof {
        assert(ov.subrange(0, 0) =~= Seq::<(Seq<u8>, JsonV)>::empty());
    }
    None
}

/// The index of the last pair whose key equals `k` without regard to case.
#[verifier::loop_isolation(false)]
fn get_key_ci_idx(o: &Vec<(Vec<u8>, Json)>, k: &Vec<u8>) -> (r: Option<usize>)
    ensures
        match r {
            Some(i) => i < o@.len() && ci_eq(o@[i as int].0@, k@) && get_key_ci(
                obj_view(*o, 0),
                k@,
            ) == Some(json_view(o@[i as int].1)),
            None => get_key_ci(obj_view(*o, 0), k@) is None,
        },
{
    let ghost ov = obj_view(*o, 0);
    proof {
        lemma_obj_view_index(*o, 0);
    }
    let mut j: usize = o.len();
    proof {
        assert(ov.subrange(0, ov.len() as int) =~= ov);
    }
    while j > 0
        invariant
            j <= o@.len(),
            get_key_ci(ov, k@) == get_key_ci(ov.subrange(0, j as int), k@),
        decreases j,
    {
        proof {
            assert(ov.subrange(0, j as int).last() == ov[j - 1]);
            assert(ov.subrange(0, j as int).drop_last() =~= ov.subrange(0, j as int - 1));
        }
        if ci_eq_x(&o[j - 1].0, k) {
            return Some(j - 1);
        }
        j = j - 1;
    }
    proof {
        assert(ov.subrange(0, 0) =~= Seq::<(Seq<u8>, JsonV)>::empty());
    }
    None
}

// ---------------------------------------------------------------------------
// Key and literal builders.
// ---------------------------------------------------------------------------
/// The bytes of the ASCII string the spec names.
fn k_jsonrpc() -> (r: Vec<u8>)
    ensures
        r@ == key_jsonrpc(),
{
    let mut v: Vec<u8> = Vec::new();
    v.push(0x6a);
    v.push(0x73);
    v.push(0x6f);
    v.push(0x6e);
    v.push(0x72);
    v.push(0x70);
    v.push(0x63);
    proof {
        assert(v@ =~= key_jsonrpc());
    }
    v
}

fn k_method() -> (r: Vec<u8>)
    ensures
        r@ == key_method(),
{
    let mut v: Vec<u8> = Vec::new();
    v.push(0x6d);
    v.push(0x65);
    v.push(0x74);
    v.push(0x68);
    v.push(0x6f);
    v.push(0x64);
    proof {
        assert(v@ =~= key_method());
    }
    v
}

fn k_params() -> (r: Vec<u8>)
    ensures
        r@ == key_params(),
{
    let mut v: Vec<u8> = Vec::new();
    v.push(0x70);
    v.push(0x61);
    v.push(0x72);
    v.push(0x61);
    v.push(0x6d);
    v.push(0x73);
    proof {
        assert(v@ =~= key_params());
    }
    v
}

fn k_id() -> (r: Vec<u8>)
    ensures
        r@ == key_id(),
{
    let mut v: Vec<u8> = Vec::new();
    v.push(0x69);
    v.push(0x64);
    proof {
        assert(v@ =~= key_id());
    }
    v
}

fn k_result() -> (r: Vec<u8>)
    ensures
        r@ == key_result(),
{
    let mut v: Vec<u8> = Vec::new();
    v.push(0x72);
    v.push(0x65);
    v.push(0x73);
    v.push(0x75);
    v.push(0x6c);
    v.push(0x74);
    proof {
        assert(v@ =~= key_result());
    }
    v
}

fn k_error() -> (r: Vec<u8>)
    ensures
        r@ == key_error(),
{
    let mut v: Vec<u8> = Vec::new();
    v.push(0x65);
    v.push(0x72);
    v.push(0x72);
    v.push(0x6f);
    v.push(0x72);
    proof {
        assert(v@ =~= key_error());
    }
    v
}

fn k_code() -> (r: Vec<u8>)
    ensures
        r@ == key_code(),
{
    let mut v: Vec<u8> = Vec::new();
    v.push(0x63);
    v.push(0x6f);
    v.push(0x64);
    v.push(0x65);
    proof {
        assert(v@ =~= key_code());
    }
    v
}

fn k_message() -> (r: Vec<u8>)
    ensures
        r@ == key_message(),
{
    let mut v: Vec<u8> = Vec::new();
    v.push(0x6d);
    v.push(0x65);
    v.push(0x73);
    v.push(0x73);
    v.push(0x61);
    v.push(0x67);
    v.push(0x65);
    proof {
        assert(v@ =~= key_message());
    }
    v
}

fn k_data() -> (r: Vec<u8>)
    ensures
        r@ == key_data(),
{
    let mut v: Vec<u8> = Vec::new();
    v.push(0x64);
    v.push(0x61);
    v.push(0x74);
    v.push(0x61);
    proof {
        assert(v@ =~= key_data());
    }
    v
}

fn l_2_0() -> (r: Vec<u8>)
    ensures
        r@ == lit_2_0(),
{
    let mut v: Vec<u8> = Vec::new();
    v.push(0x32);
    v.push(0x2e);
    v.push(0x30);
    proof {
        assert(v@ =~= lit_2_0());
    }
    v
}

fn l_subscribe() -> (r: Vec<u8>)
    ensures
        r@ == m_subscribe(),
{
    let mut v: Vec<u8> = Vec::new();
    v.push(0x6d);
    v.push(0x69);
    v.push(0x6e);
    v.push(0x69);
    v.push(0x6e);
    v.push(0x67);
    v.push(0x2e);
    v.push(0x73);
    v.push(0x75);
    v.push(0x62);
    v.push(0x73);
    v.push(0x63);
    v.push(0x72);
    v.push(0x69);
    v.push(0x62);
    v.push(0x65);
    proof {
        assert(v@ =~= m_subscribe());
    }
    v
}

fn l_authorize() -> (r: Vec<u8>)
    ensures
        r@ == m_authorize(),
{
    let mut v: Vec<u8> = Vec::new();
    v.push(0x6d);
    v.push(0x69);
    v.push(0x6e);
    v.push(0x69);
    v.push(0x6e);
    v.push(0x67);
    v.push(0x2e);
    v.push(0x61);
    v.push(0x75);
    v.push(0x74);
    v.push(0x68);
    v.push(0x6f);
    v.push(0x72);
    v.push(0x69);
    v.push(0x7a);
    v.push(0x65);
    proof {
        assert(v@ =~= m_authorize());
    }
    v
}

fn l_set_target() -> (r: Vec<u8>)
    ensures
        r@ == m_set_target(),
{
    let mut v: Vec<u8> = Vec::new();
    v.push(0x6d);
    v.push(0x69);
    v.push(0x6e);
    v.push(0x69);
    v.push(0x6e);
    v.push(0x67);
    v.push(0x2e);
    v.push(0x73);
    v.push(0x65);
    v.push(0x74);
    v.push(0x5f);
    v.push(0x74);
    v.push(0x61);
    v.push(0x72);
    v.push(0x67);
    v.push(0x65);
    v.push(0x74);
    proof {
        assert(v@ =~= m_set_target());
    }
    v
}

fn l_notify() -> (r: Vec<u8>)
    ensures
        r@ == m_notify(),
{
    let mut v: Vec<u8> = Vec::new();
    v.push(0x6d);
    v.push(0x69);
    v.push(0x6e);
    v.push(0x69);
    v.push(0x6e);
    v.push(0x67);
    v.push(0x2e);
    v.push(0x6e);
    v.push(0x6f);
    v.push(0x74);
    v.push(0x69);
    v.push(0x66);
    v.push(0x79);
    proof {
        assert(v@ =~= m_notify());
    }
    v
}

fn l_submit() -> (r: Vec<u8>)
    ensures
        r@ == m_submit(),
{
    let mut v: Vec<u8> = Vec::new();
    v.push(0x6d);
    v.push(0x69);
    v.push(0x6e);
    v.push(0x69);
    v.push(0x6e);
    v.push(0x67);
    v.push(0x2e);
    v.push(0x73);
    v.push(0x75);
    v.push(0x62);
    v.push(0x6d);
    v.push(0x69);
    v.push(0x74);
    proof {
        assert(v@ =~= m_submit());
    }
    v
}

// ---------------------------------------------------------------------------
// Reading a message out of a parsed JSON value.
// ---------------------------------------------------------------------------
pub proof fn lemma_keys_unique_pairwise(o: Seq<(Seq<u8>, JsonV)>)
    requires
        keys_unique(o),
    ensures
        forall|i: int, j: int| 0 <= i < j < o.len() ==> (#[trigger] o[i].0) != (#[trigger] o[j].0),
    decreases o.len(),
{
    if o.len() > 0 {
        lemma_keys_unique_pairwise(o.drop_last());
        lemma_has_key_iff(o.drop_last(), o.last().0);
        assert(forall|i: int|
            0 <= i < o.drop_last().len() ==> (#[trigger] o.drop_last()[i].0) == o[i].0);
        assert forall|i: int, j: int| 0 <= i < j < o.len() implies (#[trigger] o[i].0) != (
        #[trigger] o[j].0) by {
            if j < o.len() - 1 {
                assert(o.drop_last()[i].0 == o[i].0 && o.drop_last()[j].0 == o[j].0);
            } else {
                assert(o.drop_last()[i].0 == o[i].0);
            }
        }
    }
}

pub proof fn lemma_keys_unique_ci_pairwise(o: Seq<(Seq<u8>, JsonV)>)
    requires
        keys_unique_ci(o),
    ensures
        forall|i: int, j: int|
            0 <= i < j < o.len() ==> !ci_eq(#[trigger] o[i].0, #[trigger] o[j].0),
    decreases o.len(),
{
    if o.len() > 0 {
        lemma_keys_unique_ci_pairwise(o.drop_last());
        lemma_has_key_ci_iff(o.drop_last(), o.last().0);
        assert(forall|i: int|
            0 <= i < o.drop_last().len() ==> (#[trigger] o.drop_last()[i].0) == o[i].0);
        assert forall|i: int, j: int| 0 <= i < j < o.len() implies !ci_eq(
            #[trigger] o[i].0,
            #[trigger] o[j].0,
        ) by {
            if j < o.len() - 1 {
                assert(o.drop_last()[i].0 == o[i].0 && o.drop_last()[j].0 == o[j].0);
            } else {
                assert(o.drop_last()[i].0 == o[i].0);
                if ci_eq(o[i].0, o[j].0) {
                    lemma_ci_eq_refl_sym(o[i].0, o[j].0);
                }
            }
        }
    }
}

pub proof fn lemma_ci_eq_refl_sym(a: Seq<u8>, b: Seq<u8>)
    requires
        ci_eq(a, b),
    ensures
        ci_eq(b, a),
{
}

pub proof fn lemma_keys_among_req_all(o: Seq<(Seq<u8>, JsonV)>)
    requires
        keys_among_req(o),
    ensures
        forall|i: int|
            0 <= i < o.len() ==> ((#[trigger] o[i].0) == key_jsonrpc() || o[i].0 == key_method()
                || o[i].0 == key_params() || o[i].0 == key_id()),
    decreases o.len(),
{
    if o.len() > 0 {
        lemma_keys_among_req_all(o.drop_last());
        assert forall|i: int| 0 <= i < o.len() implies ((#[trigger] o[i].0) == key_jsonrpc()
            || o[i].0 == key_method() || o[i].0 == key_params() || o[i].0 == key_id()) by {
            if i < o.len() - 1 {
                assert(o.drop_last()[i].0 == o[i].0);
            } else {
                assert(o[i] == o.last());
            }
        }
    }
}

pub proof fn lemma_keys_among_resp_all(o: Seq<(Seq<u8>, JsonV)>)
    requires
        keys_among_resp(o),
    ensures
        forall|i: int|
            0 <= i < o.len() ==> (ci_eq(#[trigger] o[i].0, key_jsonrpc()) || ci_eq(
                o[i].0,
                key_result(),
            ) || ci_eq(o[i].0, key_error()) || ci_eq(o[i].0, key_id())),
    decreases o.len(),
{
    if o.len() > 0 {
        lemma_keys_among_resp_all(o.drop_last());
        assert forall|i: int| 0 <= i < o.len() implies (ci_eq(#[trigger] o[i].0, key_jsonrpc())
            || ci_eq(o[i].0, key_result()) || ci_eq(o[i].0, key_error()) || ci_eq(
            o[i].0,
            key_id(),
        )) by {
            if i < o.len() - 1 {
                assert(o.drop_last()[i].0 == o[i].0);
            } else {
                assert(o[i] == o.last());
            }
        }
    }
}

pub proof fn lemma_keys_among_err_all(o: Seq<(Seq<u8>, JsonV)>)
    requires
        keys_among_err(o),
    ensures
        forall|i: int|
            0 <= i < o.len() ==> ((#[trigger] o[i].0) == key_code() || o[i].0 == key_message()
                || o[i].0 == key_data()),
    decreases o.len(),
{
    if o.len() > 0 {
        lemma_keys_among_err_all(o.drop_last());
        assert forall|i: int| 0 <= i < o.len() implies ((#[trigger] o[i].0) == key_code()
            || o[i].0 == key_message() || o[i].0 == key_data()) by {
            if i < o.len() - 1 {
                assert(o.drop_last()[i].0 == o[i].0);
            } else {
                assert(o[i] == o.last());
            }
        }
    }
}

/// Whether some key among the first `upto` pairs equals `k`.
#[verifier::loop_isolation(false)]
fn key_in_prefix(o: &Vec<(Vec<u8>, Json)>, upto: usize, k: &Vec<u8>) -> (r: bool)
    requires
        upto <= o@.len(),
    ensures
        r == exists|a: int|
            0 <= a < upto && (#[trigger] obj_view(*o, 0)[a]).0 == k@,
{
    let ghost ov = obj_view(*o, 0);
    let mut a: usize = 0;
    while a < upto
        invariant
            a <= upto,
            forall|b: int| 0 <= b < a ==> (#[trigger] ov[b]).0 != k@,
        decreases upto - a,
    {
        if crate::util::bytes_eq(&o[a].0, k) {
            proof {
                assert(ov[a as int].0 == k@);
            }
            return true;
        }
        a = a + 1;
    }
    false
}

/// Whether some key among the first `upto` pairs equals `k` without regard
/// to case.
#[verifier::loop_isolation(false)]
fn key_in_prefix_ci(o: &Vec<(Vec<u8>, Json)>, upto: usize, k: &Vec<u8>) -> (r: bool)
    requires
        upto <= o@.len(),
    ensures
        r == exists|a: int|
            0 <= a < upto && ci_eq((#[trigger] obj_view(*o, 0)[a]).0, k@),
{
    let ghost ov = obj_view(*o, 0);
    let mut a: usize = 0;
    while a < upto
        invariant
            a <= upto,
            forall|b: int| 0 <= b < a ==> !ci_eq((#[trigger] ov[b]).0, k@),
        decreases upto - a,
    {
        if ci_eq_x(&o[a].0, k) {
            proof {
                assert(ci_eq(ov[a as int].0, k@));
            }
            return true;
        }
        a = a + 1;
    }
    false
}

/// Whether all keys of the object are pairwise distinct.
#[verifier::loop_isolation(false)]
#[verifier::rlimit(100)]
fn keys_unique_x(o: &Vec<(Vec<u8>, Json)>) -> (r: bool)
    ensures
        r == keys_unique(obj_view(*o, 0)),
{
    let ghost ov = obj_view(*o, 0);
    let mut i: usize = 0;
    while i < o.len()
        invariant
            i <= o@.len(),
            forall|a: int, b: int| 0 <= a < b < o@.len() && b < i ==> (#[trigger] ov[a].0) != (
            #[trigger] ov[b].0),
        decreases o@.len() - i,
    {
        if key_in_prefix(o, i, &o[i].0) {
            proof {
                let a = choose|a: int| 0 <= a < i && (#[trigger] ov[a]).0 == o@[i as int].0@;
                assert(ov[i as int].0 == o@[i as int].0@);
                assert(ov[a].0 == ov[i as int].0);
                if keys_unique(ov) {
                    lemma_keys_unique_pairwise(ov);
                }
            }
            return false;
        }
        proof {
            assert(ov[i as int].0 == o@[i as int].0@);
            assert forall|a: int, b: int|
                0 <= a < b < o@.len() && b < i + 1 implies (#[trigger] ov[a].0) != (
            #[trigger] ov[b].0) by {
                if b == i {
                    assert(!(0 <= a < i && ov[a].0 == o@[i as int].0@));
                }
            }
        }
        i = i + 1;
    }
    proof {
        lemma_keys_unique_of(ov);
    }
    true
}

/// Whether all keys are pairwise distinct even without regard to case.
#[verifier::loop_isolation(false)]
#[verifier::rlimit(100)]
fn keys_unique_ci_x(o: &Vec<(Vec<u8>, Json)>) -> (r: bool)
    ensures
        r == keys_unique_ci(obj_view(*o, 0)),
{
    let ghost ov = obj_view(*o, 0);
    let mut i: usize = 0;
    while i < o.len()
        invariant
            i <= o@.len(),
            forall|a: int, b: int|
                0 <= a < b < o@.len() && b < i ==> !ci_eq(#[trigger] ov[a].0, #[trigger] ov[b].0),
        decreases o@.len() - i,
    {
        if key_in_prefix_ci(o, i, &o[i].0) {
            proof {
                let a = choose|a: int| 0 <= a < i && ci_eq((#[trigger] ov[a]).0, o@[i as int].0@);
                assert(ov[i as int].0 == o@[i as int].0@);
                assert(ci_eq(ov[a].0, ov[i as int].0));
                if keys_unique_ci(ov) {
                    lemma_keys_unique_ci_pairwise(ov);
                }
            }
            return false;
        }
        proof {
            assert(ov[i as int].0 == o@[i as int].0@);
            assert forall|a: int, b: int|
                0 <= a < b < o@.len() && b < i + 1 implies !ci_eq(
                #[trigger] ov[a].0,
                #[trigger] ov[b].0,
            ) by {
                if b == i {
                    assert(!(0 <= a < i && ci_eq(ov[a].0, o@[i as int].0@)));
                }
            }
        }
        i = i + 1;
    }
    proof {
        lemma_keys_unique_ci_of(ov);
    }
    true
}

/// Whether every key is one a request may carry.
#[verifier::loop_isolation(false)]
fn keys_among_req_x(o: &Vec<(Vec<u8>, Json)>) -> (r: bool)
    ensures
        r == keys_among_req(obj_view(*o, 0)),
{
    let ghost ov = obj_view(*o, 0);
    proof {
        lemma_obj_view_index(*o, 0);
    }
    let kj = k_jsonrpc();
    let km = k_method();
    let kp = k_params();
    let ki = k_id();
    let mut i: usize = 0;
    while i < o.len()
        invariant
            i <= o@.len(),
            forall|a: int|
                0 <= a < i ==> ((#[trigger] ov[a].0) == key_jsonrpc() || ov[a].0 == key_method()
                    || ov[a].0 == key_params() || ov[a].0 == key_id()),
        decreases o@.len() - i,
    {
        if !(crate::util::bytes_eq(&o[i].0, &kj) || crate::util::bytes_eq(&o[i].0, &km)
            || crate::util::bytes_eq(&o[i].0, &kp) || crate::util::bytes_eq(&o[i].0, &ki)) {
            proof {
                assert(ov[i as int] == (o@[i as int].0@, json_view(o@[i as int].1)));
                assert(ov[i as int].0 == o@[i as int].0@);
                if keys_among_req(ov) {
                    lemma_keys_among_req_all(ov);
                }
            }
            return false;
        }
        i = i + 1;
    }
    proof {
        lemma_keys_among_req_of(ov);
    }
    true
}

/// Whether every key is one a response may carry.
#[verifier::loop_isolation(false)]
fn keys_among_resp_x(o: &Vec<(Vec<u8>, Json)>) -> (r: bool)
    ensures
        r == keys_among_resp(obj_view(*o, 0)),
{
    let ghost ov = obj_view(*o, 0);
    proof {
        lemma_obj_view_index(*o, 0);
    }
    let kj = k_jsonrpc();
    let kr = k_result();
    let ke = k_error();
    let ki = k_id();
    let mut i: usize = 0;
    while i < o.len()
        invariant
            i <= o@.len(),
            forall|a: int|
                0 <= a < i ==> (ci_eq(#[trigger] ov[a].0, key_jsonrpc()) || ci_eq(
                    ov[a].0,
                    key_result(),
                ) || ci_eq(ov[a].0, key_error()) || ci_eq(ov[a].0, key_id())),
        decreases o@.len() - i,
    {
        if !(ci_eq_x(&o[i].0, &kj) || ci_eq_x(&o[i].0, &kr) || ci_eq_x(&o[i].0, &ke) || ci_eq_x(
            &o[i].0,
            &ki,
        )) {
            proof {
                assert(ov[i as int] == (o@[i as int].0@, json_view(o@[i as int].1)));
                assert(ov[i as int].0 == o@[i as int].0@);
                if keys_among_resp(ov) {
                    lemma_keys_among_resp_all(ov);
                }
            }
            return false;
        }
        i = i + 1;
    }
    proof {
        lemma_keys_among_resp_of(ov);
    }
    true
}

/// Whether every key is one an error object may carry.
#[verifier::loop_isolation(false)]
fn keys_among_err_x(o: &Vec<(Vec<u8>, Json)>) -> (r: bool)
    ensures
        r == keys_among_err(obj_view(*o, 0)),
{
    let ghost ov = obj_view(*o, 0);
    proof {
        lemma_obj_view_index(*o, 0);
    }
    let kc = k_code();
    let km = k_message();
    let kd = k_data();
    let mut i: usize = 0;
    while i < o.len()
        invariant
            i <= o@.len(),
            forall|a: int|
                0 <= a < i ==> ((#[trigger] ov[a].0) == key_code() || ov[a].0 == key_message()
                    || ov[a].0 == key_data()),
        decreases o@.len() - i,
    {
        if !(crate::util::bytes_eq(&o[i].0, &kc) || crate::util::bytes_eq(&o[i].0, &km)
            || crate::util::bytes_eq(&o[i].0, &kd)) {
            proof {
                assert(ov[i as int] == (o@[i as int].0@, json_view(o@[i as int].1)));
                assert(ov[i as int].0 == o@[i as int].0@);
                if keys_among_err(ov) {
                    lemma_keys_among_err_all(ov);
                }
            }
            return false;
        }
        i = i + 1;
    }
    proof {
        lemma_keys_among_err_of(ov);
    }
    true
}

/// The elements kept from a result array.
#[verifier::loop_isolation(false)]
#[verifier::rlimit(100)]
fn elems_x(a: &Vec<Json>) -> (r: Vec<ResponseElem>)
    ensures
        r@.map_values(|e: ResponseElem| e@) == elems_of(arr_view(*a, 0)),
{
    let ghost av = arr_view(*a, 0);
    proof {
        lemma_arr_view_index(*a, 0);
    }
    let mut out: Vec<ResponseElem> = Vec::new();
    let mut i: usize = 0;
    proof {
        assert(out@.map_values(|e: ResponseElem| e@) =~= Seq::<ElemV>::empty());
        assert(av.subrange(0, av.len() as int) =~= av);
        assert(Seq::<ElemV>::empty() + elems_of(av) =~= elems_of(av));
    }
    while i < a.len()
        invariant
            i <= a@.len(),
            elems_of(av) == out@.map_values(|e: ResponseElem| e@) + elems_of(
                av.subrange(i as int, av.len() as int),
            ),
        decreases a@.len() - i,
    {
        let ghost rest = av.subrange(i as int, av.len() as int);
        let ghost outv = out@.map_values(|e: ResponseElem| e@);
        proof {
            assert(rest.first() == av[i as int]);
            assert(rest.drop_first() =~= av.subrange(i as int + 1, av.len() as int));
        }
        let kept: Option<ResponseElem> = match &a[i] {
            Json::Null => Some(ResponseElem::Null),
            Json::Str(s) => Some(ResponseElem::Str(crate::util::bytes_dup(s))),
            Json::UInt(n) => Some(ResponseElem::Num(*n)),
            Json::NegInt(_) => Some(ResponseElem::Null),
            Json::NumOther => Some(ResponseElem::Null),
            _ => None,
        };
        match kept {
            Some(e) => {
                let ghost ev = e@;
                out.push(e);
                proof {
                    assert(out@.map_values(|e: ResponseElem| e@) =~= outv.push(ev));
                    assert(outv.push(ev) =~= outv + seq![ev]);
                    assert(elems_of(rest) == seq![ev] + elems_of(rest.drop_first()));
                    assert(outv + (seq![ev] + elems_of(rest.drop_first())) =~= (outv + seq![ev])
                        + elems_of(rest.drop_first()));
                }
            },
            None => {
                proof {
                    assert(elems_of(rest) == elems_of(rest.drop_first()));
                }
            },
        }
        i = i + 1;
    }
    proof {
        assert(av.subrange(av.len() as int, av.len() as int) =~= Seq::<JsonV>::empty());
        assert(out@.map_values(|e: ResponseElem| e@) + Seq::<ElemV>::empty() =~= out@.map_values(
            |e: ResponseElem| e@,
        ));
    }
    out
}

/// The id field of a frame, if it is acceptable.
fn id_of_x(o: &Vec<(Vec<u8>, Json)>, idx: Option<usize>) -> (r: Result<Option<MessageId>, ()>)
    requires
        match idx {
            Some(i) => i < o@.len(),
            None => true,
        },
    ensures
        ({
            let sv = match idx {
                Some(i) => Some(json_view(o@[i as int].1)),
                None => None::<JsonV>,
            };
            match r {
                Ok(mid) => crate::message::id_of_json(sv) == Some(
                    match mid {
                        Some(m) => Some(m@),
                        None => None::<IdV>,
                    },
                ),
                Err(_) => crate::message::id_of_json(sv) is None,
            }
        }),
{
    match idx {
        None => Ok(None),
        Some(i) => match &o[i].1 {
            Json::Null => Ok(None),
            Json::UInt(n) => Ok(Some(MessageId::Num(*n))),
            Json::Str(s) => {
                if s.len() <= 36 {
                    Ok(Some(MessageId::Str(crate::util::bytes_dup(s))))
                } else {
                    Err(())
                }
            },
            _ => Err(()),
        },
    }
}

/// The message id a request runs with: the given one, or zero.
fn id_or_zero_x(mid: Option<MessageId>) -> (r: MessageId)
    ensures
        r@ == crate::message::id_or_zero(
            match mid {
                Some(m) => Some(m@),
                None => None::<IdV>,
            },
        ),
{
    match mid {
        Some(m) => m,
        None => MessageId::Num(0),
    }
}

/// Read a request frame: check the envelope, then dispatch on the method.
#[verifier::loop_isolation(false)]
#[verifier::rlimit(100)]
fn decode_req(o: &Vec<(Vec<u8>, Json)>) -> (r: Result<StratumMessage, ()>)
    ensures
        match r {
            Ok(m) => crate::message::req_of_obj(obj_view(*o, 0)) == Some(m@),
            Err(_) => crate::message::req_of_obj(obj_view(*o, 0)) is None,
        },
{
    let ghost ov = obj_view(*o, 0);
    proof {
        lemma_obj_view_index(*o, 0);
    }
    if !keys_among_req_x(o) {
        return Err(());
    }
    let kj = k_jsonrpc();
    match get_key_idx(o, &kj) {
        None => {},
        Some(i) => match &o[i].1 {
            Json::Str(s) => {
                if !crate::util::bytes_eq(s, &l_2_0()) {
                    return Err(());
                }
            },
            _ => {
                return Err(());
            },
        },
    }
    let km = k_method();
    let mname = match get_key_idx(o, &km) {
        Some(i) => match &o[i].1 {
            Json::Str(s) => s,
            _ => {
                return Err(());
            },
        },
        None => {
            return Err(());
        },
    };
    if mname.len() > 32 {
        return Err(());
    }
    let kp = k_params();
    let ps = match get_key_idx(o, &kp) {
        Some(i) => match &o[i].1 {
            Json::Arr(a) => a,
            _ => {
                return Err(());
            },
        },
        None => {
            return Err(());
        },
    };
    let ghost psv = arr_view(*ps, 0);
    proof {
        lemma_arr_view_index(*ps, 0);
    }
    let ki = k_id();
    let ido = match id_of_x(o, get_key_idx(o, &ki)) {
        Ok(x) => x,
        Err(_) => {
            return Err(());
        },
    };
    let id = id_or_zero_x(ido);
    if crate::util::bytes_eq(mname, &l_subscribe()) {
        if ps.len() != 3 {
            return Err(());
        }
        let ua = match &ps[0] {
            Json::Str(s) => crate::util::bytes_dup(s),
            _ => {
                return Err(());
            },
        };
        let pv = match &ps[1] {
            Json::Str(s) => crate::util::bytes_dup(s),
            _ => {
                return Err(());
            },
        };
        let sess: Option<Vec<u8>> = match &ps[2] {
            Json::Str(s) => Some(crate::util::bytes_dup(s)),
            Json::Null => None,
            _ => {
                return Err(());
            },
        };
        Ok(StratumMessage::Subscribe(id, ua, pv, sess))
    } else if crate::util::bytes_eq(mname, &l_authorize()) {
        if ps.len() != 2 {
            return Err(());
        }
        let w = match &ps[0] {
            Json::Str(s) => crate::util::bytes_dup(s),
            _ => {
                return Err(());
            },
        };
        let pw = match &ps[1] {
            Json::Str(s) => crate::util::bytes_dup(s),
            _ => {
                return Err(());
            },
        };
        Ok(StratumMessage::Authorize(id, w, pw))
    } else if crate::util::bytes_eq(mname, &l_set_target()) {
        if ps.len() != 1 {
            return Err(());
        }
        let t = match &ps[0] {
            Json::UInt(n) => *n,
            _ => {
                return Err(());
            },
        };
        Ok(StratumMessage::SetTarget(t))
    } else if crate::util::bytes_eq(mname, &l_notify()) {
        if ps.len() != 4 {
            return Err(());
        }
        let j = match &ps[0] {
            Json::Str(s) => crate::util::bytes_dup(s),
            _ => {
                return Err(());
            },
        };
        let e = match &ps[1] {
            Json::Str(s) => crate::util::bytes_dup(s),
            _ => {
                return Err(());
            },
        };
        let a: Option<Vec<u8>> = match &ps[2] {
            Json::Str(s) => Some(crate::util::bytes_dup(s)),
            Json::Null => None,
            _ => {
                return Err(());
            },
        };
        let c = match &ps[3] {
            Json::Bool(b) => *b,
            _ => {
                return Err(());
            },
        };
        Ok(StratumMessage::Notify(j, e, a, c))
    } else if crate::util::bytes_eq(mname, &l_submit()) {
        if ps.len() != 5 {
            return Err(());
        }
        let w = match &ps[0] {
            Json::Str(s) => crate::util::bytes_dup(s),
            _ => {
                return Err(());
            },
        };
        let j = match &ps[1] {
            Json::Str(s) => crate::util::bytes_dup(s),
            _ => {
                return Err(());
            },
        };
        let n = match &ps[2] {
            Json::Str(s) => crate::util::bytes_dup(s),
            _ => {
                return Err(());
            },
        };
        let cm = match &ps[3] {
            Json::Str(s) => crate::util::bytes_dup(s),
            _ => {
                return Err(());
            },
        };
        let pr = match &ps[4] {
            Json::Str(s) => crate::util::bytes_dup(s),
            _ => {
                return Err(());
            },
        };
        Ok(StratumMessage::Submit(id, w, j, n, cm, pr))
    } else {
        Err(())
    }
}

/// Read an error object: its code, its message, and an optional null data.
#[verifier::loop_isolation(false)]
fn decode_err(eo: &Vec<(Vec<u8>, Json)>) -> (r: Result<RpcError, ()>)
    ensures
        match r {
            Ok(e) => err_of_json(JsonV::Obj(obj_view(*eo, 0))) == Some(e@),
            Err(_) => err_of_json(JsonV::Obj(obj_view(*eo, 0))) is None,
        },
{
    let ghost ev = obj_view(*eo, 0);
    proof {
        lemma_obj_view_index(*eo, 0);
    }
    if !keys_unique_x(eo) {
        return Err(());
    }
    if !keys_among_err_x(eo) {
        return Err(());
    }
    let kc = k_code();
    let code: i64 = match get_key_idx(eo, &kc) {
        Some(i) => match &eo[i].1 {
            Json::UInt(n) => {
                if *n <= i64::MAX as u64 {
                    *n as i64
                } else {
                    return Err(());
                }
            },
            Json::NegInt(m) => {
                if 1 <= *m && *m <= 0x8000000000000000u64 {
                    if *m == 0x8000000000000000u64 {
                        i64::MIN
                    } else {
                        -(*m as i64)
                    }
                } else {
                    return Err(());
                }
            },
            _ => {
                return Err(());
            },
        },
        None => {
            return Err(());
        },
    };
    let km = k_message();
    let msg = match get_key_idx(eo, &km) {
        Some(i) => match &eo[i].1 {
            Json::Str(s) => {
                if s.len() <= 31 {
                    crate::util::bytes_dup(s)
                } else {
                    return Err(());
                }
            },
            _ => {
                return Err(());
            },
        },
        None => {
            return Err(());
        },
    };
    let kd = k_data();
    match get_key_idx(eo, &kd) {
        None => {},
        Some(i) => match &eo[i].1 {
            Json::Null => {},
            _ => {
                return Err(());
            },
        },
    }
    Ok(RpcError { code, message: msg })
}

/// Read a response frame.
#[verifier::loop_isolation(false)]
#[verifier::rlimit(100)]
fn decode_resp(o: &Vec<(Vec<u8>, Json)>) -> (r: Result<StratumMessage, ()>)
    ensures
        match r {
            Ok(m) => crate::message::resp_of_obj(obj_view(*o, 0)) == Some(m@),
            Err(_) => crate::message::resp_of_obj(obj_view(*o, 0)) is None,
        },
{
    let ghost ov = obj_view(*o, 0);
    proof {
        lemma_obj_view_index(*o, 0);
    }
    if !keys_among_resp_x(o) {
        return Err(());
    }
    if !keys_unique_ci_x(o) {
        return Err(());
    }
    let kj = k_jsonrpc();
    match get_key_ci_idx(o, &kj) {
        None => {},
        Some(i) => match &o[i].1 {
            Json::Str(s) => {
                if !crate::util::bytes_eq(s, &l_2_0()) {
                    return Err(());
                }
            },
            _ => {
                return Err(());
            },
        },
    }
    let ki = k_id();
    let idx_id = get_key_ci_idx(o, &ki);
    let idx_id2: Option<usize> = match idx_id {
        Some(i) => Some(i),
        None => None,
    };
    let ido = match (match idx_id2 {
        None => Ok(None),
        Some(i) => match &o[i].1 {
            Json::Null => Ok(None),
            Json::UInt(n) => Ok(Some(MessageId::Num(*n))),
            Json::Str(s) => {
                if s.len() <= 36 {
                    Ok(Some(MessageId::Str(crate::util::bytes_dup(s))))
                } else {
                    Err(())
                }
            },
            _ => Err(()),
        },
    }) {
        Ok(x) => x,
        Err(()) => {
            return Err(());
        },
    };
    let id = id_or_zero_x(ido);
    let kr = k_result();
    let ke = k_error();
    let r_idx = get_key_ci_idx(o, &kr);
    let e_idx = get_key_ci_idx(o, &ke);
    let r_live: Option<usize> = match r_idx {
        Some(i) => match &o[i].1 {
            Json::Null => None,
            _ => Some(i),
        },
        None => None,
    };
    let e_live: Option<usize> = match e_idx {
        Some(i) => match &o[i].1 {
            Json::Null => None,
            _ => Some(i),
        },
        None => None,
    };
    match (r_live, e_live) {
        (Some(ri), None) => {
            let p: ResponseParams = match &o[ri].1 {
                Json::Bool(b) => ResponseParams::Bool(*b),
                Json::Arr(a) => ResponseParams::Array(elems_x(a)),
                _ => {
                    return Err(());
                },
            };
            Ok(StratumMessage::Response(id, Some(p), None))
        },
        (None, Some(ei)) => {
            let e = match &o[ei].1 {
                Json::Obj(eo) => match decode_err(eo) {
                    Ok(e) => e,
                    Err(_) => {
                        return Err(());
                    },
                },
                _ => {
                    return Err(());
                },
            };
            Ok(StratumMessage::Response(id, None, Some(e)))
        },
        _ => Err(()),
    }
}

/// Read a message from a parsed frame value.
pub fn decode_json_msg(v: &Json) -> (r: Result<StratumMessage, ()>)
    ensures
        match r {
            Ok(m) => msg_of_json(json_view(*v)) == Some(m@),
            Err(_) => msg_of_json(json_view(*v)) is None,
        },
{
    let o = match v {
        Json::Obj(o) => o,
        _ => {
            return Err(());
        },
    };
    let ghost ov = obj_view(*o, 0);
    if !keys_unique_x(o) {
        return Err(());
    }
    let km = k_method();
    proof {
        lemma_has_get(ov, key_method());
    }
    match get_key_idx(o, &km) {
        Some(_) => decode_req(o),
        None => decode_resp(o),
    }
}

// ---------------------------------------------------------------------------
// Writing a message as a frame.
// ---------------------------------------------------------------------------
fn id_to_json(id: &MessageId) -> (r: Json)
    ensures
        json_view(r) == id_json(id@),
{
    match id {
        MessageId::Num(n) => Json::UInt(*n),
        MessageId::Str(s) => Json::Str(crate::util::bytes_dup(s)),
    }
}

fn opt_str_to_json(o: &Option<Vec<u8>>) -> (r: Json)
    ensures
        json_view(r) == opt_str_json(crate::message::opt_bytes_view(*o)),
{
    match o {
        Some(s) => Json::Str(crate::util::bytes_dup(s)),
        None => Json::Null,
    }
}

#[verifier::loop_isolation(false)]
fn elems_to_json(a: &Vec<ResponseElem>) -> (r: Vec<Json>)
    ensures
        arr_view(r, 0) == elems_json(a@.map_values(|e: ResponseElem| e@)),
{
    let mut out: Vec<Json> = Vec::new();
    let mut i: usize = 0;
    while i < a.len()
        invariant
            i <= a@.len(),
            out@.len() == i,
            forall|k: int| 0 <= k < i ==> json_view(#[trigger] out@[k]) == elem_json(a@[k]@),
        decreases a@.len() - i,
    {
        let e: Json = match &a[i] {
            ResponseElem::Null => Json::Null,
            ResponseElem::Str(s) => Json::Str(crate::util::bytes_dup(s)),
            ResponseElem::Num(n) => Json::UInt(*n),
        };
        out.push(e);
        i = i + 1;
    }
    proof {
        lemma_arr_view_index(out, 0);
        assert(arr_view(out, 0) =~= elems_json(a@.map_values(|e: ResponseElem| e@)));
    }
    out
}

fn params_to_json(p: &ResponseParams) -> (r: Json)
    ensures
        json_view(r) == params_json(p@),
{
    match p {
        ResponseParams::Bool(b) => Json::Bool(*b),
        ResponseParams::Array(a) => Json::Arr(elems_to_json(a)),
        ResponseParams::Null => Json::Null,
    }
}

fn int_to_json(c: i64) -> (r: Json)
    ensures
        json_view(r) == int_json(c),
{
    if c >= 0 {
        Json::UInt(c as u64)
    } else if c == i64::MIN {
        proof {
            assert((-(c as int)) as u64 == 0x8000000000000000u64);
        }
        Json::NegInt(0x8000000000000000u64)
    } else {
        Json::NegInt((-c) as u64)
    }
}

/// The JSON tree a message is written as.
#[verifier::rlimit(100)]
fn msg_to_json(m: &StratumMessage) -> (r: Json)
    ensures
        json_view(r) == msg_json(m@),
{
    let mut o: Vec<(Vec<u8>, Json)> = Vec::new();
    let two = Json::Str(l_2_0());
    o.push((k_jsonrpc(), two));
    match m {
        StratumMessage::Subscribe(id, ua, pv, sess) => {
            o.push((k_method(), Json::Str(l_subscribe())));
            let mut ps: Vec<Json> = Vec::new();
            ps.push(Json::Str(crate::util::bytes_dup(ua)));
            ps.push(Json::Str(crate::util::bytes_dup(pv)));
            ps.push(opt_str_to_json(sess));
            proof {
                lemma_arr_view_index(ps, 0);
                assert(arr_view(ps, 0) =~= seq![
                    JsonV::Str(ua@),
                    JsonV::Str(pv@),
                    opt_str_json(crate::message::opt_bytes_view(*sess)),
                ]);
            }
            o.push((k_params(), Json::Arr(ps)));
            o.push((k_id(), id_to_json(id)));
            let r = Json::Obj(o);
            proof {
                lemma_obj_view_index(r->Obj_0, 0);
                assert(obj_view(r->Obj_0, 0) =~= msg_json(m@)->Obj_0);
            }
            r
        },
        StratumMessage::Authorize(id, w, p) => {
            o.push((k_method(), Json::Str(l_authorize())));
            let mut ps: Vec<Json> = Vec::new();
            ps.push(Json::Str(crate::util::bytes_dup(w)));
            ps.push(Json::Str(crate::util::bytes_dup(p)));
            proof {
                lemma_arr_view_index(ps, 0);
                assert(arr_view(ps, 0) =~= seq![JsonV::Str(w@), JsonV::Str(p@)]);
            }
            o.push((k_params(), Json::Arr(ps)));
            o.push((k_id(), id_to_json(id)));
            let r = Json::Obj(o);
            proof {
                lemma_obj_view_index(r->Obj_0, 0);
                assert(obj_view(r->Obj_0, 0) =~= msg_json(m@)->Obj_0);
            }
            r
        },
        StratumMessage::SetTarget(t) => {
            o.push((k_method(), Json::Str(l_set_target())));
            let mut ps: Vec<Json> = Vec::new();
            ps.push(Json::UInt(*t));
            proof {
                lemma_arr_view_index(ps, 0);
                assert(arr_view(ps, 0) =~= seq![JsonV::UInt(*t)]);
            }
            o.push((k_params(), Json::Arr(ps)));
            let r = Json::Obj(o);
            proof {
                lemma_obj_view_index(r->Obj_0, 0);
                assert(obj_view(r->Obj_0, 0) =~= msg_json(m@)->Obj_0);
            }
            r
        },
        StratumMessage::Notify(j, e, a, c) => {
            o.push((k_method(), Json::Str(l_notify())));
            let mut ps: Vec<Json> = Vec::new();
            ps.push(Json::Str(crate::util::bytes_dup(j)));
            ps.push(Json::Str(crate::util::bytes_dup(e)));
            ps.push(opt_str_to_json(a));
            ps.push(Json::Bool(*c));
            proof {
                lemma_arr_view_index(ps, 0);
                assert(arr_view(ps, 0) =~= seq![
                    JsonV::Str(j@),
                    JsonV::Str(e@),
                    opt_str_json(crate::message::opt_bytes_view(*a)),
                    JsonV::Bool(*c),
                ]);
            }
            o.push((k_params(), Json::Arr(ps)));
            let r = Json::Obj(o);
            proof {
                lemma_obj_view_index(r->Obj_0, 0);
                assert(obj_view(r->Obj_0, 0) =~= msg_json(m@)->Obj_0);
            }
            r
        },
        StratumMessage::Submit(id, w, j, n, cm, pr) => {
            o.push((k_method(), Json::Str(l_submit())));
            let mut ps: Vec<Json> = Vec::new();
            ps.push(Json::Str(crate::util::bytes_dup(w)));
            ps.push(Json::Str(crate::util::bytes_dup(j)));
            ps.push(Json::Str(crate::util::bytes_dup(n)));
            ps.push(Json::Str(crate::util::bytes_dup(cm)));
            ps.push(Json::Str(crate::util::bytes_dup(pr)));
            proof {
                lemma_arr_view_index(ps, 0);
                assert(arr_view(ps, 0) =~= seq![
                    JsonV::Str(w@),
                    JsonV::Str(j@),
                    JsonV::Str(n@),
                    JsonV::Str(cm@),
                    JsonV::Str(pr@),
                ]);
            }
            o.push((k_params(), Json::Arr(ps)));
            o.push((k_id(), id_to_json(id)));
            let r = Json::Obj(o);
            proof {
                lemma_obj_view_index(r->Obj_0, 0);
                assert(obj_view(r->Obj_0, 0) =~= msg_json(m@)->Obj_0);
            }
            r
        },
        StratumMessage::Response(id, res, err) => {
            match err {
                Some(e) => {
                    let mut eo: Vec<(Vec<u8>, Json)> = Vec::new();
                    eo.push((k_code(), int_to_json(e.code)));
                    eo.push((k_message(), Json::Str(crate::util::bytes_dup(&e.message))));
                    proof {
                        lemma_obj_view_index(eo, 0);
                        assert(obj_view(eo, 0) =~= seq![
                            (key_code(), int_json(e.code)),
                            (key_message(), JsonV::Str(e.message@)),
                        ]);
                    }
                    o.push((k_error(), Json::Obj(eo)));
                    o.push((k_id(), id_to_json(id)));
                    let r = Json::Obj(o);
                    proof {
                        lemma_obj_view_index(r->Obj_0, 0);
                        assert(obj_view(r->Obj_0, 0) =~= msg_json(m@)->Obj_0);
                    }
                    r
                },
                None => {
                    let rv: Json = match res {
                        Some(p) => params_to_json(p),
                        None => Json::Null,
                    };
                    o.push((k_result(), rv));
                    o.push((k_id(), id_to_json(id)));
                    let r = Json::Obj(o);
                    proof {
                        lemma_obj_view_index(r->Obj_0, 0);
                        assert(obj_view(r->Obj_0, 0) =~= msg_json(m@)->Obj_0);
                    }
                    r
                },
            }
        },
    }
}

// ---------------------------------------------------------------------------
// The framed codec.
// ---------------------------------------------------------------------------
/// The index of the first newline at or after `i`, or the length if none.
pub open spec fn first_nl(b: Seq<u8>, i: int) -> int
    decreases b.len() - i,
{
    if i < 0 || i >= b.len() {
        b.len() as int
    } else if b[i] == 0x0a {
        i
    } else {
        first_nl(b, i + 1)
    }
}

/// Why a frame was refused: there is one decode error kind.
#[derive(Clone, Copy, PartialEq, Eq, Structural, Debug)]
pub enum DecodeError {
    Malformed,
}

/// The largest frame the codec accepts or emits, in bytes.
pub const MAX_FRAME: usize = 4096;

/// The line-oriented codec: one JSON object per newline-terminated frame.
pub struct StratumCodec {
    _private: bool,
}

impl Default for StratumCodec {
    /// A codec with the fixed frame limit.
    fn default() -> (r: StratumCodec) {
        StratumCodec { _private: false }
    }
}

impl StratumCodec {
    /// Write `item` to `dst` as one frame followed by a newline.
    pub fn encode(&self, item: &StratumMessage, dst: &mut Vec<u8>)
        ensures
            final(dst)@ == old(dst)@ + encode_frame_spec(item@) + seq![0x0au8],
    {
        let v = msg_to_json(item);
        crate::json::emit_json(&v, dst);
        dst.push(0x0a);
        proof {
            assert(dst@ =~= old(dst)@ + encode_frame_spec(item@) + seq![0x0au8]);
        }
    }

    /// Take the first newline-terminated frame off `src` and read it. With
    /// no newline yet, nothing is returned unless the buffer already exceeds
    /// the frame limit; an overlong frame or an unreadable frame is refused.
    #[verifier::loop_isolation(false)]
    pub fn decode(&self, src: &mut Vec<u8>) -> (r: Result<Option<StratumMessage>, DecodeError>)
        ensures
            ({
                let nl = first_nl(old(src)@, 0);
                match r {
                    Ok(Some(m)) => nl < old(src)@.len() && nl <= MAX_FRAME && decode_frame_spec(
                        old(src)@.subrange(0, nl),
                    ) == Some(m@) && final(src)@ == old(src)@.subrange(
                        nl + 1,
                        old(src)@.len() as int,
                    ),
                    Ok(None) => nl == old(src)@.len() && old(src)@.len() <= MAX_FRAME
                        && final(src)@ == old(src)@,
                    Err(_) => (nl == old(src)@.len() && old(src)@.len() > MAX_FRAME) || (nl
                        < old(src)@.len() && (nl > MAX_FRAME || decode_frame_spec(
                        old(src)@.subrange(0, nl),
                    ) is None)),
                }
            }),
    {
        let ghost src0 = src@;
        let mut i: usize = 0;
        let mut found: bool = false;
        while i < src.len() && !found
            invariant
                i <= src@.len(),
                src@ == src0,
                first_nl(src0, 0) == if found {
                    i as int
                } else {
                    first_nl(src0, i as int)
                },
                found ==> i < src@.len() && src@[i as int] == 0x0a,
            decreases src@.len() - i, (if found {
                0int
            } else {
                1int
            }),
        {
            if src[i] == 0x0a {
                found = true;
            } else {
                i = i + 1;
            }
        }
        if !found {
            if src.len() > MAX_FRAME {
                return Err(DecodeError::Malformed);
            }
            return Ok(None);
        }
        if i > MAX_FRAME {
            return Err(DecodeError::Malformed);
        }
        let frame = crate::util::bytes_slice(src, 0, i);
        let rest = crate::util::bytes_slice(src, i + 1, src.len());
        let msg = match crate::json::parse_json_x(&frame) {
            Err(_) => {
                return Err(DecodeError::Malformed);
            },
            Ok(v) => match decode_json_msg(&v) {
                Err(_) => {
                    return Err(DecodeError::Malformed);
                },
                Ok(m) => m,
            },
        };
        *src = rest;
        Ok(Some(msg))
    }
}

} // verus!