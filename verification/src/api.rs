//! The read-only stats surface: the JSON bodies the routes answer with, and
//! the admin route's loopback rule. The HTTP listener itself lives outside;
//! these functions turn plain values into exact response bodies.

use vstd::prelude::*;

use crate::json::{jser, json_view, Json, JsonV};

verus! {

broadcast use vstd::seq::group_seq_axioms, crate::json::lemma_obj_view_len,
    crate::json::lemma_obj_view_at, crate::json::lemma_arr_view_len, crate::json::lemma_arr_view_at;

pub open spec fn n_key() -> Seq<u8> {
    seq![0x6eu8]
}

pub open spec fn current_n_key() -> Seq<u8> {
    seq![0x63u8, 0x75u8, 0x72u8, 0x72u8, 0x65u8, 0x6eu8, 0x74u8, 0x5fu8, 0x6eu8]
}

pub open spec fn provers_key() -> Seq<u8> {
    seq![0x70u8, 0x72u8, 0x6fu8, 0x76u8, 0x65u8, 0x72u8, 0x73u8]
}

pub open spec fn shares_key() -> Seq<u8> {
    seq![0x73u8, 0x68u8, 0x61u8, 0x72u8, 0x65u8, 0x73u8]
}

/// The `/current_round` body: the window, the running total, and the prover
/// count.
pub open spec fn round_body_json(n: u64, current_n: u64, provers: u32) -> JsonV {
    JsonV::Obj(
        seq![
            (n_key(), JsonV::UInt(n)),
            (current_n_key(), JsonV::UInt(current_n)),
            (provers_key(), JsonV::UInt(provers as u64)),
        ],
    )
}

/// The `/admin/current_round` body: the round and the full shares map.
pub open spec fn admin_body_json(
    n: u64,
    current_n: u64,
    provers: u32,
    shares: Seq<(Seq<u8>, u64)>,
) -> JsonV {
    JsonV::Obj(
        seq![
            (n_key(), JsonV::UInt(n)),
            (current_n_key(), JsonV::UInt(current_n)),
            (provers_key(), JsonV::UInt(provers as u64)),
            (shares_key(), JsonV::Obj(shares.map_values(|p: (Seq<u8>, u64)| (p.0, JsonV::UInt(p.1))))),
        ],
    )
}

/// The admin refusal body.
pub open spec fn not_allowed_body() -> JsonV {
    // "Method Not Allowed"
    JsonV::Str(
        seq![
            0x4du8,
            0x65u8,
            0x74u8,
            0x68u8,
            0x6fu8,
            0x64u8,
            0x20u8,
            0x4eu8,
            0x6fu8,
            0x74u8,
            0x20u8,
            0x41u8,
            0x6cu8,
            0x6cu8,
            0x6fu8,
            0x77u8,
            0x65u8,
            0x64u8,
        ],
    )
}

fn nk() -> (r: Vec<u8>)
    ensures
        r@ == n_key(),
{
    let mut v: Vec<u8> = Vec::new();
    v.push(0x6e);
    proof {
        assert(v@ =~= n_key());
    }
    v
}

fn cnk() -> (r: Vec<u8>)
    ensures
        r@ == current_n_key(),
{
    let mut v: Vec<u8> = Vec::new();
    v.push(0x63);
    v.push(0x75);
    v.push(0x72);
    v.push(0x72);
    v.push(0x65);
    v.push(0x6e);
    v.push(0x74);
    v.push(0x5f);
    v.push(0x6e);
    proof {
        assert(v@ =~= current_n_key());
    }
    v
}

fn pk() -> (r: Vec<u8>)
    ensures
        r@ == provers_key(),
{
    let mut v: Vec<u8> = Vec::new();
    v.push(0x70);
    v.push(0x72);
    v.push(0x6f);
    v.push(0x76);
    v.push(0x65);
    v.push(0x72);
    v.push(0x73);
    proof {
        assert(v@ =~= provers_key());
    }
    v
}

fn sk() -> (r: Vec<u8>)
    ensures
        r@ == shares_key(),
{
    let mut v: Vec<u8> = Vec::new();
    v.push(0x73);
    v.push(0x68);
    v.push(0x61);
    v.push(0x72);
    v.push(0x65);
    v.push(0x73);
    proof {
        assert(v@ =~= shares_key());
    }
    v
}

/// The `/current_round` reply body.
pub fn current_round_body(n: u64, current_n: u64, provers: u32) -> (r: Vec<u8>)
    ensures
        r@ == jser(round_body_json(n, current_n, provers)),
{
    let mut o: Vec<(Vec<u8>, Json)> = Vec::new();
    o.push((nk(), Json::UInt(n)));
    o.push((cnk(), Json::UInt(current_n)));
    o.push((pk(), Json::UInt(provers as u64)));
    let v = Json::Obj(o);
    proof {
        assert(crate::json::obj_view(v->Obj_0, 0) =~= round_body_json(n, current_n, provers)
            ->Obj_0);
    }
    let mut out: Vec<u8> = Vec::new();
    crate::json::emit_json(&v, &mut out);
    out
}

/// The `/admin/current_round` decision and reply: from the loopback
/// interface the full round with its shares map and status 200; from
/// anywhere else status 405 and a refusal, with nothing of the round in it.
pub fn admin_round_reply(
    is_loopback: bool,
    n: u64,
    current_n: u64,
    provers: u32,
    shares: &Vec<(Vec<u8>, u64)>,
) -> (r: (u16, Vec<u8>))
    ensures
        r.0 == 200 <==> is_loopback,
        r.0 == 405 <==> !is_loopback,
        is_loopback ==> r.1@ == jser(
            admin_body_json(
                n,
                current_n,
                provers,
                shares@.map_values(|p: (Vec<u8>, u64)| (p.0@, p.1)),
            ),
        ),
        !is_loopback ==> r.1@ == jser(not_allowed_body()),
{
    if !is_loopback {
        let mut s: Vec<u8> = Vec::new();
        s.push(0x4d);
        s.push(0x65);
        s.push(0x74);
        s.push(0x68);
        s.push(0x6f);
        s.push(0x64);
        s.push(0x20);
        s.push(0x4e);
        s.push(0x6f);
        s.push(0x74);
        s.push(0x20);
        s.push(0x41);
        s.push(0x6c);
        s.push(0x6c);
        s.push(0x6f);
        s.push(0x77);
        s.push(0x65);
        s.push(0x64);
        let v = Json::Str(s);
        proof {
            assert(v->Str_0@ =~= not_allowed_body()->Str_0);
            assert(json_view(v) == not_allowed_body());
        }
        let mut out: Vec<u8> = Vec::new();
        crate::json::emit_json(&v, &mut out);
        return (405, out);
    }
    let mut so: Vec<(Vec<u8>, Json)> = Vec::new();
    let mut i: usize = 0;
    while i < shares.len()
        invariant
            i <= shares@.len(),
            so@.len() == i,
            forall|k: int|
                0 <= k < i ==> (#[trigger] so@[k]).0@ == shares@[k].0@ && so@[k].1 == Json::UInt(
                    shares@[k].1,
                ),
        decreases shares@.len() - i,
    {
        so.push((crate::util::bytes_dup(&shares[i].0), Json::UInt(shares[i].1)));
        i = i + 1;
    }
    let mut o: Vec<(Vec<u8>, Json)> = Vec::new();
    o.push((nk(), Json::UInt(n)));
    o.push((cnk(), Json::UInt(current_n)));
    o.push((pk(), Json::UInt(provers as u64)));
    let ghost sov = crate::json::obj_view(so, 0);
    proof {
        assert(sov =~= shares@.map_values(|p: (Vec<u8>, u64)| (p.0@, p.1)).map_values(
            |p: (Seq<u8>, u64)| (p.0, JsonV::UInt(p.1)),
        ));
    }
    o.push((sk(), Json::Obj(so)));
    let v = Json::Obj(o);
    proof {
        assert(crate::json::obj_view(v->Obj_0, 0) =~= admin_body_json(
            n,
            current_n,
            provers,
            shares@.map_values(|p: (Vec<u8>, u64)| (p.0@, p.1)),
        )->Obj_0);
    }
    let mut out: Vec<u8> = Vec::new();
    crate::json::emit_json(&v, &mut out);
    (200, out)
}

} // verus!