//! Accounting: the owner of the PPLNS state. It consumes an ordered stream
//! of events — new shares, window changes, found solutions, exit — and keeps
//! the round snapshot that the stats surface reads, cached briefly. File and
//! channel plumbing live outside; every decision here is exact.

use vstd::prelude::*;

use crate::cache::Cache;
use crate::json::{jparse, JsonV};
use crate::persist::enc_state;
use crate::pplns::{
    drained, pplns_to_provers_shares, shares_table_ok, sum_values, PPLNS, Share,
};

verus! {

broadcast use vstd::seq::group_seq_axioms;

/// One event on the accounting channel, in submission order.
pub enum AccountingMessage {
    /// A credited share: owner address, weight.
    NewShare(Vec<u8>, u64),
    /// A new window size.
    SetN(u64),
    /// A solution that met the on-chain target, named by its commitment.
    NewSolution(Vec<u8>),
    /// Drain, save, and signal shutdown.
    Exit,
}

/// What the surroundings must do after an event.
pub enum AccountingAction {
    /// Hand the solution and the round's share table to the payout store.
    SaveSolution(Vec<u8>, u32, Vec<(Vec<u8>, u64)>),
    /// Write the state image to disk and stop consuming.
    SaveState(Vec<u8>),
}

/// The accounting state: the share queue, the round cache, and the shutdown
/// flag behind `wait_for_exit`.
pub struct Accounting {
    pub pplns: PPLNS,
    pub round_cache: Cache<(u32, Vec<(Vec<u8>, u64)>)>,
    pub exited: bool,
}

/// How long a round snapshot stays fresh, in milliseconds.
pub const ROUND_CACHE_MS: u64 = 10000;

impl Accounting {
    pub open spec fn wf(self) -> bool {
        self.pplns.wf() && self.round_cache.wf()
    }

    /// Start from a loaded state.
    pub fn init(pplns: PPLNS) -> (a: Accounting)
        requires
            pplns.wf(),
        ensures
            a.wf(),
            a.pplns == pplns,
            !a.exited,
    {
        Accounting { pplns, round_cache: Cache::new(ROUND_CACHE_MS), exited: false }
    }

    /// Whether the exit event has been fully handled.
    pub fn wait_for_exit(&self) -> (r: bool)
        ensures
            r == self.exited,
    {
        self.exited
    }

    /// Consume one event, in order. A share joins the queue under the
    /// window's rule, a window change drains from the head, a solution takes
    /// the round's share table with it, and exit saves the state image and
    /// raises the shutdown flag.
    pub fn handle(&mut self, msg: AccountingMessage) -> (r: Option<AccountingAction>)
        requires
            old(self).wf(),
            old(self).pplns.queue@.len() <= 0xffff_ffff,
        ensures
            final(self).wf(),
            final(self).exited == (old(self).exited || msg is Exit),
            match msg {
                AccountingMessage::NewShare(owner, value) => r is None && final(self).pplns.queue_view() == (if old(self).pplns.n == 0 {
                    Seq::<(u64, Seq<u8>)>::empty()
                } else {
                    drained(
                        old(self).pplns.queue_view().push((value, owner@)),
                        old(self).pplns.n,
                    )
                }) && final(self).pplns.n == old(self).pplns.n,
                AccountingMessage::SetN(n) => r is None && final(self).pplns.n == n && final(self).pplns.queue_view() == (if n == 0 {
                    Seq::<(u64, Seq<u8>)>::empty()
                } else {
                    drained(old(self).pplns.queue_view(), n)
                }),
                AccountingMessage::NewSolution(id) => final(self).pplns == old(self).pplns && (
                r matches Some(AccountingAction::SaveSolution(sid, count, table)) && sid@ == id@
                    && shares_table_ok(old(self).pplns.queue_view(), count, table@)),
                AccountingMessage::Exit => final(self).pplns == old(self).pplns && (r matches
                    Some(AccountingAction::SaveState(bytes)) && bytes@ == enc_state(
                    old(self).pplns.n,
                    old(self).pplns.current_n,
                    old(self).pplns.queue_view(),
                )),
            },
    {
        match msg {
            AccountingMessage::NewShare(owner, value) => {
                self.pplns.add_share(Share::init(value, owner));
                None
            },
            AccountingMessage::SetN(n) => {
                self.pplns.set_n(n);
                None
            },
            AccountingMessage::NewSolution(id) => {
                let (count, table) = pplns_to_provers_shares(&self.pplns);
                Some(AccountingAction::SaveSolution(id, count, table))
            },
            AccountingMessage::Exit => {
                self.exited = true;
                let bytes = self.pplns.save();
                Some(AccountingAction::SaveState(bytes))
            },
        }
    }

    /// The current round: the window, the running total, and the share
    /// table. The table comes from the short-lived cache when it is fresh;
    /// otherwise it is rebuilt from the queue and cached.
    pub fn current_round(&mut self, now: u64) -> (r: (u64, u64, u32, Vec<(Vec<u8>, u64)>))
        requires
            old(self).wf(),
            old(self).pplns.queue@.len() <= 0xffff_ffff,
        ensures
            final(self).wf(),
            final(self).pplns == old(self).pplns,
            final(self).exited == old(self).exited,
            r.0 == old(self).pplns.n,
            r.1 == old(self).pplns.current_n,
            // a cache miss rebuilds the table from the queue as it stands
            (forall|i: int|
                0 <= i < old(self).round_cache.entries@.len() && (#[trigger] old(self).round_cache.entries@[i]).0 == 0 ==> now - old(self).round_cache.entries@[i].1
                    > old(self).round_cache.duration_ms) ==> shares_table_ok(
                old(self).pplns.queue_view(),
                r.2,
                r.3@,
            ),
    {
        let cached: Option<(u32, Vec<(Vec<u8>, u64)>)> = match self.round_cache.get(0, now) {
            Some(c) => {
                let mut t: Vec<(Vec<u8>, u64)> = Vec::new();
                let mut i: usize = 0;
                while i < c.1.len()
                    invariant
                        i <= c.1@.len(),
                    decreases c.1@.len() - i,
                {
                    t.push((crate::util::bytes_dup(&c.1[i].0), c.1[i].1));
                    i = i + 1;
                }
                Some((c.0, t))
            },
            None => None,
        };
        match cached {
            Some((count, table)) => (self.pplns.n, self.pplns.current_n, count, table),
            None => {
                let (count, table) = pplns_to_provers_shares(&self.pplns);
                let mut copy: Vec<(Vec<u8>, u64)> = Vec::new();
                let mut i: usize = 0;
                while i < table.len()
                    invariant
                        i <= table@.len(),
                    decreases table@.len() - i,
                {
                    copy.push((crate::util::bytes_dup(&table[i].0), table[i].1));
                    i = i + 1;
                }
                self.round_cache.set(0, (count, copy), now);
                (self.pplns.n, self.pplns.current_n, count, table)
            },
        }
    }
}

/// What the downstream oracle answered about a commitment: nothing, or the
/// block height and reward.
#[derive(PartialEq, Eq, Structural, Debug)]
pub enum OracleReply {
    Rejected,
    Accepted(u64, u64),
}

/// Read the oracle's reply body: a JSON `null` means the solution was
/// rejected; an object carrying unsigned `height` and `reward` numbers means
/// it was accepted; anything else is a transport-level failure and the
/// payout loop must back off without advancing.
pub fn parse_oracle_reply(body: &Vec<u8>) -> (r: Result<OracleReply, ()>)
    ensures
        match r {
            Ok(OracleReply::Rejected) => jparse(body@) == Some(JsonV::Null),
            Ok(OracleReply::Accepted(h, w)) => (jparse(body@) matches Some(JsonV::Obj(o))
                && crate::message::get_key(o, height_key()) == Some(JsonV::UInt(h))
                && crate::message::get_key(o, reward_key()) == Some(JsonV::UInt(w))),
            Err(_) => !(jparse(body@) matches Some(v) && (v is Null || (v matches JsonV::Obj(o)
                && (crate::message::get_key(o, height_key()) matches Some(hv) && hv is UInt)
                && (crate::message::get_key(o, reward_key()) matches Some(wv)
                && wv is UInt)))),
        },
{
    let v = match crate::json::parse_json_x(body) {
        Ok(v) => v,
        Err(_) => {
            return Err(());
        },
    };
    match &v {
        crate::json::Json::Null => Ok(OracleReply::Rejected),
        crate::json::Json::Obj(o) => {
            let mut hk: Vec<u8> = Vec::new();
            hk.push(0x68);
            hk.push(0x65);
            hk.push(0x69);
            hk.push(0x67);
            hk.push(0x68);
            hk.push(0x74);
            proof {
                assert(hk@ =~= height_key());
            }
            let mut rk: Vec<u8> = Vec::new();
            rk.push(0x72);
            rk.push(0x65);
            rk.push(0x77);
            rk.push(0x61);
            rk.push(0x72);
            rk.push(0x64);
            proof {
                assert(rk@ =~= reward_key());
            }
            let h = match crate::codec::get_key_idx(o, &hk) {
                Some(i) => match &o[i].1 {
                    crate::json::Json::UInt(n) => *n,
                    _ => {
                        return Err(());
                    },
                },
                None => {
                    return Err(());
                },
            };
            let w = match crate::codec::get_key_idx(o, &rk) {
                Some(i) => match &o[i].1 {
                    crate::json::Json::UInt(n) => *n,
                    _ => {
                        return Err(());
                    },
                },
                None => {
                    return Err(());
                },
            };
            Ok(OracleReply::Accepted(h, w))
        },
        _ => Err(()),
    }
}

/// The oracle reply's height field name.
pub open spec fn height_key() -> Seq<u8> {
    seq![0x68u8, 0x65u8, 0x69u8, 0x67u8, 0x68u8, 0x74u8]
}

/// The oracle reply's reward field name.
pub open spec fn reward_key() -> Seq<u8> {
    seq![0x72u8, 0x65u8, 0x77u8, 0x61u8, 0x72u8, 0x64u8]
}

} // verus!