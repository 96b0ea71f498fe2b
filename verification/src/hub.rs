//! The server hub: the registry of authenticated provers, the window of
//! nonces already seen, the current epoch, and the decisions taken for each
//! message the connections send up. A duplicate or stale submission is
//! answered `false` and credits nothing; an accepted one is credited, leaves
//! its nonce in the window, and is answered `true`.

use vstd::prelude::*;

use crate::message::{MessageId, MsgV, StratumMessage};

verus! {

broadcast use vstd::seq::group_seq_axioms;

/// A bounded first-in-first-out window of nonces already observed. When the
/// window is full, the oldest nonce leaves; a very old nonce may therefore
/// present as fresh again.
pub struct NonceSeen {
    pub entries: Vec<u64>,
    pub capacity: usize,
}

impl NonceSeen {
    pub open spec fn view(self) -> Seq<u64> {
        self.entries@
    }

    pub open spec fn wf(self) -> bool {
        self.capacity > 0 && self.entries@.len() <= self.capacity
    }

    pub fn new(capacity: usize) -> (s: NonceSeen)
        requires
            capacity > 0,
        ensures
            s.wf(),
            s@ == Seq::<u64>::empty(),
            s.capacity == capacity,
    {
        NonceSeen { entries: Vec::new(), capacity }
    }

    /// Whether the nonce is in the window.
    pub fn contains(&self, nonce: u64) -> (r: bool)
        ensures
            r == self@.contains(nonce),
    {
        let mut i: usize = 0;
        while i < self.entries.len()
            invariant
                i <= self@.len(),
                forall|k: int| 0 <= k < i ==> self@[k] != nonce,
            decreases self@.len() - i,
        {
            if self.entries[i] == nonce {
                return true;
            }
            i = i + 1;
        }
        proof {
            if self@.contains(nonce) {
                let k = choose|k: int| 0 <= k < self@.len() && self@[k] == nonce;
            }
        }
        false
    }

    /// Record a nonce: the result says whether it was fresh. A fresh nonce
    /// joins at the tail, evicting the oldest if the window is full; a seen
    /// nonce changes nothing.
    pub fn insert(&mut self, nonce: u64) -> (fresh: bool)
        requires
            old(self).wf(),
        ensures
            final(self).wf(),
            final(self).capacity == old(self).capacity,
            fresh == !old(self)@.contains(nonce),
            !fresh ==> final(self)@ == old(self)@,
            fresh && old(self)@.len() < old(self).capacity ==> final(self)@ == old(self)@.push(
                nonce,
            ),
            fresh && old(self)@.len() == old(self).capacity ==> final(self)@ == old(self)@.drop_first().push(nonce),
            final(self)@ == window_after(old(self)@, old(self).capacity as int, nonce),
            final(self)@.contains(nonce),
    {
        if self.contains(nonce) {
            return false;
        }
        if self.entries.len() == self.capacity {
            let _ = self.entries.remove(0);
            proof {
                assert(self.entries@ =~= old(self)@.drop_first());
            }
        }
        self.entries.push(nonce);
        proof {
            assert(final(self)@.last() == nonce);
        }
        true
    }
}

/// The window after one nonce is recorded: unchanged when the nonce was
/// already there; otherwise the nonce joins at the tail, evicting the oldest
/// entry of a full window.
pub open spec fn window_after(seen: Seq<u64>, cap: int, nonce: u64) -> Seq<u64> {
    if seen.contains(nonce) {
        seen
    } else if seen.len() < cap {
        seen.push(nonce)
    } else {
        seen.drop_first().push(nonce)
    }
}

/// A nonce accepted once stays in the window, so presenting it again while
/// the window has not rolled past it is never fresh: the hub answers such a
/// submission `false` and credits nothing.
pub proof fn lemma_nonce_seen_twice(seen: Seq<u64>, cap: int, nonce: u64)
    requires
        0 < cap,
        seen.len() <= cap,
    ensures
        window_after(seen, cap, nonce).contains(nonce),
        window_after(window_after(seen, cap, nonce), cap, nonce) == window_after(
            seen,
            cap,
            nonce,
        ),
{
    let w = window_after(seen, cap, nonce);
    if seen.contains(nonce) {
    } else if seen.len() < cap {
        assert(w.last() == nonce);
    } else {
        assert(w.last() == nonce);
    }
}

/// One authenticated prover: the peer's handle and its account address.
pub struct ProverEntry {
    pub peer: u64,
    pub address: Vec<u8>,
}

/// What the hub asks its surroundings to do.
pub enum HubAction {
    /// Answer the submit: peer, request id, whether credit was given.
    Reply(u64, MessageId, bool),
    /// Credit a share: owner address, weight.
    Credit(Vec<u8>, u64),
    /// Hand the solution on: it also met the on-chain target.
    Solution(Vec<u8>, u64),
}

/// The hub state: the registry, the nonce window, and the current epoch.
pub struct Hub {
    pub provers: Vec<ProverEntry>,
    pub nonce_seen: NonceSeen,
    pub current_epoch: u32,
}

/// Whether a peer is registered.
pub open spec fn has_peer(ps: Seq<ProverEntry>, peer: u64) -> bool {
    exists|i: int| 0 <= i < ps.len() && (#[trigger] ps[i]).peer == peer
}

impl Hub {
    pub open spec fn wf(self) -> bool {
        &&& self.nonce_seen.wf()
        &&& forall|i: int, j: int|
            0 <= i < j < self.provers@.len() ==> (#[trigger] self.provers@[i]).peer != (
            #[trigger] self.provers@[j]).peer
    }

    pub fn new(nonce_capacity: usize) -> (h: Hub)
        requires
            nonce_capacity > 0,
        ensures
            h.wf(),
            h.provers@.len() == 0,
            h.nonce_seen@ == Seq::<u64>::empty(),
            h.current_epoch == 0,
    {
        Hub { provers: Vec::new(), nonce_seen: NonceSeen::new(nonce_capacity), current_epoch: 0 }
    }

    fn find_peer(&self, peer: u64) -> (r: Option<usize>)
        ensures
            match r {
                Some(i) => i < self.provers@.len() && self.provers@[i as int].peer == peer,
                None => !has_peer(self.provers@, peer),
            },
    {
        let mut i: usize = 0;
        while i < self.provers.len()
            invariant
                i <= self.provers@.len(),
                forall|k: int| 0 <= k < i ==> (#[trigger] self.provers@[k]).peer != peer,
            decreases self.provers@.len() - i,
        {
            if self.provers[i].peer == peer {
                return Some(i);
            }
            i = i + 1;
        }
        proof {
            if has_peer(self.provers@, peer) {
                let k = choose|k: int|
                    0 <= k < self.provers@.len() && (#[trigger] self.provers@[k]).peer == peer;
            }
        }
        None
    }

    /// Register an authenticated prover. Registering a peer again replaces
    /// its address; the registry grows exactly when the peer was new.
    pub fn prover_authenticated(&mut self, peer: u64, address: Vec<u8>)
        requires
            old(self).wf(),
        ensures
            final(self).wf(),
            has_peer(final(self).provers@, peer),
            final(self).nonce_seen == old(self).nonce_seen,
            final(self).current_epoch == old(self).current_epoch,
            !has_peer(old(self).provers@, peer) ==> final(self).provers@.len() == old(self).provers@.len() + 1 && final(self).provers@ == old(self).provers@.push(
                ProverEntry { peer, address },
            ),
            has_peer(old(self).provers@, peer) ==> final(self).provers@.len() == old(self).provers@.len(),
    {
        match self.find_peer(peer) {
            Some(i) => {
                let ghost before = self.provers@;
                let _ = self.provers.remove(i);
                self.provers.insert(i, ProverEntry { peer, address });
                proof {
                    assert(forall|k: int|
                        0 <= k < self.provers@.len() && k != i ==> #[trigger] self.provers@[k]
                            == before[k]);
                    assert(self.provers@[i as int].peer == peer);
                    assert(has_peer(self.provers@, peer));
                }
            },
            None => {
                self.provers.push(ProverEntry { peer, address });
                proof {
                    assert(self.provers@[self.provers@.len() - 1].peer == peer);
                }
            },
        }
    }

    /// Drop a prover. Telling the hub twice is harmless.
    pub fn prover_disconnected(&mut self, peer: u64)
        requires
            old(self).wf(),
        ensures
            final(self).wf(),
            !has_peer(final(self).provers@, peer),
            final(self).nonce_seen == old(self).nonce_seen,
            final(self).current_epoch == old(self).current_epoch,
            !has_peer(old(self).provers@, peer) ==> final(self).provers@ == old(self).provers@,
            has_peer(old(self).provers@, peer) ==> final(self).provers@.len() == old(self).provers@.len() - 1,
    {
        match self.find_peer(peer) {
            Some(i) => {
                let ghost before = self.provers@;
                let _ = self.provers.remove(i);
                proof {
                    assert(forall|k: int|
                        0 <= k < self.provers@.len() ==> #[trigger] self.provers@[k] == (if k
                            < i {
                            before[k]
                        } else {
                            before[k + 1]
                        }));
                    if has_peer(self.provers@, peer) {
                        let k = choose|k: int|
                            0 <= k < self.provers@.len() && (#[trigger] self.provers@[k]).peer
                                == peer;
                    }
                }
            },
            None => {},
        }
    }

    /// Handle a validated submission. A peer the hub does not know is
    /// ignored; a stale epoch or a nonce already in the window is answered
    /// `false` with no credit; otherwise the share is credited, the nonce
    /// joins the window, the answer is `true`, and a solution that also met
    /// the on-chain target is handed on. The share's weight and the two
    /// target verdicts come from the puzzle library outside; the decisions
    /// here hold for every value of them.
    pub fn prover_submit(
        &mut self,
        id: MessageId,
        peer: u64,
        epoch_number: u32,
        nonce: u64,
        meets_share_target: bool,
        meets_chain_target: bool,
        share_value: u64,
    ) -> (actions: Vec<HubAction>)
        requires
            old(self).wf(),
        ensures
            final(self).wf(),
            final(self).provers@ == old(self).provers@,
            final(self).current_epoch == old(self).current_epoch,
            // an unknown peer is ignored entirely
            !has_peer(old(self).provers@, peer) ==> actions@.len() == 0 && *final(self) == *old(self),
            // a stale epoch: answer false, credit nothing, window untouched
            has_peer(old(self).provers@, peer) && epoch_number != old(self).current_epoch
                ==> actions@.len() == 1 && (actions@[0] matches HubAction::Reply(p, i, ok) && p
                == peer && i@ == id@ && !ok) && final(self).nonce_seen@ == old(self).nonce_seen@,
            // a nonce already seen: answer false, credit nothing
            has_peer(old(self).provers@, peer) && epoch_number == old(self).current_epoch && old(self).nonce_seen@.contains(nonce) ==> actions@.len() == 1 && (actions@[0] matches
                HubAction::Reply(p, i, ok) && p == peer && i@ == id@ && !ok) && final(self).nonce_seen@ == old(self).nonce_seen@,
            // a fresh nonce that misses the share target: answer false, but
            // the nonce stays observed
            has_peer(old(self).provers@, peer) && epoch_number == old(self).current_epoch && !old(self).nonce_seen@.contains(nonce) && !meets_share_target ==> actions@.len() == 1 && (
            actions@[0] matches HubAction::Reply(p, i, ok) && p == peer && i@ == id@ && !ok)
                && final(self).nonce_seen@.contains(nonce),
            // an accepted share: credit, answer true, nonce observed, and a
            // chain-target solution handed on
            has_peer(old(self).provers@, peer) && epoch_number == old(self).current_epoch && !old(self).nonce_seen@.contains(nonce) && meets_share_target ==> ({
                let owner = old(self).provers@[choose|i: int|
                    0 <= i < old(self).provers@.len() && (#[trigger] old(self).provers@[i]).peer == peer].address@;
                &&& final(self).nonce_seen@.contains(nonce)
                &&& (actions@[0] matches HubAction::Credit(a, v) && a@ == owner && v
                    == share_value)
                &&& (actions@.last() matches HubAction::Reply(p, i, ok) && p == peer && i@ == id@
                    && ok)
                &&& (meets_chain_target ==> actions@.len() == 3 && (actions@[1] matches
                    HubAction::Solution(a, v) && a@ == owner && v == share_value))
                &&& (!meets_chain_target ==> actions@.len() == 2)
            }),
    {
        let mut actions: Vec<HubAction> = Vec::new();
        let idx = match self.find_peer(peer) {
            Some(i) => i,
            None => {
                return actions;
            },
        };
        if epoch_number != self.current_epoch {
            actions.push(HubAction::Reply(peer, id, false));
            return actions;
        }
        let fresh = self.nonce_seen.insert(nonce);
        if !fresh {
            actions.push(HubAction::Reply(peer, id, false));
            return actions;
        }
        if !meets_share_target {
            actions.push(HubAction::Reply(peer, id, false));
            return actions;
        }
        proof {
            let w = choose|i: int|
                0 <= i < old(self).provers@.len() && (#[trigger] old(self).provers@[i]).peer
                    == peer;
            if w != idx {
                assert(old(self).provers@[w].peer == old(self).provers@[idx as int].peer);
            }
        }
        let owner = crate::util::bytes_dup(&self.provers[idx].address);
        actions.push(HubAction::Credit(owner, share_value));
        if meets_chain_target {
            let owner2 = crate::util::bytes_dup(&self.provers[idx].address);
            actions.push(HubAction::Solution(owner2, share_value));
        }
        actions.push(HubAction::Reply(peer, id, true));
        actions
    }

    /// Take a new job: remember its epoch and fan the notify frame out to
    /// every registered prover.
    pub fn new_job(
        &mut self,
        job_id: Vec<u8>,
        epoch_challenge: Vec<u8>,
        epoch_number: u32,
        clean_jobs: bool,
    ) -> (out: Vec<(u64, StratumMessage)>)
        requires
            old(self).wf(),
        ensures
            final(self).wf(),
            final(self).provers@ == old(self).provers@,
            final(self).nonce_seen@ == old(self).nonce_seen@,
            final(self).current_epoch == epoch_number,
            out@.len() == old(self).provers@.len(),
            forall|i: int|
                0 <= i < out@.len() ==> (#[trigger] out@[i]).0 == old(self).provers@[i].peer
                    && out@[i].1@ == MsgV::Notify(job_id@, epoch_challenge@, None, clean_jobs),
    {
        self.current_epoch = epoch_number;
        let mut out: Vec<(u64, StratumMessage)> = Vec::new();
        let mut i: usize = 0;
        while i < self.provers.len()
            invariant
                i <= self.provers@.len(),
                self.provers@ == old(self).provers@,
                out@.len() == i,
                forall|k: int|
                    0 <= k < i ==> (#[trigger] out@[k]).0 == self.provers@[k].peer && out@[k].1@
                        == MsgV::Notify(job_id@, epoch_challenge@, None, clean_jobs),
            decreases self.provers@.len() - i,
        {
            let m = StratumMessage::Notify(
                crate::util::bytes_dup(&job_id),
                crate::util::bytes_dup(&epoch_challenge),
                None,
                clean_jobs,
            );
            out.push((self.provers[i].peer, m));
            i = i + 1;
        }
        out
    }

    /// How many provers are online.
    pub fn online_provers(&self) -> (r: usize)
        ensures
            r == self.provers@.len(),
    {
        self.provers.len()
    }

    /// How many provers work for the given address.
    pub fn address_prover_count(&self, address: &Vec<u8>) -> (r: usize)
        ensures
            r == Set::new(
                |i: int| 0 <= i < self.provers@.len() && self.provers@[i].address@ == address@,
            ).len(),
    {
        let mut count: usize = 0;
        let mut i: usize = 0;
        proof {
            assert(Set::new(|k: int| 0 <= k < 0 && self.provers@[k].address@ == address@)
                =~= Set::<int>::empty());
        }
        while i < self.provers.len()
            invariant
                i <= self.provers@.len(),
                count == Set::new(
                    |k: int| 0 <= k < i && self.provers@[k].address@ == address@,
                ).len(),
                count <= i,
            decreases self.provers@.len() - i,
        {
            let ghost pre = Set::new(|k: int| 0 <= k < i && self.provers@[k].address@ == address@);
            proof {
                crate::hub::lemma_set_bound(pre, i as int);
            }
            if crate::util::bytes_eq(&self.provers[i].address, address) {
                count = count + 1;
                proof {
                    assert(Set::new(
                        |k: int| 0 <= k < i + 1 && self.provers@[k].address@ == address@,
                    ) =~= pre.insert(i as int));
                    assert(!pre.contains(i as int));
                }
            } else {
                proof {
                    assert(Set::new(
                        |k: int| 0 <= k < i + 1 && self.provers@[k].address@ == address@,
                    ) =~= pre);
                }
            }
            i = i + 1;
        }
        count
    }

    /// How many distinct addresses are online: each address counts once, at
    /// its first appearance in the registry.
    #[verifier::loop_isolation(false)]
    pub fn online_addresses(&self) -> (r: usize)
        ensures
            r == Set::new(
                |i: int|
                    0 <= i < self.provers@.len() && first_address(self.provers@, i),
            ).len(),
    {
        let mut count: usize = 0;
        let mut i: usize = 0;
        proof {
            assert(Set::new(|k: int| 0 <= k < 0 && first_address(self.provers@, k)) =~= Set::<
                int,
            >::empty());
        }
        while i < self.provers.len()
            invariant
                i <= self.provers@.len(),
                count == Set::new(
                    |k: int| 0 <= k < i && first_address(self.provers@, k),
                ).len(),
                count <= i,
            decreases self.provers@.len() - i,
        {
            let ghost pre = Set::new(|k: int| 0 <= k < i && first_address(self.provers@, k));
            proof {
                lemma_set_bound(pre, i as int);
            }
            let mut seen_before = false;
            let mut j: usize = 0;
            while j < i
                invariant
                    j <= i,
                    seen_before == !(forall|k: int|
                        0 <= k < j ==> (#[trigger] self.provers@[k].address@)
                            != self.provers@[i as int].address@),
                decreases i - j,
            {
                if crate::util::bytes_eq(&self.provers[j].address, &self.provers[i].address) {
                    seen_before = true;
                }
                j = j + 1;
            }
            if !seen_before {
                count = count + 1;
                proof {
                    assert(first_address(self.provers@, i as int));
                    assert(Set::new(
                        |k: int| 0 <= k < i + 1 && first_address(self.provers@, k),
                    ) =~= pre.insert(i as int));
                    assert(!pre.contains(i as int));
                }
            } else {
                proof {
                    assert(!first_address(self.provers@, i as int));
                    assert(Set::new(
                        |k: int| 0 <= k < i + 1 && first_address(self.provers@, k),
                    ) =~= pre);
                }
            }
            i = i + 1;
        }
        count
    }
}

/// Whether the address at `i` appears nowhere earlier in the registry.
pub open spec fn first_address(ps: Seq<ProverEntry>, i: int) -> bool {
    forall|j: int| 0 <= j < i ==> (#[trigger] ps[j].address@) != ps[i].address@
}

/// A set of indexes below a bound holds at most that many members.
pub proof fn lemma_set_bound(s: Set<int>, bound: int)
    requires
        0 <= bound,
        forall|k: int| s.contains(k) ==> 0 <= k < bound,
    ensures
        s.finite(),
        s.len() <= bound,
    decreases bound,
{
    if bound == 0 {
        assert(s =~= Set::<int>::empty());
    } else {
        let smaller = s.remove(bound - 1);
        assert(forall|k: int| smaller.contains(k) ==> 0 <= k < bound - 1);
        lemma_set_bound(smaller, bound - 1);
        if s.contains(bound - 1) {
            assert(s =~= smaller.insert(bound - 1));
        } else {
            assert(s =~= smaller);
        }
    }
}

} // verus!