//! Durable binary encoding of the PPLNS state: a magic header, a version
//! byte, the window size, the running total, and a length-prefixed queue of
//! shares, each a little-endian weight and a length-prefixed owner. Saving
//! and loading round-trip exactly; a malformed image is refused, never
//! silently reset.

use vstd::prelude::*;

use crate::pplns::{sum_values, PPLNS, Share};
use crate::util::{le_u64, lemma_le_u64_of_u64_le, push_u64_le, read_u64_le, u64_le};

verus! {

/// The four magic bytes that open a state image.
pub open spec fn state_magic() -> Seq<u8> {
    seq![0x50u8, 0x50u8, 0x4cu8, 0x4eu8]
}

/// The schema version this crate writes.
pub open spec fn state_version() -> u8 {
    1u8
}

/// One share on disk: weight, owner length, owner bytes.
pub open spec fn enc_share(s: (u64, Seq<u8>)) -> Seq<u8> {
    u64_le(s.0) + u64_le(s.1.len() as u64) + s.1
}

/// The queue on disk, share after share in queue order.
pub open spec fn enc_shares(q: Seq<(u64, Seq<u8>)>) -> Seq<u8>
    decreases q.len(),
{
    if q.len() == 0 {
        Seq::<u8>::empty()
    } else {
        enc_share(q.first()) + enc_shares(q.drop_first())
    }
}

/// The whole state on disk.
pub open spec fn enc_state(n: u64, current_n: u64, q: Seq<(u64, Seq<u8>)>) -> Seq<u8> {
    state_magic() + seq![state_version()] + u64_le(n) + u64_le(current_n) + u64_le(
        q.len() as u64,
    ) + enc_shares(q)
}

/// A state that the schema can hold: the PPLNS invariant, and lengths that
/// fit their 64-bit prefixes.
pub open spec fn encodable(n: u64, current_n: u64, q: Seq<(u64, Seq<u8>)>) -> bool {
    &&& current_n == sum_values(q)
    &&& current_n <= n
    &&& (n == 0 ==> q.len() == 0)
    &&& q.len() <= u64::MAX
    &&& forall|k: int| 0 <= k < q.len() ==> (#[trigger] q[k].1).len() <= u64::MAX
}

/// Read `cnt` shares starting at `pos`; the decoded shares and the position
/// after them, or nothing if the bytes do not hold that many.
pub open spec fn dec_shares(b: Seq<u8>, pos: int, cnt: int) -> Option<
    (Seq<(u64, Seq<u8>)>, int),
>
    decreases cnt,
{
    if cnt <= 0 {
        Some((Seq::<(u64, Seq<u8>)>::empty(), pos))
    } else if pos + 16 > b.len() {
        None
    } else {
        let v = le_u64(b.subrange(pos, pos + 8));
        let l = le_u64(b.subrange(pos + 8, pos + 16)) as int;
        if pos + 16 + l > b.len() {
            None
        } else {
            let owner = b.subrange(pos + 16, pos + 16 + l);
            match dec_shares(b, pos + 16 + l, cnt - 1) {
                Some((rest, end)) => Some((seq![(v, owner)] + rest, end)),
                None => None,
            }
        }
    }
}

/// Decode a whole state image: header, counters, queue, nothing after, and
/// the PPLNS invariant re-established; anything else is refused.
pub open spec fn dec_state(b: Seq<u8>) -> Option<(u64, u64, Seq<(u64, Seq<u8>)>)> {
    if b.len() < 29 {
        None
    } else if b.subrange(0, 4) != state_magic() || b[4] != state_version() {
        None
    } else {
        let n = le_u64(b.subrange(5, 13));
        let current_n = le_u64(b.subrange(13, 21));
        let cnt = le_u64(b.subrange(21, 29));
        match dec_shares(b, 29, cnt as int) {
            Some((q, end)) => {
                if end == b.len() && encodable(n, current_n, q) {
                    Some((n, current_n, q))
                } else {
                    None
                }
            },
            None => None,
        }
    }
}

/// Why a state image was refused.
#[derive(Clone, Copy, PartialEq, Eq, Structural, Debug)]
pub enum LoadError {
    Malformed,
}

impl PPLNS {
    /// The state as bytes, ready to be written to disk.
    pub fn save(&self) -> (r: Vec<u8>)
        ensures
            r@ == enc_state(self.n, self.current_n, self.queue_view()),
    {
        let ghost qv = self.queue_view();
        let mut out: Vec<u8> = Vec::new();
        out.push(0x50);
        out.push(0x50);
        out.push(0x4c);
        out.push(0x4e);
        out.push(1);
        push_u64_le(&mut out, self.n);
        push_u64_le(&mut out, self.current_n);
        push_u64_le(&mut out, self.queue.len() as u64);
        let ghost head = out@;
        proof {
            assert(head =~= state_magic() + seq![state_version()] + u64_le(self.n) + u64_le(
                self.current_n,
            ) + u64_le(qv.len() as u64));
        }
        let mut i: usize = 0;
        proof {
            assert(qv.subrange(0, qv.len() as int) =~= qv);
        }
        while i < self.queue.len()
            invariant
                i <= self.queue.len(),
                qv == self.queue_view(),
                head == state_magic() + seq![state_version()] + u64_le(self.n) + u64_le(
                    self.current_n,
                ) + u64_le(qv.len() as u64),
                out@ + enc_shares(qv.subrange(i as int, qv.len() as int)) == head + enc_shares(
                    qv,
                ),
            decreases self.queue.len() - i,
        {
            let ghost rest = qv.subrange(i as int, qv.len() as int);
            proof {
                assert(qv[i as int] == self.queue@[i as int]@);
                assert(rest.first() == qv[i as int]);
                assert(rest.drop_first() =~= qv.subrange(i as int + 1, qv.len() as int));
                assert(enc_shares(rest) == enc_share(qv[i as int]) + enc_shares(
                    qv.subrange(i as int + 1, qv.len() as int),
                ));
            }
            let ghost pre = out@;
            push_u64_le(&mut out, self.queue[i].value);
            push_u64_le(&mut out, self.queue[i].owner.len() as u64);
            crate::util::bytes_extend(&mut out, &self.queue[i].owner);
            proof {
                assert(out@ =~= pre + enc_share(qv[i as int]));
                assert(out@ + enc_shares(qv.subrange(i as int + 1, qv.len() as int)) =~= pre
                    + enc_shares(rest));
            }
            i = i + 1;
        }
        proof {
            assert(qv.subrange(qv.len() as int, qv.len() as int)
                =~= Seq::<(u64, Seq<u8>)>::empty());
            assert(out@ + Seq::<u8>::empty() =~= out@);
            assert(out@ =~= enc_state(self.n, self.current_n, qv));
        }
        out
    }

    /// Rebuild a state from the bytes read from disk; a missing file loads
    /// as the empty state, and a malformed image is refused.
    #[verifier::loop_isolation(false)]
    pub fn load(data: Option<&Vec<u8>>) -> (r: Result<PPLNS, LoadError>)
        ensures
            match data {
                None => match r {
                    Ok(s) => s.wf() && s@ == (0u64, 0u64, Seq::<(u64, Seq<u8>)>::empty()),
                    Err(_) => false,
                },
                Some(b) => match dec_state(b@) {
                    Some(st) => match r {
                        Ok(s) => s.wf() && s@ == st,
                        Err(_) => false,
                    },
                    None => r is Err,
                },
            },
    {
        let bytes = match data {
            None => {
                return Ok(PPLNS::empty());
            },
            Some(b) => b,
        };
        let total_len = bytes.len();
        if total_len < 29 {
            return Err(LoadError::Malformed);
        }
        if bytes[0] != 0x50 || bytes[1] != 0x50 || bytes[2] != 0x4c || bytes[3] != 0x4e {
            proof {
                assert(bytes@.subrange(0, 4) != state_magic()) by {
                    if bytes@.subrange(0, 4) == state_magic() {
                        assert(bytes@[0] == state_magic()[0]);
                        assert(bytes@[1] == state_magic()[1]);
                        assert(bytes@[2] == state_magic()[2]);
                        assert(bytes@[3] == state_magic()[3]);
                    }
                }
            }
            return Err(LoadError::Malformed);
        }
        proof {
            assert(bytes@.subrange(0, 4) =~= state_magic());
        }
        if bytes[4] != 1 {
            return Err(LoadError::Malformed);
        }
        let n = read_u64_le(bytes, 5);
        let current_n = read_u64_le(bytes, 13);
        let cnt = read_u64_le(bytes, 21);
        let ghost b = bytes@;
        let mut queue: Vec<Share> = Vec::new();
        let mut sum: u128 = 0;
        let mut k: u64 = 0;
        let mut pos: usize = 29;
        proof {
            assert(queue@.map_values(|s: Share| s@) =~= Seq::<(u64, Seq<u8>)>::empty());
        }
        while k < cnt
            invariant
                b == bytes@,
                b.len() == total_len,
                29 <= pos <= total_len,
                k <= cnt,
                sum <= u64::MAX,
                sum == sum_values(queue@.map_values(|s: Share| s@)),
                queue@.len() == k,
                forall|j: int|
                    0 <= j < queue@.len() ==> (#[trigger] queue@[j].owner@).len() <= u64::MAX,
                dec_shares(b, 29, cnt as int) == (match dec_shares(b, pos as int, cnt - k) {
                    Some((rest, end)) => Some(
                        (queue@.map_values(|s: Share| s@) + rest, end),
                    ),
                    None => None::<(Seq<(u64, Seq<u8>)>, int)>,
                }),
            decreases cnt - k,
        {
            let ghost acc = queue@.map_values(|s: Share| s@);
            if pos > total_len - 16 {
                proof {
                    assert(dec_shares(b, pos as int, cnt - k) is None);
                }
                return Err(LoadError::Malformed);
            }
            let value = read_u64_le(bytes, pos);
            let owner_len = read_u64_le(bytes, pos + 8);
            if owner_len > (total_len - pos - 16) as u64 {
                proof {
                    assert(pos + 16 + owner_len > b.len());
                    assert(dec_shares(b, pos as int, cnt - k) is None);
                }
                return Err(LoadError::Malformed);
            }
            let olen = owner_len as usize;
            let owner = crate::util::bytes_slice(bytes, pos + 16, pos + 16 + olen);
            let new_pos = pos + 16 + olen;
            let ghost entry = (value, b.subrange(pos as int + 16, pos as int + 16 + olen as int));
            proof {
                assert(dec_shares(b, pos as int, cnt - k) == (match dec_shares(
                    b,
                    new_pos as int,
                    cnt - k - 1,
                ) {
                    Some((rest, end)) => Some((seq![entry] + rest, end)),
                    None => None::<(Seq<(u64, Seq<u8>)>, int)>,
                }));
            }
            let new_sum = sum + value as u128;
            if new_sum > u64::MAX as u128 {
                proof {
                    let rest_opt = dec_shares(b, new_pos as int, cnt - k - 1);
                    if rest_opt is Some {
                        let (rest, end) = rest_opt->Some_0;
                        let q = acc + (seq![entry] + rest);
                        crate::pplns::lemma_sum_values_concat(seq![entry], rest);
                        crate::pplns::lemma_sum_values_concat(acc, seq![entry] + rest);
                        crate::pplns::lemma_sum_values_nonneg(rest);
                        crate::pplns::lemma_sum_values_nonneg(acc);
                        assert(seq![entry].drop_last() =~= Seq::<(u64, Seq<u8>)>::empty());
                        assert(sum_values(Seq::<(u64, Seq<u8>)>::empty()) == 0);
                        assert(sum_values(seq![entry]) == entry.0);
                        assert(sum_values(q) > u64::MAX);
                        assert(!encodable(n, current_n, q));
                        assert(dec_state(b) is None);
                    } else {
                        assert(dec_state(b) is None);
                    }
                }
                return Err(LoadError::Malformed);
            }
            queue.push(Share { value, owner });
            sum = new_sum;
            k = k + 1;
            pos = new_pos;
            proof {
                assert(queue@.map_values(|s: Share| s@) =~= acc.push(entry));
                crate::pplns::lemma_sum_values_concat(acc, seq![entry]);
                assert(seq![entry].drop_last() =~= Seq::<(u64, Seq<u8>)>::empty());
                assert(sum_values(Seq::<(u64, Seq<u8>)>::empty()) == 0);
                assert(sum_values(seq![entry]) == entry.0);
                assert(acc.push(entry) =~= acc + seq![entry]);
                assert(forall|rest: Seq<(u64, Seq<u8>)>|
                    acc + (seq![entry] + rest) =~= #[trigger] (acc + seq![entry] + rest));
            }
        }
        proof {
            assert(dec_shares(b, pos as int, 0) == Some(
                (Seq::<(u64, Seq<u8>)>::empty(), pos as int),
            ));
            assert(queue@.map_values(|s: Share| s@) + Seq::<(u64, Seq<u8>)>::empty()
                =~= queue@.map_values(|s: Share| s@));
        }
        if pos != total_len {
            return Err(LoadError::Malformed);
        }
        if (current_n as u128) != sum || current_n > n {
            return Err(LoadError::Malformed);
        }
        if n == 0 && queue.len() > 0 {
            return Err(LoadError::Malformed);
        }
        let st = PPLNS { queue, n, current_n };
        proof {
            assert(st.wf());
            assert(encodable(n, current_n, st.queue_view()));
        }
        Ok(st)
    }
}

/// Reading back an encoded queue of shares finds exactly that queue.
proof fn lemma_dec_shares_round_trip(b: Seq<u8>, pos: int, q: Seq<(u64, Seq<u8>)>)
    requires
        0 <= pos,
        pos + enc_shares(q).len() <= b.len(),
        b.subrange(pos, pos + enc_shares(q).len()) == enc_shares(q),
        forall|k: int| 0 <= k < q.len() ==> (#[trigger] q[k].1).len() <= u64::MAX,
    ensures
        dec_shares(b, pos, q.len() as int) == Some((q, pos + enc_shares(q).len())),
    decreases q.len(),
{
    if q.len() == 0 {
    } else {
        let v = q.first().0;
        let owner = q.first().1;
        let l = owner.len() as int;
        let e0 = enc_share(q.first());
        let rest_enc = enc_shares(q.drop_first());
        assert(enc_shares(q) == e0 + rest_enc);
        assert(e0.len() == 16 + l);
        assert(q.first() == q[0]);
        assert(owner.len() <= u64::MAX);
        let whole = b.subrange(pos, pos + enc_shares(q).len());
        assert(whole == e0 + rest_enc);
        assert(b.subrange(pos, pos + 8) =~= whole.subrange(0, 8));
        assert(whole.subrange(0, 8) =~= u64_le(v));
        crate::util::lemma_le_u64_of_u64_le(v);
        assert(b.subrange(pos + 8, pos + 16) =~= whole.subrange(8, 16));
        assert(whole.subrange(8, 16) =~= u64_le(owner.len() as u64));
        crate::util::lemma_le_u64_of_u64_le(owner.len() as u64);
        assert(le_u64(b.subrange(pos + 8, pos + 16)) as int == l);
        assert(b.subrange(pos + 16, pos + 16 + l) =~= whole.subrange(16, 16 + l));
        assert(whole.subrange(16, 16 + l) =~= owner);
        let pos1 = pos + 16 + l;
        assert(b.subrange(pos1, pos1 + rest_enc.len() as int) =~= whole.subrange(
            16 + l,
            whole.len() as int,
        ));
        assert(whole.subrange(16 + l, whole.len() as int) =~= rest_enc);
        lemma_dec_shares_round_trip(b, pos1, q.drop_first());
        assert(seq![(v, owner)] + q.drop_first() =~= q);
    }
}

/// Loading a saved state finds exactly the saved state.
pub proof fn lemma_state_round_trip(n: u64, current_n: u64, q: Seq<(u64, Seq<u8>)>)
    requires
        encodable(n, current_n, q),
    ensures
        dec_state(enc_state(n, current_n, q)) == Some((n, current_n, q)),
{
    let b = enc_state(n, current_n, q);
    assert(b.len() == 29 + enc_shares(q).len());
    assert(b.subrange(0, 4) =~= state_magic());
    assert(b[4] == state_version());
    assert(b.subrange(5, 13) =~= u64_le(n));
    assert(b.subrange(13, 21) =~= u64_le(current_n));
    assert(b.subrange(21, 29) =~= u64_le(q.len() as u64));
    lemma_le_u64_of_u64_le(n);
    lemma_le_u64_of_u64_le(current_n);
    lemma_le_u64_of_u64_le(q.len() as u64);
    assert(b.subrange(29, 29 + enc_shares(q).len() as int) =~= enc_shares(q));
    lemma_dec_shares_round_trip(b, 29, q);
}

} // verus!
