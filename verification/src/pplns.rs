//! PPLNS (Pay-Per-Last-N-Shares) accounting: a bounded FIFO of weighted
//! shares. The window size `n` bounds the total weight `current_n`; when an
//! insertion or a shrink of the window overflows the bound, shares are
//! dropped from the head (the oldest first) until the bound holds again.

use vstd::prelude::*;

verus! {

/// One accepted share: a difficulty-derived weight and the owner's account
/// address, kept as its raw bytes.
pub struct Share {
    pub value: u64,
    pub owner: Vec<u8>,
}

impl Share {
    /// The pair the share stands for: its weight and its owner's bytes.
    pub open spec fn view(self) -> (u64, Seq<u8>) {
        (self.value, self.owner@)
    }

    pub fn init(value: u64, owner: Vec<u8>) -> (s: Share)
        ensures
            s@ == (value, owner@),
    {
        Share { value, owner }
    }

    /// A field-for-field copy.
    pub fn duplicate(&self) -> (s: Share)
        ensures
            s@ == self@,
    {
        let mut bytes: Vec<u8> = Vec::new();
        let mut i: usize = 0;
        while i < self.owner.len()
            invariant
                i <= self.owner.len(),
                bytes@ == self.owner@.subrange(0, i as int),
            decreases self.owner.len() - i,
        {
            bytes.push(self.owner[i]);
            i = i + 1;
        }
        assert(bytes@ == self.owner@);
        Share { value: self.value, owner: bytes }
    }
}

/// Total weight of a queue of shares.
pub open spec fn sum_values(q: Seq<(u64, Seq<u8>)>) -> int
    decreases q.len(),
{
    if q.len() == 0 {
        0
    } else {
        sum_values(q.drop_last()) + q.last().0
    }
}

pub proof fn lemma_sum_values_nonneg(q: Seq<(u64, Seq<u8>)>)
    ensures
        sum_values(q) >= 0,
    decreases q.len(),
{
    if q.len() > 0 {
        lemma_sum_values_nonneg(q.drop_last());
    }
}

/// Summing from the front: the total is the head's weight plus the rest.
pub proof fn lemma_sum_values_drop_first(q: Seq<(u64, Seq<u8>)>)
    requires
        q.len() > 0,
    ensures
        sum_values(q) == q[0].0 + sum_values(q.drop_first()),
    decreases q.len(),
{
    if q.len() == 1 {
        assert(q.drop_first() =~= Seq::<(u64, Seq<u8>)>::empty());
        assert(q.drop_last() =~= Seq::<(u64, Seq<u8>)>::empty());
        assert(sum_values(q.drop_first()) == 0);
        assert(sum_values(q) == sum_values(q.drop_last()) + q.last().0);
        assert(q.last() == q[0]);
    } else {
        lemma_sum_values_drop_first(q.drop_last());
        assert(q.drop_last().drop_first() =~= q.drop_first().drop_last());
        assert(q.drop_first().last() == q.last());
        assert(q.drop_last()[0] == q[0]);
        assert(sum_values(q) == sum_values(q.drop_last()) + q.last().0);
        assert(sum_values(q.drop_first()) == sum_values(q.drop_first().drop_last())
            + q.drop_first().last().0);
    }
}

pub proof fn lemma_sum_values_concat(a: Seq<(u64, Seq<u8>)>, b: Seq<(u64, Seq<u8>)>)
    ensures
        sum_values(a + b) == sum_values(a) + sum_values(b),
    decreases b.len(),
{
    if b.len() == 0 {
        assert(a + b =~= a);
    } else {
        lemma_sum_values_concat(a, b.drop_last());
        assert((a + b).drop_last() =~= a + b.drop_last());
        assert((a + b).last() == b.last());
    }
}

/// The longest suffix of `q` whose total weight is at most `n`.
pub open spec fn drained(q: Seq<(u64, Seq<u8>)>, n: u64) -> Seq<(u64, Seq<u8>)>
    decreases q.len(),
{
    if sum_values(q) <= n {
        q
    } else if q.len() == 0 {
        q
    } else {
        drained(q.drop_first(), n)
    }
}

/// The weight that one owner holds in the queue.
pub open spec fn owner_sum(q: Seq<(u64, Seq<u8>)>, owner: Seq<u8>) -> int
    decreases q.len(),
{
    if q.len() == 0 {
        0
    } else {
        owner_sum(q.drop_last(), owner) + if q.last().1 == owner {
            q.last().0 as int
        } else {
            0
        }
    }
}

pub proof fn lemma_owner_sum_le_sum(q: Seq<(u64, Seq<u8>)>, owner: Seq<u8>)
    ensures
        0 <= owner_sum(q, owner) <= sum_values(q),
    decreases q.len(),
{
    if q.len() > 0 {
        lemma_owner_sum_le_sum(q.drop_last(), owner);
    }
}

/// The PPLNS state: the share queue in insertion order, the window size `n`,
/// and the running total `current_n` of the queued weights.
pub struct PPLNS {
    pub queue: Vec<Share>,
    pub n: u64,
    pub current_n: u64,
}

impl PPLNS {
    /// The state the struct stands for: window size, running total, and the
    /// queue as weight/owner pairs in order.
    pub open spec fn view(self) -> (u64, u64, Seq<(u64, Seq<u8>)>) {
        (self.n, self.current_n, self.queue@.map_values(|s: Share| s@))
    }

    pub open spec fn queue_view(self) -> Seq<(u64, Seq<u8>)> {
        self.queue@.map_values(|s: Share| s@)
    }

    /// The state invariant: the running total is the sum of the queued
    /// weights, it never exceeds the window, and a zero window holds nothing.
    pub open spec fn wf(self) -> bool {
        &&& self.current_n == sum_values(self.queue_view())
        &&& self.current_n <= self.n
        &&& (self.n == 0 ==> self.queue_view().len() == 0)
    }

    /// An empty state with a zero window.
    pub fn empty() -> (s: PPLNS)
        ensures
            s.wf(),
            s@ == (0u64, 0u64, Seq::<(u64, Seq<u8>)>::empty()),
    {
        let s = PPLNS { queue: Vec::new(), n: 0, current_n: 0 };
        proof {
            assert(s.queue_view() =~= Seq::<(u64, Seq<u8>)>::empty());
        }
        s
    }

    /// Set the window size. When the window shrinks below the queued total,
    /// shares are dropped from the head until the total fits; a zero window
    /// clears the queue entirely.
    pub fn set_n(&mut self, n: u64)
        requires
            old(self).wf(),
        ensures
            final(self).wf(),
            final(self).n == n,
            final(self).queue_view() == if n == 0 {
                Seq::<(u64, Seq<u8>)>::empty()
            } else {
                drained(old(self).queue_view(), n)
            },
    {
        if n == 0 {
            self.queue = Vec::new();
            self.current_n = 0;
            self.n = 0;
            proof {
                assert(self.queue_view() =~= Seq::<(u64, Seq<u8>)>::empty());
            }
            return;
        }
        let ghost q0 = self.queue_view();
        if n < self.n {
            while self.current_n > n
                invariant
                    self.n == old(self).n,
                    self.current_n == sum_values(self.queue_view()),
                    drained(q0, n) == drained(self.queue_view(), n),
                decreases self.queue.len(),
            {
                proof {
                    lemma_sum_values_nonneg(self.queue_view().drop_first());
                    if self.queue.len() == 0 {
                        assert(self.queue_view() =~= Seq::<(u64, Seq<u8>)>::empty());
                        assert(sum_values(self.queue_view()) == 0);
                    }
                    lemma_sum_values_drop_first(self.queue_view());
                }
                let ghost qv = self.queue_view();
                let s = self.queue.remove(0);
                proof {
                    assert(self.queue_view() =~= qv.drop_first());
                    assert(s.value == qv[0].0);
                }
                self.current_n = self.current_n - s.value;
            }
            proof {
                assert(drained(self.queue_view(), n) == self.queue_view());
            }
        } else {
            proof {
                assert(sum_values(q0) <= n);
                assert(drained(q0, n) == q0);
            }
        }
        self.n = n;
    }

    /// Append a share at the tail, add its weight, and drop shares from the
    /// head until the total fits the window again. With a zero window the
    /// queue stays empty.
    pub fn add_share(&mut self, share: Share)
        requires
            old(self).wf(),
        ensures
            final(self).wf(),
            final(self).n == old(self).n,
            final(self).queue_view() == if old(self).n == 0 {
                Seq::<(u64, Seq<u8>)>::empty()
            } else {
                drained(old(self).queue_view().push(share@), old(self).n)
            },
    {
        if self.n == 0 {
            self.queue = Vec::new();
            self.current_n = 0;
            proof {
                assert(self.queue_view() =~= Seq::<(u64, Seq<u8>)>::empty());
            }
            return;
        }
        let ghost q0 = self.queue_view();
        let ghost sv = share@;
        let value = share.value;
        self.queue.push(share);
        proof {
            assert(self.queue_view() =~= q0.push(sv));
            assert(q0.push(sv).drop_last() =~= q0);
            assert(sum_values(q0.push(sv)) == sum_values(q0) + sv.0);
        }
        let mut total: u128 = self.current_n as u128 + value as u128;
        while total > self.n as u128
            invariant
                self.n == old(self).n,
                self.n > 0,
                total == sum_values(self.queue_view()),
                drained(q0.push(sv), self.n) == drained(self.queue_view(), self.n),
            decreases self.queue.len(),
        {
            proof {
                lemma_sum_values_nonneg(self.queue_view().drop_first());
                if self.queue.len() == 0 {
                    assert(self.queue_view() =~= Seq::<(u64, Seq<u8>)>::empty());
                    assert(sum_values(self.queue_view()) == 0);
                }
                lemma_sum_values_drop_first(self.queue_view());
            }
            let ghost qv = self.queue_view();
            let s = self.queue.remove(0);
            proof {
                assert(self.queue_view() =~= qv.drop_first());
                assert(s.value == qv[0].0);
            }
            total = total - s.value as u128;
        }
        proof {
            assert(drained(self.queue_view(), self.n) == self.queue_view());
            lemma_sum_values_nonneg(self.queue_view());
        }
        self.current_n = total as u64;
    }
}

pub proof fn lemma_sum_values_prefix(q: Seq<(u64, Seq<u8>)>, m: int)
    requires
        0 <= m <= q.len(),
    ensures
        sum_values(q.subrange(0, m)) <= sum_values(q),
    decreases q.len() - m,
{
    if m == q.len() {
        assert(q.subrange(0, m) =~= q);
    } else {
        lemma_sum_values_prefix(q, m + 1);
        assert(q.subrange(0, m) =~= q.subrange(0, m + 1).drop_last());
        assert(sum_values(q.subrange(0, m + 1)) == sum_values(q.subrange(0, m + 1).drop_last())
            + q.subrange(0, m + 1).last().0);
    }
}

/// An owner that never occurs in the queue holds no weight.
pub proof fn lemma_owner_sum_absent(q: Seq<(u64, Seq<u8>)>, owner: Seq<u8>)
    requires
        forall|k: int| 0 <= k < q.len() ==> q[k].1 != owner,
    ensures
        owner_sum(q, owner) == 0,
    decreases q.len(),
{
    if q.len() > 0 {
        lemma_owner_sum_absent(q.drop_last(), owner);
    }
}

/// Whether some queued share belongs to `owner`.
pub open spec fn queue_has_owner(q: Seq<(u64, Seq<u8>)>, owner: Seq<u8>) -> bool {
    exists|k: int| 0 <= k < q.len() && q[k].1 == owner
}

/// Whether the aggregation table holds a row for `owner`.
pub open spec fn table_has_owner(t: Seq<(Vec<u8>, u64)>, owner: Seq<u8>) -> bool {
    exists|i: int| 0 <= i < t.len() && t[i].0@ == owner
}

/// Index of the entry that holds `owner`, if one does.
fn find_owner(out: &Vec<(Vec<u8>, u64)>, owner: &Vec<u8>) -> (r: Option<usize>)
    ensures
        match r {
            Some(j) => j < out@.len() && out@[j as int].0@ == owner@,
            None => forall|j: int| 0 <= j < out@.len() ==> out@[j].0@ != owner@,
        },
{
    let mut j: usize = 0;
    while j < out.len()
        invariant
            j <= out.len(),
            forall|k: int| 0 <= k < j ==> out@[k].0@ != owner@,
        decreases out.len() - j,
    {
        if crate::util::bytes_eq(&out[j].0, owner) {
            return Some(j);
        }
        j = j + 1;
    }
    None
}

/// The aggregation table is exactly the queue grouped by owner: keys are
/// the distinct owners, each with the total weight it holds.
pub open spec fn shares_table_ok(
    q: Seq<(u64, Seq<u8>)>,
    count: u32,
    t: Seq<(Vec<u8>, u64)>,
) -> bool {
    &&& count == t.len()
    &&& forall|i: int, j: int| 0 <= i < j < t.len() ==> t[i].0@ != t[j].0@
    &&& forall|i: int| 0 <= i < t.len() ==> t[i].1 == owner_sum(q, t[i].0@)
    &&& forall|i: int| 0 <= i < t.len() ==> queue_has_owner(q, #[trigger] t[i].0@)
    &&& forall|k: int| 0 <= k < q.len() ==> table_has_owner(t, #[trigger] q[k].1)
}

/// Aggregate the queue by owner: the number of distinct owners and, for each,
/// the total weight it holds. This is the only way callers see share weights.
pub fn pplns_to_provers_shares(p: &PPLNS) -> (r: (u32, Vec<(Vec<u8>, u64)>))
    requires
        p.wf(),
        p.queue@.len() <= 0xffff_ffff,
    ensures
        shares_table_ok(p.queue_view(), r.0, r.1@),
        r.0 == r.1@.len(),
        forall|i: int, j: int|
            0 <= i < j < r.1@.len() ==> r.1@[i].0@ != r.1@[j].0@,
        forall|i: int|
            0 <= i < r.1@.len() ==> r.1@[i].1 == owner_sum(p.queue_view(), r.1@[i].0@),
        forall|i: int|
            0 <= i < r.1@.len() ==> queue_has_owner(p.queue_view(), #[trigger] r.1@[i].0@),
        forall|k: int|
            0 <= k < p.queue_view().len() ==> table_has_owner(
                r.1@,
                #[trigger] p.queue_view()[k].1,
            ),
{
    let ghost q = p.queue_view();
    let mut out: Vec<(Vec<u8>, u64)> = Vec::new();
    let mut i: usize = 0;
    proof {
        assert(q.subrange(0, 0) =~= Seq::<(u64, Seq<u8>)>::empty());
    }
    while i < p.queue.len()
        invariant
            p.wf(),
            i <= p.queue.len(),
            q == p.queue_view(),
            out@.len() <= i,
            forall|a: int, b: int| 0 <= a < b < out@.len() ==> out@[a].0@ != out@[b].0@,
            forall|a: int|
                0 <= a < out@.len() ==> out@[a].1 == owner_sum(
                    q.subrange(0, i as int),
                    out@[a].0@,
                ),
            forall|a: int|
                0 <= a < out@.len() ==> queue_has_owner(
                    q.subrange(0, i as int),
                    #[trigger] out@[a].0@,
                ),
            forall|k: int| 0 <= k < i ==> table_has_owner(out@, #[trigger] q[k].1),
        decreases p.queue.len() - i,
    {
        let value = p.queue[i].value;
        let ghost prefix = q.subrange(0, i as int);
        let ghost prefix1 = q.subrange(0, i as int + 1);
        proof {
            assert(q[i as int] == p.queue@[i as int]@);
            assert(prefix1.drop_last() =~= prefix);
            assert(prefix1.last() == q[i as int]);
            assert(forall|o: Seq<u8>|
                owner_sum(prefix1, o) == owner_sum(prefix, o) + if q[i as int].1 == o {
                    q[i as int].0 as int
                } else {
                    0
                });
            assert(forall|k: int| 0 <= k < prefix.len() ==> prefix1[k] == #[trigger] prefix[k]);
            lemma_sum_values_prefix(q, i as int + 1);
        }
        match find_owner(&out, &p.queue[i].owner) {
            Some(j) => {
                proof {
                    lemma_owner_sum_le_sum(prefix1, q[i as int].1);
                }
                let ghost before = out@;
                let entry = out.remove(j);
                let new_val = entry.1 + value;
                out.insert(j, (entry.0, new_val));
                proof {
                    assert(out@.len() == before.len());
                    assert(forall|a: int|
                        0 <= a < out@.len() && a != j ==> #[trigger] out@[a] == before[a]);
                    assert(out@[j as int].0@ == before[j as int].0@);
                    assert(out@[j as int].1 == before[j as int].1 + value);
                    assert(forall|a: int|
                        0 <= a < out@.len() ==> #[trigger] out@[a].0@ == before[a].0@);
                    assert(forall|a: int|
                        0 <= a < out@.len() ==> out@[a].1 == owner_sum(prefix1, out@[a].0@)) by {
                        assert(forall|a: int|
                            0 <= a < out@.len() && a != j ==> out@[a].0@ != q[i as int].1);
                    }
                    assert forall|k: int| 0 <= k < i + 1 implies table_has_owner(
                        out@,
                        #[trigger] q[k].1,
                    ) by {
                        if k < i {
                            let a = choose|a: int|
                                0 <= a < before.len() && #[trigger] before[a].0@ == q[k].1;
                            assert(out@[a].0@ == q[k].1);
                        } else {
                            assert(out@[j as int].0@ == q[i as int].1);
                        }
                    }
                    assert forall|a: int| 0 <= a < out@.len() implies queue_has_owner(
                        prefix1,
                        #[trigger] out@[a].0@,
                    ) by {
                        let kk = choose|kk: int|
                            0 <= kk < prefix.len() && #[trigger] prefix[kk].1 == before[a].0@;
                        assert(prefix1[kk].1 == out@[a].0@);
                    }
                }
            },
            None => {
                proof {
                    lemma_owner_sum_absent(prefix, q[i as int].1);
                }
                let ghost before = out@;
                let owner_copy = crate::util::bytes_dup(&p.queue[i].owner);
                out.push((owner_copy, value));
                proof {
                    assert(out@.len() == before.len() + 1);
                    assert(forall|a: int|
                        0 <= a < before.len() ==> #[trigger] out@[a] == before[a]);
                    assert(out@[before.len() as int].0@ == q[i as int].1);
                    assert(out@[before.len() as int].1 == value);
                    assert forall|k: int| 0 <= k < i + 1 implies table_has_owner(
                        out@,
                        #[trigger] q[k].1,
                    ) by {
                        if k < i {
                            let a = choose|a: int|
                                0 <= a < before.len() && #[trigger] before[a].0@ == q[k].1;
                            assert(out@[a].0@ == q[k].1);
                        } else {
                            assert(out@[before.len() as int].0@ == q[i as int].1);
                        }
                    }
                    assert forall|a: int| 0 <= a < out@.len() implies queue_has_owner(
                        prefix1,
                        #[trigger] out@[a].0@,
                    ) by {
                        if a < before.len() {
                            let kk = choose|kk: int|
                                0 <= kk < prefix.len() && #[trigger] prefix[kk].1 == before[a].0@;
                            assert(prefix1[kk].1 == out@[a].0@);
                        } else {
                            assert(prefix1[i as int].1 == out@[a].0@);
                        }
                    }
                    assert(owner_sum(prefix, q[i as int].1) == 0);
                    assert(forall|a: int|
                        0 <= a < out@.len() ==> out@[a].1 == owner_sum(prefix1, out@[a].0@)) by {
                        assert(forall|a: int|
                            0 <= a < before.len() ==> out@[a].0@ != q[i as int].1);
                    }
                }
            },
        }
        i = i + 1;
        proof {
            assert(q.subrange(0, i as int) =~= prefix1);
        }
    }
    proof {
        assert(q.subrange(0, i as int) =~= q);
    }
    let count = out.len() as u32;
    (count, out)
}

} // verus!
