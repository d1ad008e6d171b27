//! Boundary census per plate pair: how many boundary contacts each unordered pair of plates
//! shares, and how many of them are continent against continent.
use crate::census::{count_upto, lemma_count_upto_le};
use vstd::prelude::*;

verus! {

/// The unordered plate pair of a contact `(plate, other plate, both sides continental)`,
/// smaller plate first.
pub open spec fn pair_of(c: (u32, u32, bool)) -> (u32, u32) {
    if c.0 <= c.1 {
        (c.0, c.1)
    } else {
        (c.1, c.0)
    }
}

/// Strict lexicographic order on plate pairs.
pub open spec fn pair_lt(a: (u32, u32), b: (u32, u32)) -> bool {
    a.0 < b.0 || (a.0 == b.0 && a.1 < b.1)
}

/// Contact `j` lies on the boundary between the plates of pair `k`.
pub open spec fn touches(contacts: Seq<(u32, u32, bool)>, k: (u32, u32)) -> spec_fn(int) -> bool {
    |j: int| pair_of(contacts[j]) == k
}

/// Contact `j` lies on the boundary of pair `k` and is continent against continent.
pub open spec fn touches_cc(contacts: Seq<(u32, u32, bool)>, k: (u32, u32)) -> spec_fn(
    int,
) -> bool {
    |j: int| pair_of(contacts[j]) == k && contacts[j].2
}

/// What one plate pair's boundary holds.
pub struct PairTally {
    /// The smaller plate of the pair.
    pub lo: u32,
    /// The larger plate of the pair.
    pub hi: u32,
    /// Boundary contacts between the two plates.
    pub contacts: usize,
    /// Of those, contacts with continental crust on both sides.
    pub cc: usize,
}

impl PairTally {
    pub open spec fn key(self) -> (u32, u32) {
        (self.lo, self.hi)
    }
}

/// The census: one tally per plate pair that has a contact, in increasing pair order, and for
/// each contact the position of its pair's tally.
pub struct PairCensus {
    pub pairs: Vec<PairTally>,
    pub slot: Vec<usize>,
}

fn pair_less(a: (u32, u32), b: (u32, u32)) -> (r: bool)
    ensures
        r == pair_lt(a, b),
{
    a.0 < b.0 || (a.0 == b.0 && a.1 < b.1)
}

fn key_of(c: (u32, u32, bool)) -> (k: (u32, u32))
    ensures
        k == pair_of(c),
{
    if c.0 <= c.1 {
        (c.0, c.1)
    } else {
        (c.1, c.0)
    }
}

/// `keys` is strictly increasing.
pub open spec fn strictly_sorted(keys: Seq<(u32, u32)>) -> bool {
    forall|i: int, j: int| 0 <= i < j < keys.len() ==> pair_lt(#[trigger] keys[i], #[trigger] keys[j])
}

/// Some contact among the first `n` lies on the boundary of pair `k`.
pub open spec fn seen(contacts: Seq<(u32, u32, bool)>, n: int, k: (u32, u32)) -> bool {
    exists|t: int| 0 <= t < n && #[trigger] pair_of(contacts[t]) == k
}

proof fn lemma_insert_sorted(keys: Seq<(u32, u32)>, p: int, k: (u32, u32))
    requires
        strictly_sorted(keys),
        0 <= p <= keys.len(),
        forall|q: int| 0 <= q < p ==> pair_lt(#[trigger] keys[q], k),
        p < keys.len() ==> pair_lt(k, keys[p]),
    ensures
        strictly_sorted(keys.insert(p, k)),
{
    let s = keys.insert(p, k);
    assert forall|a: int, b: int| 0 <= a < b < s.len() implies pair_lt(
        #[trigger] s[a],
        #[trigger] s[b],
    ) by {
        if b < p {
            assert(pair_lt(keys[a], keys[b]));
        } else if b == p {
            assert(pair_lt(keys[a], k));
        } else if a < p {
            assert(pair_lt(keys[a], k));
            if b - 1 > p {
                assert(pair_lt(keys[p], keys[b - 1]));
            }
        } else if a == p {
            if b - 1 > p {
                assert(pair_lt(keys[p], keys[b - 1]));
            }
        } else {
            assert(pair_lt(keys[a - 1], keys[b - 1]));
        }
    }
}

/// The distinct pairs of the contacts, in increasing order.
fn distinct_pairs(contacts: &Vec<(u32, u32, bool)>) -> (keys: Vec<(u32, u32)>)
    ensures
        strictly_sorted(keys@),
        forall|t: int| 0 <= t < contacts.len() ==> keys@.contains(#[trigger] pair_of(contacts[t])),
        forall|i: int| 0 <= i < keys.len() ==> seen(contacts@, contacts.len() as int, #[trigger] keys[i]),
{
    let mut keys: Vec<(u32, u32)> = Vec::new();
    let mut j: usize = 0;
    while j < contacts.len()
        invariant
            j <= contacts.len(),
            strictly_sorted(keys@),
            forall|t: int| 0 <= t < j ==> keys@.contains(#[trigger] pair_of(contacts[t])),
            forall|i: int| 0 <= i < keys.len() ==> seen(contacts@, j as int, #[trigger] keys[i]),
        decreases contacts.len() - j,
    {
        let k = key_of(contacts[j]);
        let mut p: usize = 0;
        while p < keys.len() && pair_less(keys[p], k)
            invariant
                p <= keys.len(),
                forall|q: int| 0 <= q < p ==> pair_lt(#[trigger] keys[q], k),
            decreases keys.len() - p,
        {
            p = p + 1;
        }
        let ghost old_keys = keys@;
        if p < keys.len() && keys[p].0 == k.0 && keys[p].1 == k.1 {
            assert(keys@[p as int] == k);
        } else {
            keys.insert(p, k);
            proof {
                lemma_insert_sorted(old_keys, p as int, k);
                assert(keys@ == old_keys.insert(p as int, k));
                assert(keys@[p as int] == k);
            }
        }
        assert(keys@.contains(k));
        proof {
            assert forall|t: int| 0 <= t < j + 1 implies keys@.contains(
                #[trigger] pair_of(contacts[t]),
            ) by {
                if t < j {
                    let i0 = choose|i: int| 0 <= i < old_keys.len() && old_keys[i] == pair_of(contacts[t]);
                    if keys@ =~= old_keys {
                        assert(keys@[i0] == pair_of(contacts[t]));
                    } else if i0 < p {
                        assert(keys@[i0] == pair_of(contacts[t]));
                    } else {
                        assert(keys@[i0 + 1] == pair_of(contacts[t]));
                    }
                }
            }
            assert forall|i: int| 0 <= i < keys.len() implies seen(
                contacts@,
                j + 1,
                #[trigger] keys[i],
            ) by {
                if keys@ =~= old_keys {
                    assert(seen(contacts@, j as int, old_keys[i]));
                } else if i < p {
                    assert(seen(contacts@, j as int, old_keys[i]));
                } else if i == p {
                    assert(pair_of(contacts@[j as int]) == keys[i]);
                } else {
                    assert(keys[i] == old_keys[i - 1]);
                    assert(seen(contacts@, j as int, old_keys[i - 1]));
                }
            }
        }
        j = j + 1;
    }
    keys
}

/// Contacts counted over all tallies.
pub open spec fn total_contacts(s: Seq<PairTally>) -> int
    decreases s.len(),
{
    if s.len() == 0 {
        0
    } else {
        total_contacts(s.drop_last()) + s.last().contacts
    }
}

proof fn lemma_total_bump(s: Seq<PairTally>, p: int, t: PairTally)
    requires
        0 <= p < s.len(),
        t.contacts == s[p].contacts + 1,
    ensures
        total_contacts(s.update(p, t)) == total_contacts(s) + 1,
    decreases s.len(),
{
    let u = s.update(p, t);
    if p == s.len() - 1 {
        assert(u.drop_last() =~= s.drop_last());
    } else {
        assert(u.drop_last() =~= s.drop_last().update(p, t));
        lemma_total_bump(s.drop_last(), p, t);
    }
}

proof fn lemma_total_zero(s: Seq<PairTally>)
    requires
        forall|i: int| 0 <= i < s.len() ==> (#[trigger] s[i]).contacts == 0,
    ensures
        total_contacts(s) == 0,
    decreases s.len(),
{
    if s.len() > 0 {
        lemma_total_zero(s.drop_last());
    }
}

/// Tally the boundary contacts by unordered plate pair. The result holds one tally for every
/// pair that has at least one contact and for no other, in strictly increasing pair order; each
/// tally counts exactly the contacts of its pair, and those of them that are continent against
/// continent. `slot[j]` is the position of the tally of contact `j`'s pair, so every contact is
/// counted on exactly one tally and the tallies add up to the number of contacts.
pub fn pair_census(contacts: &Vec<(u32, u32, bool)>) -> (r: PairCensus)
    ensures
        forall|i: int, j: int|
            0 <= i < j < r.pairs.len() ==> pair_lt(
                (#[trigger] r.pairs[i]).key(),
                (#[trigger] r.pairs[j]).key(),
            ),
        forall|i: int|
            0 <= i < r.pairs.len() ==> {
                &&& (#[trigger] r.pairs[i]).lo <= r.pairs[i].hi
                &&& r.pairs[i].contacts == count_upto(
                    contacts.len() as nat,
                    touches(contacts@, r.pairs[i].key()),
                )
                &&& r.pairs[i].cc == count_upto(
                    contacts.len() as nat,
                    touches_cc(contacts@, r.pairs[i].key()),
                )
                &&& r.pairs[i].contacts > 0
            },
        r.slot.len() == contacts.len(),
        forall|j: int|
            0 <= j < contacts.len() ==> {
                &&& #[trigger] r.slot[j] < r.pairs.len()
                &&& r.pairs[r.slot[j] as int].key() == pair_of(contacts[j])
            },
        total_contacts(r.pairs@) == contacts.len(),
{
    let keys = distinct_pairs(contacts);
    let n = contacts.len();
    let mut pairs: Vec<PairTally> = Vec::new();
    let mut i: usize = 0;
    while i < keys.len()
        invariant
            i <= keys.len(),
            pairs.len() == i,
            forall|q: int|
                0 <= q < i ==> {
                    &&& (#[trigger] pairs[q]).key() == keys[q]
                    &&& pairs[q].contacts == 0
                    &&& pairs[q].cc == 0
                },
        decreases keys.len() - i,
    {
        pairs.push(PairTally { lo: keys[i].0, hi: keys[i].1, contacts: 0, cc: 0 });
        i = i + 1;
    }
    proof {
        lemma_total_zero(pairs@);
    }
    let mut slot: Vec<usize> = Vec::new();
    let mut j: usize = 0;
    while j < n
        invariant
            n == contacts.len(),
            j <= n,
            pairs.len() == keys.len(),
            strictly_sorted(keys@),
            forall|t: int| 0 <= t < n ==> keys@.contains(#[trigger] pair_of(contacts[t])),
            forall|q: int|
                0 <= q < pairs.len() ==> {
                    &&& (#[trigger] pairs[q]).key() == keys[q]
                    &&& pairs[q].contacts == count_upto(j as nat, touches(contacts@, keys[q]))
                    &&& pairs[q].cc == count_upto(j as nat, touches_cc(contacts@, keys[q]))
                },
            slot.len() == j,
            total_contacts(pairs@) == j,
            forall|t: int|
                0 <= t < j ==> {
                    &&& #[trigger] slot[t] < pairs.len()
                    &&& pairs[slot[t] as int].key() == pair_of(contacts[t])
                },
        decreases n - j,
    {
        let k = key_of(contacts[j]);
        let cc = contacts[j].2;
        assert(keys@.contains(pair_of(contacts@[j as int])));
        let mut q: usize = 0;
        while !(keys[q].0 == k.0 && keys[q].1 == k.1)
            invariant
                keys@.contains(k),
                0 <= q < keys.len(),
                forall|x: int| 0 <= x < q ==> #[trigger] keys[x] != k,
            decreases keys.len() - q,
        {
            if q + 1 >= keys.len() {
                assert(false);
            }
            q = q + 1;
        }
        proof {
            lemma_count_upto_le(j as nat, touches(contacts@, keys[q as int]));
            lemma_count_upto_le(j as nat, touches_cc(contacts@, keys[q as int]));
        }
        let old_tally = &pairs[q];
        let bumped = PairTally {
            lo: old_tally.lo,
            hi: old_tally.hi,
            contacts: old_tally.contacts + 1,
            cc: if cc {
                old_tally.cc + 1
            } else {
                old_tally.cc
            },
        };
        let ghost before = pairs@;
        pairs.set(q, bumped);
        slot.push(q);
        proof {
            lemma_total_bump(before, q as int, bumped);
            assert(pairs@ == before.update(q as int, bumped));
            assert forall|x: int| 0 <= x < pairs.len() implies {
                &&& (#[trigger] pairs[x]).key() == keys[x]
                &&& pairs[x].contacts == count_upto((j + 1) as nat, touches(contacts@, keys[x]))
                &&& pairs[x].cc == count_upto((j + 1) as nat, touches_cc(contacts@, keys[x]))
            } by {
                if x != q {
                    assert(pair_lt(keys[x], keys[q as int]) || pair_lt(keys[q as int], keys[x]));
                    assert(keys[x] != k);
                }
            }
        }
        j = j + 1;
    }
    proof {
        assert forall|x: int| 0 <= x < pairs.len() implies (#[trigger] pairs[x]).contacts > 0 by {
            assert(seen(contacts@, n as int, keys[x]));
            let t = choose|t: int| 0 <= t < n && #[trigger] pair_of(contacts[t]) == keys[x];
            lemma_count_positive(n as nat, touches(contacts@, keys[x]), t);
        }
    }
    PairCensus { pairs, slot }
}

proof fn lemma_count_positive(k: nat, pred: spec_fn(int) -> bool, t: int)
    requires
        0 <= t < k,
        pred(t),
    ensures
        count_upto(k, pred) > 0,
    decreases k,
{
    if t < k - 1 {
        lemma_count_positive((k - 1) as nat, pred, t);
    }
}

} // verus!
