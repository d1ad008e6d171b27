//! Subduction polarity: for each plate pair, which plate goes down.
//!
//! Once a subduction zone exists between two plates its polarity is fixed; only continent-continent
//! collision (a weld) or the death of a plate removes it.
use crate::kind::{pair_key, spec_pair_key};
use std::collections::HashMap;
use vstd::prelude::*;

verus! {

broadcast use vstd::std_specs::hash::group_hash_axioms;

/// The 64-bit key of the ordered pair `(lo, hi)`: `lo` in the high half, `hi` in the low half.
pub open spec fn pair_code(k: (u32, u32)) -> u64 {
    ((k.0 as u64) << 32u64) | (k.1 as u64)
}

/// The ordered pair stored under a 64-bit key.
pub open spec fn code_pair(x: u64) -> (u32, u32) {
    ((x >> 32u64) as u32, (x & 0xffff_ffffu64) as u32)
}

proof fn lemma_code_halves(a: u32, b: u32)
    ensures
        ((((a as u64) << 32u64) | (b as u64)) >> 32u64) as u32 == a,
        ((((a as u64) << 32u64) | (b as u64)) & 0xffff_ffffu64) as u32 == b,
{
    assert(((((a as u64) << 32u64) | (b as u64)) >> 32u64) as u32 == a) by (bit_vector);
    assert(((((a as u64) << 32u64) | (b as u64)) & 0xffff_ffffu64) as u32 == b) by (bit_vector);
}

proof fn lemma_code_whole(x: u64)
    ensures
        ((((x >> 32u64) as u32) as u64) << 32u64) | (((x & 0xffff_ffffu64) as u32) as u64) == x,
{
    assert(((((x >> 32u64) as u32) as u64) << 32u64) | (((x & 0xffff_ffffu64) as u32) as u64) == x)
        by (bit_vector);
}

/// Keys and pairs correspond one to one.
proof fn lemma_code(k: (u32, u32), x: u64)
    ensures
        code_pair(pair_code(k)) == k,
        pair_code(code_pair(x)) == x,
{
    lemma_code_halves(k.0, k.1);
    lemma_code_whole(x);
}

fn code_of(k: (u32, u32)) -> (x: u64)
    ensures
        x == pair_code(k),
{
    ((k.0 as u64) << 32u64) | (k.1 as u64)
}

fn pair_of_code(x: u64) -> (k: (u32, u32))
    ensures
        k == code_pair(x),
{
    ((x >> 32u64) as u32, (x & 0xffff_ffffu64) as u32)
}

/// The table after a request to record that `r.2` subducts at the pair `{r.0, r.1}`.
pub open spec fn after_establish(m: Map<(u32, u32), u32>, r: (u32, u32, u32)) -> Map<(u32, u32), u32> {
    if m.contains_key(spec_pair_key(r.0, r.1)) {
        m
    } else {
        m.insert(spec_pair_key(r.0, r.1), r.2)
    }
}

/// The table after a sequence of such requests, in order.
pub open spec fn establish_all(m: Map<(u32, u32), u32>, reqs: Seq<(u32, u32, u32)>) -> Map<
    (u32, u32),
    u32,
>
    decreases reqs.len(),
{
    if reqs.len() == 0 {
        m
    } else {
        after_establish(establish_all(m, reqs.drop_last()), reqs.last())
    }
}

/// How many of the requests found their pair without a polarity when their turn came: the
/// subduction initiations.
pub open spec fn initiations(m: Map<(u32, u32), u32>, reqs: Seq<(u32, u32, u32)>) -> nat
    decreases reqs.len(),
{
    if reqs.len() == 0 {
        0
    } else {
        initiations(m, reqs.drop_last()) + if establish_all(m, reqs.drop_last()).contains_key(
            spec_pair_key(reqs.last().0, reqs.last().1),
        ) {
            0nat
        } else {
            1nat
        }
    }
}

/// Subduction is forever: over any sequence of requests, each naming one of its two plates as
/// the lower one, a recorded polarity never changes, every new entry names one of the plates of
/// its pair, and the table grows by exactly one entry per initiation.
pub proof fn lemma_polarity_forever(m: Map<(u32, u32), u32>, reqs: Seq<(u32, u32, u32)>)
    requires
        m.dom().finite(),
        forall|i: int| 0 <= i < reqs.len() ==> (#[trigger] reqs[i]).2 == reqs[i].0 || reqs[i].2 == reqs[i].1,
    ensures
        forall|k: (u32, u32)|
            #[trigger] m.contains_key(k) ==> establish_all(m, reqs).contains_key(k) && establish_all(
                m,
                reqs,
            )[k] == m[k],
        forall|k: (u32, u32)|
            #[trigger] establish_all(m, reqs).contains_key(k) && !m.contains_key(k) ==> establish_all(
                m,
                reqs,
            )[k] == k.0 || establish_all(m, reqs)[k] == k.1,
        establish_all(m, reqs).dom().finite(),
        establish_all(m, reqs).dom().len() == m.dom().len() + initiations(m, reqs),
    decreases reqs.len(),
{
    if reqs.len() > 0 {
        let init = reqs.drop_last();
        assert forall|i: int| 0 <= i < init.len() implies (#[trigger] init[i]).2 == init[i].0 || init[i].2
            == init[i].1 by {
            assert(init[i] == reqs[i]);
        }
        lemma_polarity_forever(m, init);
        let p = establish_all(m, init);
        let r = reqs.last();
        assert(r == reqs[reqs.len() - 1]);
        let k = spec_pair_key(r.0, r.1);
        if !p.contains_key(k) {
            assert(p.insert(k, r.2).dom() =~= p.dom().insert(k));
            assert(!m.contains_key(k));
        }
    }
}

/// Subduction polarity per plate pair, stored under the 64-bit key of the ordered pair.
pub struct PolarityTable {
    map: HashMap<u64, u32>,
}

impl View for PolarityTable {
    type V = Map<(u32, u32), u32>;

    closed spec fn view(&self) -> Map<(u32, u32), u32> {
        Map::new(|k: (u32, u32)| self.map@.contains_key(pair_code(k)), |k: (u32, u32)| self.map@[pair_code(k)])
    }
}

/// The polarity recorded for the pair `{a, b}`, if any.
pub open spec fn spec_polarity(m: Map<(u32, u32), u32>, a: u32, b: u32) -> Option<u32> {
    if m.contains_key(spec_pair_key(a, b)) {
        Some(m[spec_pair_key(a, b)])
    } else {
        None
    }
}

/// Every recorded pair is stored in key order and names plates below `n`.
pub open spec fn pairs_below(m: Map<(u32, u32), u32>, n: nat) -> bool {
    forall|k: (u32, u32)| #[trigger] m.contains_key(k) ==> k.0 <= k.1 && k.1 < n
}

impl PolarityTable {
    /// Every stored pair is in key order.
    pub closed spec fn wf(&self) -> bool {
        forall|x: u64| #[trigger] self.map@.contains_key(x) ==> code_pair(x).0 <= code_pair(x).1
    }

    proof fn lemma_view(&self)
        ensures
            forall|k: (u32, u32)| #[trigger] self@.contains_key(k) <==> self.map@.contains_key(pair_code(k)),
            forall|k: (u32, u32)| #[trigger] self@.contains_key(k) ==> self@[k] == self.map@[pair_code(k)],
            self@.dom() == self.map@.dom().map(|x: u64| code_pair(x)),
            self@.dom().finite(),
            self@.dom().len() == self.map@.dom().len(),
    {
        assert forall|k: (u32, u32)| #[trigger] self@.contains_key(k) <==> self.map@.contains_key(pair_code(k)) by {
        }
        let f = |x: u64| code_pair(x);
        assert(self@.dom() =~= self.map@.dom().map(f)) by {
            assert forall|k: (u32, u32)| self@.dom().contains(k) implies self.map@.dom().map(f).contains(k) by {
                lemma_code(k, 0);
                assert(f(pair_code(k)) == k);
            }
            assert forall|k: (u32, u32)| self.map@.dom().map(f).contains(k) implies self@.dom().contains(k) by {
                let x = choose|x: u64| self.map@.dom().contains(x) && f(x) == k;
                lemma_code(k, x);
            }
        }
        assert(vstd::relations::injective_on(f, self.map@.dom())) by {
            assert forall|x1: u64, x2: u64|
                self.map@.dom().contains(x1) && self.map@.dom().contains(x2) && #[trigger] f(x1) == #[trigger] f(x2)
                implies x1 == x2 by {
                lemma_code(f(x1), x1);
                lemma_code(f(x2), x2);
            }
        }
        vstd::set_lib::lemma_map_size(self.map@.dom(), self@.dom(), f);
    }

    /// No subduction zone anywhere yet.
    pub fn new() -> (t: Self)
        ensures
            t.wf(),
            t@ == Map::<(u32, u32), u32>::empty(),
    {
        let t = PolarityTable { map: HashMap::new() };
        assert(t@ =~= Map::<(u32, u32), u32>::empty());
        t
    }

    /// The plate that subducts at the pair `{a, b}`, if a subduction zone exists there.
    pub fn get(&self, a: u32, b: u32) -> (r: Option<u32>)
        requires
            self.wf(),
        ensures
            r == spec_polarity(self@, a, b),
    {
        proof {
            self.lemma_view();
        }
        let x = code_of(pair_key(a, b));
        match self.map.get(&x) {
            Some(v) => Some(*v),
            None => None,
        }
    }

    /// Whether a subduction zone exists at the pair `{a, b}`.
    pub fn contains(&self, a: u32, b: u32) -> (r: bool)
        requires
            self.wf(),
        ensures
            r == self@.contains_key(spec_pair_key(a, b)),
    {
        proof {
            self.lemma_view();
        }
        let x = code_of(pair_key(a, b));
        self.map.contains_key(&x)
    }

    /// Number of pairs with a subduction zone.
    pub fn len(&self) -> (n: usize)
        requires
            self.wf(),
        ensures
            n == self@.dom().len(),
            self@.dom().finite(),
    {
        proof {
            self.lemma_view();
        }
        self.map.len()
    }

    /// Whether every recorded pair names plates below `n`.
    pub fn all_below(&self, n: usize) -> (r: bool)
        requires
            self.wf(),
        ensures
            r == pairs_below(self@, n as nat),
    {
        proof {
            self.lemma_view();
        }
        for e in it: self.map.iter()
            invariant
                self.wf(),
                forall|k: (u32, u32)| #[trigger] self@.contains_key(k) <==> self.map@.contains_key(pair_code(k)),
                forall|y: u64| #[trigger] self.map@.contains_key(y) ==> it.seq().contains((&y, &self.map@[y])),
                forall|j: int| #![trigger it.seq()[j]] 0 <= j < it.index() ==> code_pair(*it.seq()[j].0).1 < n,
                it.index() == it.seq().len() ==> forall|y: u64| #[trigger] self.map@.contains_key(y) ==> code_pair(y).1 < n,
        {
            let (x, _) = e;
            let k = pair_of_code(*x);
            if k.1 as usize >= n {
                proof {
                    lemma_code(k, *x);
                    assert(self.map@.contains_key(*x));
                    assert(self@.contains_key(k));
                }
                return false;
            }
        }
        proof {
            assert forall|k: (u32, u32)| #[trigger] self@.contains_key(k) implies k.0 <= k.1 && k.1 < n by {
                lemma_code(k, 0);
                let x = pair_code(k);
                assert(self.map@.contains_key(x));
            }
        }
        true
    }

    /// Record that `lower` subducts at the pair `{a, b}`, unless a polarity is already recorded
    /// there: polarity, once set, never changes. Returns the polarity in force afterwards.
    pub fn establish(&mut self, a: u32, b: u32, lower: u32) -> (r: u32)
        requires
            old(self).wf(),
        ensures
            final(self).wf(),
            old(self)@.contains_key(spec_pair_key(a, b)) ==> final(self)@ == old(self)@ && r == old(
                self,
            )@[spec_pair_key(a, b)],
            !old(self)@.contains_key(spec_pair_key(a, b)) ==> final(self)@ == old(self)@.insert(
                spec_pair_key(a, b),
                lower,
            ) && r == lower,
            final(self)@ == after_establish(old(self)@, (a, b, lower)),
            forall|n: nat|
                pairs_below(old(self)@, n) && a < n && b < n ==> #[trigger] pairs_below(final(self)@, n),
    {
        proof {
            self.lemma_view();
        }
        let k = pair_key(a, b);
        let x = code_of(k);
        match self.map.get(&x) {
            Some(v) => *v,
            None => {
                self.map.insert(x, lower);
                proof {
                    lemma_code(k, x);
                    assert forall|y: u64| #[trigger] self.map@.contains_key(y) implies code_pair(y).0
                        <= code_pair(y).1 by {
                        if y == x {
                        } else {
                            assert(old(self).map@.contains_key(y));
                        }
                    }
                    assert forall|q: (u32, u32)| #[trigger] self@.contains_key(q) <==> old(self)@.insert(k, lower).contains_key(q) by {
                        lemma_code(q, x);
                        lemma_code(k, pair_code(q));
                    }
                    assert(self@ =~= old(self)@.insert(k, lower)) by {
                        assert forall|q: (u32, u32)| #[trigger] self@.contains_key(q) implies self@[q] == old(self)@.insert(k, lower)[q] by {
                            lemma_code(q, x);
                            lemma_code(k, pair_code(q));
                        }
                    }
                }
                lower
            },
        }
    }

    /// Drop the pairs that no longer separate two distinct live plates.
    pub fn retain_live(&mut self, alive: &Vec<bool>)
        requires
            old(self).wf(),
            pairs_below(old(self)@, alive@.len()),
        ensures
            final(self).wf(),
            pairs_below(final(self)@, alive@.len()),
            forall|k: (u32, u32)|
                #[trigger] final(self)@.contains_key(k) <==> (old(self)@.contains_key(k) && k.0 != k.1
                    && alive@[k.0 as int] && alive@[k.1 as int]),
            forall|k: (u32, u32)| #[trigger] final(self)@.contains_key(k) ==> final(self)@[k] == old(self)@[k],
    {
        proof {
            self.lemma_view();
        }
        let mut kept: HashMap<u64, u32> = HashMap::new();
        for e in it: self.map.iter()
            invariant
                forall|q: (u32, u32)| #[trigger] self@.contains_key(q) <==> self.map@.contains_key(pair_code(q)),
                pairs_below(self@, alive@.len()),
                forall|y: u64| #[trigger] self.map@.contains_key(y) ==> it.seq().contains((&y, &self.map@[y])),
                forall|y: u64|
                    #[trigger] kept@.contains_key(y) ==> self.map@.contains_key(y) && kept@[y] == self.map@[y]
                        && code_pair(y).0 != code_pair(y).1 && alive@[code_pair(y).0 as int]
                        && alive@[code_pair(y).1 as int],
                forall|j: int|
                    #![trigger it.seq()[j]]
                    0 <= j < it.index() && code_pair(*it.seq()[j].0).0 != code_pair(*it.seq()[j].0).1
                        && alive@[code_pair(*it.seq()[j].0).0 as int] && alive@[code_pair(*it.seq()[j].0).1 as int]
                        ==> kept@.contains_key(*it.seq()[j].0),
                it.index() == it.seq().len() ==> forall|y: u64|
                    #[trigger] self.map@.contains_key(y) && code_pair(y).0 != code_pair(y).1
                        && alive@[code_pair(y).0 as int] && alive@[code_pair(y).1 as int] ==> kept@.contains_key(y),
        {
            let (x, v) = e;
            let k = pair_of_code(*x);
            proof {
                lemma_code(k, *x);
                assert(self@.contains_key(k));
            }
            if k.0 != k.1 && alive[k.0 as usize] && alive[k.1 as usize] {
                kept.insert(*x, *v);
            }
        }
        let ghost before = self@;
        let ghost old_map = self.map@;
        self.map = kept;
        proof {
            assert forall|y: u64| #[trigger] self.map@.contains_key(y) implies code_pair(y).0 <= code_pair(y).1 by {
                lemma_code(code_pair(y), y);
                assert(before.contains_key(code_pair(y)));
            }
            assert forall|q: (u32, u32)| #[trigger] self@.contains_key(q) <==> (before.contains_key(q) && q.0 != q.1
                && alive@[q.0 as int] && alive@[q.1 as int]) by {
                lemma_code(q, 0);
                let x = pair_code(q);
                if before.contains_key(q) && q.0 != q.1 && alive@[q.0 as int] && alive@[q.1 as int] {
                    assert(old_map.contains_key(x));
                }
            }
        }
    }
}

/// The polarity of a pair does not depend on the order in which the two plates are named.
pub proof fn lemma_polarity_symmetric(m: Map<(u32, u32), u32>, a: u32, b: u32)
    ensures
        spec_polarity(m, a, b) == spec_polarity(m, b, a),
{
    crate::kind::lemma_pair_key_symmetric(a, b);
}

} // verus!
