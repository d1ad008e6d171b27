//! Plate census: how many live parcels each plate carries, which plates died out, which are tiny.
use crate::kind::Kind;
use vstd::prelude::*;

verus! {

/// Number of indices below `k` that satisfy `pred`.
pub open spec fn count_upto(k: nat, pred: spec_fn(int) -> bool) -> nat
    decreases k,
{
    if k == 0 {
        0
    } else {
        count_upto((k - 1) as nat, pred) + if pred(k - 1) {
            1nat
        } else {
            0nat
        }
    }
}

pub proof fn lemma_count_upto_le(k: nat, pred: spec_fn(int) -> bool)
    ensures
        count_upto(k, pred) <= k,
    decreases k,
{
    if k > 0 {
        lemma_count_upto_le((k - 1) as nat, pred);
    }
}

/// Sum of a sequence of counts.
pub open spec fn sum_counts(s: Seq<usize>) -> int
    decreases s.len(),
{
    if s.len() == 0 {
        0
    } else {
        sum_counts(s.drop_last()) + s.last()
    }
}

proof fn lemma_sum_bump(s: Seq<usize>, p: int)
    requires
        0 <= p < s.len(),
        s[p] < usize::MAX,
    ensures
        sum_counts(s.update(p, (s[p] + 1) as usize)) == sum_counts(s) + 1,
    decreases s.len(),
{
    let t = s.update(p, (s[p] + 1) as usize);
    if p == s.len() - 1 {
        assert(t.drop_last() =~= s.drop_last());
    } else {
        assert(t.drop_last() =~= s.drop_last().update(p, (s[p] + 1) as usize));
        lemma_sum_bump(s.drop_last(), p);
    }
}

proof fn lemma_sum_zeros(n: nat)
    ensures
        sum_counts(Seq::new(n, |i: int| 0usize)) == 0,
    decreases n,
{
    if n > 0 {
        assert(Seq::new(n, |i: int| 0usize).drop_last() =~= Seq::new((n - 1) as nat, |i: int| 0usize));
        lemma_sum_zeros((n - 1) as nat);
    }
}

/// Live parcel `i` sits on plate `p`.
pub open spec fn on_plate(plate: Seq<u32>, alive: Seq<bool>, p: int) -> spec_fn(int) -> bool {
    |i: int| alive[i] && plate[i] == p
}

/// Live continental parcel `i` sits on plate `p`.
pub open spec fn cont_on_plate(plate: Seq<u32>, alive: Seq<bool>, kind: Seq<Kind>, p: int) -> spec_fn(
    int,
) -> bool {
    |i: int| alive[i] && plate[i] == p && kind[i] == Kind::Continental
}

/// Live, weakened continental parcel `i` sits on plate `p`.
pub open spec fn weak_on_plate(
    plate: Seq<u32>,
    alive: Seq<bool>,
    kind: Seq<Kind>,
    weak: Seq<bool>,
    p: int,
) -> spec_fn(int) -> bool {
    |i: int| alive[i] && plate[i] == p && kind[i] == Kind::Continental && weak[i]
}

/// Per-plate parcel counts and the plates still alive after the census.
pub struct Census {
    /// Live parcels per plate.
    pub n: Vec<usize>,
    /// Live continental parcels per plate.
    pub n_cont: Vec<usize>,
    /// Live continental parcels per plate that carry an inherited weakness.
    pub n_weak: Vec<usize>,
    /// A plate stays alive only while it carries at least one parcel.
    pub alive: Vec<bool>,
    /// Live parcels in all.
    pub total: usize,
    /// Live continental parcels in all.
    pub cont: usize,
    /// Plates alive after the census.
    pub n_plates: usize,
}

/// Count the live parcels of every plate (all, continental, weakened continental); a plate with
/// no parcel left dies. Every live parcel is counted on exactly one plate.
pub fn plate_census(
    plate_alive: &Vec<bool>,
    plate: &Vec<u32>,
    alive: &Vec<bool>,
    kind: &Vec<Kind>,
    weak: &Vec<bool>,
) -> (c: Census)
    requires
        alive@.len() == plate@.len(),
        kind@.len() == plate@.len(),
        weak@.len() == plate@.len(),
        forall|i: int| 0 <= i < plate@.len() && #[trigger] alive@[i] ==> plate@[i] < plate_alive@.len(),
    ensures
        c.n@.len() == plate_alive@.len(),
        c.n_cont@.len() == plate_alive@.len(),
        c.n_weak@.len() == plate_alive@.len(),
        c.alive@.len() == plate_alive@.len(),
        forall|p: int|
            0 <= p < plate_alive@.len() ==> {
                &&& #[trigger] c.n@[p] == count_upto(plate@.len(), on_plate(plate@, alive@, p))
                &&& c.n_cont@[p] == count_upto(plate@.len(), cont_on_plate(plate@, alive@, kind@, p))
                &&& c.n_weak@[p] == count_upto(
                    plate@.len(),
                    weak_on_plate(plate@, alive@, kind@, weak@, p),
                )
                &&& c.alive@[p] == (plate_alive@[p] && c.n@[p] > 0)
            },
        c.total == count_upto(plate@.len(), |i: int| alive@[i]),
        c.cont == count_upto(plate@.len(), |i: int| alive@[i] && kind@[i] == Kind::Continental),
        c.n_plates == count_upto(c.alive@.len(), |p: int| c.alive@[p]),
        sum_counts(c.n@) == c.total,
        sum_counts(c.n_cont@) == c.cont,
{
    let np = plate_alive.len();
    let m = plate.len();
    let mut n: Vec<usize> = Vec::with_capacity(np);
    let mut n_cont: Vec<usize> = Vec::with_capacity(np);
    let mut n_weak: Vec<usize> = Vec::with_capacity(np);
    let mut k: usize = 0;
    while k < np
        invariant
            k <= np,
            n@.len() == k,
            n_cont@.len() == k,
            n_weak@.len() == k,
            forall|p: int| 0 <= p < k ==> #[trigger] n@[p] == 0,
            forall|p: int| 0 <= p < k ==> #[trigger] n_cont@[p] == 0,
            forall|p: int| 0 <= p < k ==> #[trigger] n_weak@[p] == 0,
        decreases np - k,
    {
        n.push(0);
        n_cont.push(0);
        n_weak.push(0);
        k = k + 1;
    }
    proof {
        assert(n@ =~= Seq::new(np as nat, |i: int| 0usize));
        assert(n_cont@ =~= Seq::new(np as nat, |i: int| 0usize));
        lemma_sum_zeros(np as nat);
    }
    let mut total: usize = 0;
    let mut cont: usize = 0;
    let mut i: usize = 0;
    while i < m
        invariant
            np == plate_alive@.len(),
            m == plate@.len(),
            alive@.len() == m,
            kind@.len() == m,
            weak@.len() == m,
            forall|j: int| 0 <= j < m && #[trigger] alive@[j] ==> plate@[j] < np,
            i <= m,
            n@.len() == np,
            n_cont@.len() == np,
            n_weak@.len() == np,
            forall|p: int| 0 <= p < np ==> #[trigger] n@[p] == count_upto(i as nat, on_plate(plate@, alive@, p)),
            forall|p: int| 0 <= p < np ==> #[trigger] n_cont@[p] == count_upto(i as nat, cont_on_plate(plate@, alive@, kind@, p)),
            forall|p: int| 0 <= p < np ==> #[trigger] n_weak@[p] == count_upto(i as nat, weak_on_plate(plate@, alive@, kind@, weak@, p)),
            total == count_upto(i as nat, |j: int| alive@[j]),
            cont == count_upto(i as nat, |j: int| alive@[j] && kind@[j] == Kind::Continental),
            sum_counts(n@) == total,
            sum_counts(n_cont@) == cont,
        decreases m - i,
    {
        proof {
            lemma_count_upto_le(i as nat, |j: int| alive@[j]);
            lemma_count_upto_le(i as nat, |j: int| alive@[j] && kind@[j] == Kind::Continental);
            assert forall|p: int| 0 <= p < np implies #[trigger] n@[p] <= i by {
                lemma_count_upto_le(i as nat, on_plate(plate@, alive@, p));
            }
            assert forall|p: int| 0 <= p < np implies #[trigger] n_cont@[p] <= i by {
                lemma_count_upto_le(i as nat, cont_on_plate(plate@, alive@, kind@, p));
            }
            assert forall|p: int| 0 <= p < np implies #[trigger] n_weak@[p] <= i by {
                lemma_count_upto_le(i as nat, weak_on_plate(plate@, alive@, kind@, weak@, p));
            }
        }
        if alive[i] {
            let p = plate[i] as usize;
            proof {
                lemma_sum_bump(n@, p as int);
            }
            let v = n[p];
            n.set(p, v + 1);
            total = total + 1;
            if kind[i] == Kind::Continental {
                proof {
                    lemma_sum_bump(n_cont@, p as int);
                }
                let vc = n_cont[p];
                n_cont.set(p, vc + 1);
                cont = cont + 1;
                if weak[i] {
                    let vw = n_weak[p];
                    n_weak.set(p, vw + 1);
                }
            }
        }
        proof {
            assert forall|p: int| 0 <= p < np implies #[trigger] n@[p] == count_upto((i + 1) as nat, on_plate(plate@, alive@, p)) by {
                assert(count_upto((i + 1) as nat, on_plate(plate@, alive@, p)) == count_upto(i as nat, on_plate(plate@, alive@, p)) + if on_plate(plate@, alive@, p)(i as int) { 1nat } else { 0nat });
            }
            assert forall|p: int| 0 <= p < np implies #[trigger] n_cont@[p] == count_upto((i + 1) as nat, cont_on_plate(plate@, alive@, kind@, p)) by {
                assert(count_upto((i + 1) as nat, cont_on_plate(plate@, alive@, kind@, p)) == count_upto(i as nat, cont_on_plate(plate@, alive@, kind@, p)) + if cont_on_plate(plate@, alive@, kind@, p)(i as int) { 1nat } else { 0nat });
            }
            assert forall|p: int| 0 <= p < np implies #[trigger] n_weak@[p] == count_upto((i + 1) as nat, weak_on_plate(plate@, alive@, kind@, weak@, p)) by {
                assert(count_upto((i + 1) as nat, weak_on_plate(plate@, alive@, kind@, weak@, p)) == count_upto(i as nat, weak_on_plate(plate@, alive@, kind@, weak@, p)) + if weak_on_plate(plate@, alive@, kind@, weak@, p)(i as int) { 1nat } else { 0nat });
            }
        }
        i = i + 1;
    }
    let mut new_alive: Vec<bool> = Vec::with_capacity(np);
    let mut n_plates: usize = 0;
    let mut q: usize = 0;
    while q < np
        invariant
            q <= np,
            np == plate_alive@.len(),
            n@.len() == np,
            n_cont@.len() == np,
            n_weak@.len() == np,
            m == plate@.len(),
            forall|p: int| 0 <= p < np ==> #[trigger] n@[p] == count_upto(m as nat, on_plate(plate@, alive@, p)),
            forall|p: int| 0 <= p < np ==> #[trigger] n_cont@[p] == count_upto(m as nat, cont_on_plate(plate@, alive@, kind@, p)),
            forall|p: int| 0 <= p < np ==> #[trigger] n_weak@[p] == count_upto(m as nat, weak_on_plate(plate@, alive@, kind@, weak@, p)),
            total == count_upto(m as nat, |j: int| alive@[j]),
            cont == count_upto(m as nat, |j: int| alive@[j] && kind@[j] == Kind::Continental),
            sum_counts(n@) == total,
            sum_counts(n_cont@) == cont,
            new_alive@.len() == q,
            forall|p: int| 0 <= p < q ==> #[trigger] new_alive@[p] == (plate_alive@[p] && n@[p] > 0),
            n_plates == count_upto(q as nat, |p: int| new_alive@[p]),
            n_plates <= q,
        decreases np - q,
    {
        let a = plate_alive[q] && n[q] > 0;
        let ghost before = new_alive@;
        new_alive.push(a);
        proof {
            lemma_count_prefix(q as nat, |p: int| new_alive@[p], |p: int| before[p], q as nat);
        }
        if a {
            n_plates = n_plates + 1;
        }
        q = q + 1;
    }
    Census { n, n_cont, n_weak, alive: new_alive, total, cont, n_plates }
}

/// Counting below `k` only looks at indices below `k`.
proof fn lemma_count_prefix(k: nat, f: spec_fn(int) -> bool, g: spec_fn(int) -> bool, bound: nat)
    requires
        k <= bound,
        forall|j: int| 0 <= j < bound ==> #[trigger] f(j) == g(j),
    ensures
        count_upto(k, f) == count_upto(k, g),
    decreases k,
{
    if k > 0 {
        lemma_count_prefix((k - 1) as nat, f, g, bound);
    }
}

/// Number of plates still alive.
pub fn alive_plates(alive: &Vec<bool>) -> (c: usize)
    ensures
        c == count_upto(alive@.len(), |p: int| alive@[p]),
{
    let mut c: usize = 0;
    let mut k: usize = 0;
    while k < alive.len()
        invariant
            k <= alive@.len(),
            c == count_upto(k as nat, |p: int| alive@[p]),
            c <= k,
        decreases alive@.len() - k,
    {
        if alive[k] {
            c = c + 1;
        }
        k = k + 1;
    }
    c
}

/// Live plates carrying fewer than `tiny_n` parcels, in increasing order: they dissolve into
/// their neighbours.
pub fn tiny_plates(counts: &Vec<usize>, alive: &Vec<bool>, tiny_n: usize) -> (t: Vec<u32>)
    requires
        counts@.len() == alive@.len(),
        alive@.len() <= u32::MAX as nat + 1,
    ensures
        forall|a: int, b: int| 0 <= a < b < t@.len() ==> t@[a] < t@[b],
        forall|p: u32|
            #![trigger t@.contains(p)]
            t@.contains(p) <==> (p < alive@.len() && alive@[p as int] && counts@[p as int] < tiny_n),
{
    let mut t: Vec<u32> = Vec::new();
    let mut k: usize = 0;
    while k < alive.len()
        invariant
            k <= alive@.len(),
            counts@.len() == alive@.len(),
            alive@.len() <= u32::MAX as nat + 1,
            forall|a: int, b: int| 0 <= a < b < t@.len() ==> t@[a] < t@[b],
            forall|a: int| 0 <= a < t@.len() ==> #[trigger] t@[a] < k,
            forall|p: u32|
                #![trigger t@.contains(p)]
                t@.contains(p) <==> (p < k && alive@[p as int] && counts@[p as int] < tiny_n),
        decreases alive@.len() - k,
    {
        if alive[k] && counts[k] < tiny_n {
            let ghost before = t@;
            t.push(k as u32);
            proof {
                assert forall|p: u32| #![trigger t@.contains(p)] t@.contains(p) <==> (p < k + 1
                    && alive@[p as int] && counts@[p as int] < tiny_n) by {
                    if p == k as u32 {
                        assert(t@[t@.len() - 1] == p);
                    } else if t@.contains(p) {
                        let j = choose|j: int| 0 <= j < t@.len() && t@[j] == p;
                        assert(before[j] == p);
                        assert(before.contains(p));
                    } else if before.contains(p) {
                        let j = choose|j: int| 0 <= j < before.len() && before[j] == p;
                        assert(t@[j] == p);
                    }
                }
            }
        } else {
            proof {
                assert forall|p: u32| #![trigger t@.contains(p)] t@.contains(p) <==> (p < k + 1
                    && alive@[p as int] && counts@[p as int] < tiny_n) by {
                    if t@.contains(p) {
                        let j = choose|j: int| 0 <= j < t@.len() && t@[j] == p;
                        assert(t@[j] < k);
                    }
                }
            }
        }
        k = k + 1;
    }
    t
}

/// A per-pair record survives cleanup only while both plates of the pair are distinct and alive.
pub fn pair_live(a: u32, b: u32, alive: &Vec<bool>) -> (live: bool)
    requires
        a < alive@.len(),
        b < alive@.len(),
    ensures
        live == (a != b && alive@[a as int] && alive@[b as int]),
{
    a != b && alive[a as usize] && alive[b as usize]
}

} // verus!
