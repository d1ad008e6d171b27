//! Plate welding: a forest of "merged into" links over plate indices.
//!
//! When two plates weld, the smaller one stops being a plate of its own and its parcels join the
//! plate it merged into. Links are followed transitively, so a plate always resolves to the plate
//! that currently owns its crust.
use vstd::prelude::*;

verus! {

/// Parent links with a ghost rank that strictly decreases along every link.
pub open spec fn ranked(parent: Seq<u32>, rank: Seq<nat>) -> bool {
    &&& rank.len() == parent.len()
    &&& forall|x: int|
        #![trigger parent[x]]
        0 <= x < parent.len() ==> {
            &&& parent[x] < parent.len()
            &&& (parent[x] != x ==> rank[parent[x] as int] < rank[x])
        }
}

/// The plate that `x` resolves to: follow the links until a plate that points to itself.
pub open spec fn find(parent: Seq<u32>, rank: Seq<nat>, x: int) -> int
    decreases rank[x],
    when ranked(parent, rank) && 0 <= x < parent.len()
{
    if parent[x] == x {
        x
    } else {
        find(parent, rank, parent[x] as int)
    }
}

/// The resolved plate lies in range and points to itself; a non-root resolves like its parent.
pub proof fn lemma_find(parent: Seq<u32>, rank: Seq<nat>, x: int)
    requires
        ranked(parent, rank),
        0 <= x < parent.len(),
    ensures
        0 <= find(parent, rank, x) < parent.len(),
        parent[find(parent, rank, x)] == find(parent, rank, x),
        parent[x] == x ==> find(parent, rank, x) == x,
        parent[x] != x ==> find(parent, rank, x) == find(parent, rank, parent[x] as int),
    decreases rank[x],
{
    if parent[x] != x {
        lemma_find(parent, rank, parent[x] as int);
    }
}

/// The resolution of every plate, as a sequence indexed by plate.
pub open spec fn roots_of(parent: Seq<u32>, rank: Seq<nat>) -> Seq<u32> {
    Seq::new(parent.len(), |x: int| find(parent, rank, x) as u32)
}

/// What a weld of `from` into `into` does to the resolution of every plate: the whole group of
/// `from` joins the group of `into`; nothing changes when they are already one group.
pub open spec fn spec_link(view: Seq<u32>, from: u32, into: u32) -> Seq<u32> {
    let f = view[from as int];
    let i = view[into as int];
    if f == i {
        view
    } else {
        Seq::new(view.len(), |y: int| if view[y] == f { i } else { view[y] })
    }
}

/// The plate that stops being a plate of its own in a weld, if any.
pub open spec fn spec_link_dead(view: Seq<u32>, from: u32, into: u32) -> Option<u32> {
    if view[from as int] == view[into as int] {
        None
    } else {
        Some(view[from as int])
    }
}

/// The identity resolution: every plate is its own.
pub open spec fn identity(n: nat) -> Seq<u32> {
    Seq::new(n, |x: int| x as u32)
}

/// Resolution after applying a list of welds in order.
pub open spec fn spec_merge_all(view: Seq<u32>, merges: Seq<(u32, u32)>) -> Seq<u32>
    decreases merges.len(),
{
    if merges.len() == 0 {
        view
    } else {
        let prev = spec_merge_all(view, merges.drop_last());
        spec_link(prev, merges.last().0, merges.last().1)
    }
}

/// Plates that stop being plates of their own, in the order of the welds that end them.
pub open spec fn spec_merge_dead(view: Seq<u32>, merges: Seq<(u32, u32)>) -> Seq<u32>
    decreases merges.len(),
{
    if merges.len() == 0 {
        Seq::empty()
    } else {
        let prev = spec_merge_all(view, merges.drop_last());
        let d = spec_merge_dead(view, merges.drop_last());
        match spec_link_dead(prev, merges.last().0, merges.last().1) {
            Some(f) => d.push(f),
            None => d,
        }
    }
}

/// Every plate resolves to a plate that resolves to itself.
pub open spec fn is_resolution(view: Seq<u32>) -> bool {
    forall|x: int|
        #![trigger view[x]]
        0 <= x < view.len() ==> view[x] < view.len() && view[view[x] as int] == view[x]
}

/// All plates named in a list of welds exist.
pub open spec fn merges_in_range(merges: Seq<(u32, u32)>, n: nat) -> bool {
    forall|k: int| #![trigger merges[k]] 0 <= k < merges.len() ==> merges[k].0 < n && merges[k].1 < n
}

/// The resolution of all plates after a run of welds.
pub struct PlateRemap {
    parent: Vec<u32>,
    rank: Ghost<Seq<nat>>,
}

impl View for PlateRemap {
    type V = Seq<u32>;

    closed spec fn view(&self) -> Seq<u32> {
        roots_of(self.parent@, self.rank@)
    }
}

impl PlateRemap {
    /// The links are ranked, so every chain of links ends.
    pub closed spec fn wf(&self) -> bool {
        ranked(self.parent@, self.rank@) && self.parent@.len() <= u32::MAX as nat + 1
    }

    proof fn lemma_view(&self)
        requires
            self.wf(),
        ensures
            is_resolution(self@),
            forall|x: int| #![trigger self@[x]] 0 <= x < self@.len() ==> (self@[x] == x <==> self.parent@[x] == x),
    {
        assert forall|x: int| #![trigger self@[x]] 0 <= x < self@.len() implies self@[x] < self@.len()
            && self@[self@[x] as int] == self@[x] && (self@[x] == x <==> self.parent@[x] == x) by {
            lemma_find(self.parent@, self.rank@, x);
            let r = find(self.parent@, self.rank@, x);
            lemma_find(self.parent@, self.rank@, r);
        }
    }

    /// No plate has merged yet: every one of the `n` plates is its own.
    pub fn new(n: usize) -> (r: Self)
        requires
            n <= u32::MAX as nat + 1,
        ensures
            r.wf(),
            r@ == identity(n as nat),
    {
        let mut parent: Vec<u32> = Vec::with_capacity(n);
        let mut k: usize = 0;
        while k < n
            invariant
                k <= n,
                n <= u32::MAX as nat + 1,
                parent@.len() == k,
                forall|x: int| 0 <= x < k ==> #[trigger] parent@[x] == x,
            decreases n - k,
        {
            parent.push(k as u32);
            k = k + 1;
        }
        let ghost rank = Seq::new(n as nat, |x: int| 0nat);
        let r = PlateRemap { parent, rank: Ghost(rank) };
        assert forall|x: int| 0 <= x < n implies #[trigger] find(r.parent@, r.rank@, x) == x by {
            lemma_find(r.parent@, r.rank@, x);
        }
        assert(r@ =~= identity(n as nat));
        r
    }

    /// Number of plates covered.
    pub fn len(&self) -> (n: usize)
        requires
            self.wf(),
        ensures
            n == self@.len(),
    {
        self.parent.len()
    }

    /// The plate that now owns the crust of plate `x`.
    pub fn resolve(&self, x: u32) -> (r: u32)
        requires
            self.wf(),
            x < self@.len(),
        ensures
            r == self@[x as int],
            r < self@.len(),
            self@[r as int] == r,
    {
        proof {
            self.lemma_view();
        }
        let mut y = x;
        while self.parent[y as usize] != y
            invariant
                self.wf(),
                y < self.parent@.len(),
                find(self.parent@, self.rank@, y as int) == find(self.parent@, self.rank@, x as int),
            decreases self.rank@[y as int],
        {
            proof {
                lemma_find(self.parent@, self.rank@, y as int);
            }
            y = self.parent[y as usize];
        }
        proof {
            lemma_find(self.parent@, self.rank@, y as int);
        }
        y
    }

    proof fn lemma_link(parent: Seq<u32>, rank: Seq<nat>, f: int, i: int, rank2: Seq<nat>, y: int)
        requires
            ranked(parent, rank),
            0 <= f < parent.len(),
            0 <= i < parent.len(),
            f != i,
            parent[f] == f,
            parent[i] == i,
            rank2 == Seq::new(
                parent.len(),
                |z: int|
                    if find(parent, rank, z) == f {
                        rank[z] + rank[i] + 1
                    } else {
                        rank[z]
                    },
            ),
            ranked(parent.update(f, i as u32), rank2),
            0 <= y < parent.len(),
        ensures
            find(parent.update(f, i as u32), rank2, y) == (if find(parent, rank, y) == f {
                i
            } else {
                find(parent, rank, y)
            }),
        decreases rank[y],
    {
        let p2 = parent.update(f, i as u32);
        lemma_find(parent, rank, y);
        lemma_find(p2, rank2, y);
        lemma_find(parent, rank, i);
        if parent[y] == y {
            if y == f {
                lemma_find(p2, rank2, i);
            }
        } else {
            Self::lemma_link(parent, rank, f, i, rank2, parent[y] as int);
        }
    }

    /// Weld plate `from` into plate `into`. Returns the plate that stops being a plate of its own,
    /// or `None` when the two already resolve to the same plate.
    pub fn link(&mut self, from: u32, into: u32) -> (dead: Option<u32>)
        requires
            old(self).wf(),
            from < old(self)@.len(),
            into < old(self)@.len(),
        ensures
            final(self).wf(),
            final(self)@ == spec_link(old(self)@, from, into),
            dead == spec_link_dead(old(self)@, from, into),
            final(self)@.len() == old(self)@.len(),
            final(self)@[from as int] == old(self)@[into as int],
            final(self)@[into as int] == old(self)@[into as int],
            dead is None <==> old(self)@[from as int] == old(self)@[into as int],
            dead is Some ==> dead == Some(old(self)@[from as int]),
            forall|y: int|
                #![trigger final(self)@[y]]
                0 <= y < old(self)@.len() && old(self)@[y] != old(self)@[from as int] ==> final(self)@[y] == old(self)@[y],
            forall|y: int|
                #![trigger final(self)@[y]]
                0 <= y < old(self)@.len() && old(self)@[y] == old(self)@[from as int] ==> final(self)@[y] == old(self)@[into as int],
    {
        let f = self.resolve(from);
        let i = self.resolve(into);
        if f == i {
            return None;
        }
        let ghost parent = self.parent@;
        let ghost rank = self.rank@;
        proof {
            lemma_find(parent, rank, f as int);
            lemma_find(parent, rank, i as int);
        }
        let ghost rank2 = Seq::new(
            parent.len(),
            |z: int|
                if find(parent, rank, z) == f {
                    rank[z] + rank[i as int] + 1
                } else {
                    rank[z]
                },
        );
        self.parent.set(f as usize, i);
        self.rank = Ghost(rank2);
        proof {
            let p2 = parent.update(f as int, i);
            assert(self.parent@ == p2);
            assert forall|x: int| #![trigger p2[x]] 0 <= x < p2.len() implies {
                &&& p2[x] < p2.len()
                &&& (p2[x] != x ==> rank2[p2[x] as int] < rank2[x])
            } by {
                lemma_find(parent, rank, x);
                if x != f && parent[x] != x {
                    lemma_find(parent, rank, parent[x] as int);
                }
            }
            assert(ranked(p2, rank2));
            assert forall|y: int| 0 <= y < p2.len() implies #[trigger] find(p2, rank2, y) == (if find(
                parent,
                rank,
                y,
            ) == f {
                i as int
            } else {
                find(parent, rank, y)
            }) by {
                Self::lemma_link(parent, rank, f as int, i as int, rank2, y);
            }
            let v2 = spec_link(old(self)@, from, into);
            assert(old(self)@[from as int] == f && old(self)@[into as int] == i);
            assert forall|y: int| 0 <= y < p2.len() implies #[trigger] self@[y] == v2[y] by {
                lemma_find(parent, rank, y);
            }
            assert(self@ =~= v2);
        }
        Some(f)
    }
}

/// The weld `(from, into)` for two plates that suture: the plate with fewer parcels is absorbed
/// into the other, the first named on a tie.
pub fn weld_order(a: u32, b: u32, n_a: usize, n_b: usize) -> (w: (u32, u32))
    ensures
        w == (if n_a <= n_b {
            (a, b)
        } else {
            (b, a)
        }),
{
    if n_a <= n_b {
        (a, b)
    } else {
        (b, a)
    }
}

/// Apply a list of welds in order, starting from `n` independent plates. Returns the resolution
/// and the plates that stopped being plates of their own, in the order they were ended.
pub fn apply_merges(n: usize, merges: &Vec<(u32, u32)>) -> (res: (PlateRemap, Vec<u32>))
    requires
        n <= u32::MAX as nat + 1,
        merges_in_range(merges@, n as nat),
    ensures
        res.0.wf(),
        res.0@ == spec_merge_all(identity(n as nat), merges@),
        res.1@ == spec_merge_dead(identity(n as nat), merges@),
{
    let mut remap = PlateRemap::new(n);
    let mut dead: Vec<u32> = Vec::new();
    let mut k: usize = 0;
    while k < merges.len()
        invariant
            k <= merges@.len(),
            merges_in_range(merges@, n as nat),
            remap.wf(),
            remap@.len() == n,
            remap@ == spec_merge_all(identity(n as nat), merges@.take(k as int)),
            dead@ == spec_merge_dead(identity(n as nat), merges@.take(k as int)),
        decreases merges.len() - k,
    {
        let (from, into) = merges[k];
        assert(merges@[k as int].0 < n && merges@[k as int].1 < n);
        let d = remap.link(from, into);
        match d {
            Some(f) => dead.push(f),
            None => {},
        }
        proof {
            assert(merges@.take(k + 1).drop_last() =~= merges@.take(k as int));
        }
        k = k + 1;
    }
    proof {
        assert(merges@.take(merges@.len() as int) =~= merges@);
    }
    (remap, dead)
}

/// A weld keeps the resolution well formed and never separates plates already joined.
pub proof fn lemma_link_keeps(view: Seq<u32>, from: u32, into: u32)
    requires
        is_resolution(view),
        from < view.len(),
        into < view.len(),
    ensures
        is_resolution(spec_link(view, from, into)),
        spec_link(view, from, into).len() == view.len(),
        spec_link(view, from, into)[from as int] == spec_link(view, from, into)[into as int],
        forall|a: int, b: int|
            0 <= a < view.len() && 0 <= b < view.len() && view[a] == view[b] ==> #[trigger] spec_link(
                view,
                from,
                into,
            )[a] == #[trigger] spec_link(view, from, into)[b],
        forall|x: int|
            0 <= x < view.len() ==> (#[trigger] spec_link(view, from, into)[x] == x <==> (view[x] == x
                && spec_link_dead(view, from, into) != Some(x as u32))),
{
    let v2 = spec_link(view, from, into);
    let f = view[from as int];
    let i = view[into as int];
    assert(view[f as int] == f);
    assert(view[i as int] == i);
    if f != i {
        assert forall|x: int| #![trigger v2[x]] 0 <= x < v2.len() implies v2[x] < v2.len() && v2[v2[x] as int]
            == v2[x] by {
            assert(view[view[x] as int] == view[x]);
        }
    }
}

/// A weld of `from` into `into` hands the whole group of `from` to the plate that owns `into`:
/// that plate keeps its identity (it still resolves to itself), every plate of the group of `from`
/// now resolves to it, no other plate changes, and the plate that ends is the old owner of
/// `from`, exactly when the two were separate.
pub proof fn lemma_weld_keeps_into(view: Seq<u32>, from: u32, into: u32)
    requires
        is_resolution(view),
        from < view.len(),
        into < view.len(),
    ensures
        spec_link(view, from, into).len() == view.len(),
        spec_link(view, from, into)[view[into as int] as int] == view[into as int],
        spec_link(view, from, into)[from as int] == view[into as int],
        spec_link(view, from, into)[into as int] == view[into as int],
        forall|y: int|
            0 <= y < view.len() && view[y] != view[from as int] ==> #[trigger] spec_link(view, from, into)[y]
                == view[y],
        forall|y: int|
            0 <= y < view.len() && view[y] == view[from as int] ==> #[trigger] spec_link(view, from, into)[y]
                == view[into as int],
        view[from as int] != view[into as int] ==> spec_link_dead(view, from, into) == Some(view[from as int]),
        view[from as int] == view[into as int] ==> spec_link_dead(view, from, into) is None,
{
    let i = view[into as int];
    assert(view[i as int] == i);
}

/// The laws of welding a whole list: the result is a resolution, every requested weld holds at
/// the end, and a plate has stopped being its own exactly when it was reported as ended, once.
pub proof fn lemma_merge_all(n: nat, merges: Seq<(u32, u32)>)
    requires
        n <= u32::MAX as nat + 1,
        merges_in_range(merges, n),
    ensures
        is_resolution(spec_merge_all(identity(n), merges)),
        spec_merge_all(identity(n), merges).len() == n,
        forall|k: int|
            #![trigger merges[k]]
            0 <= k < merges.len() ==> spec_merge_all(identity(n), merges)[merges[k].0 as int]
                == spec_merge_all(identity(n), merges)[merges[k].1 as int],
        forall|x: int|
            0 <= x < n ==> (#[trigger] spec_merge_all(identity(n), merges)[x] != x
                <==> spec_merge_dead(identity(n), merges).contains(x as u32)),
        spec_merge_dead(identity(n), merges).no_duplicates(),
    decreases merges.len(),
{
    let id = identity(n);
    if merges.len() == 0 {
        assert forall|x: int| #![trigger id[x]] 0 <= x < id.len() implies id[x] < id.len() && id[id[x] as int] == id[x] by {}
        assert forall|x: int| 0 <= x < n implies (#[trigger] spec_merge_all(id, merges)[x] != x
            <==> spec_merge_dead(id, merges).contains(x as u32)) by {}
    } else {
        let prev_m = merges.drop_last();
        assert(merges_in_range(prev_m, n)) by {
            assert forall|k: int| #![trigger prev_m[k]] 0 <= k < prev_m.len() implies prev_m[k].0 < n && prev_m[k].1 < n by {
                assert(prev_m[k] == merges[k]);
            }
        }
        lemma_merge_all(n, prev_m);
        let prev = spec_merge_all(id, prev_m);
        let (a, b) = merges.last();
        assert(merges[merges.len() - 1] == merges.last());
        lemma_link_keeps(prev, a, b);
        let cur = spec_merge_all(id, merges);
        assert(cur == spec_link(prev, a, b));
        assert forall|k: int| #![trigger merges[k]] 0 <= k < merges.len() implies cur[merges[k].0 as int]
            == cur[merges[k].1 as int] by {
            if k < merges.len() - 1 {
                assert(merges[k] == prev_m[k]);
                assert(prev[prev_m[k].0 as int] == prev[prev_m[k].1 as int]);
            }
        }
        let dprev = spec_merge_dead(id, prev_m);
        let d = spec_merge_dead(id, merges);
        assert forall|x: int| 0 <= x < n implies (#[trigger] cur[x] != x <==> d.contains(x as u32)) by {
            assert(prev[x] != x <==> dprev.contains(x as u32));
            match spec_link_dead(prev, a, b) {
                Some(f) => {
                    assert(d == dprev.push(f));
                    if x == f {
                        assert(d[d.len() - 1] == f);
                    }
                    if dprev.contains(x as u32) {
                        let j = choose|j: int| 0 <= j < dprev.len() && dprev[j] == x as u32;
                        assert(d[j] == x as u32);
                    }
                    if d.contains(x as u32) && x != f {
                        let j = choose|j: int| 0 <= j < d.len() && d[j] == x as u32;
                        assert(j < dprev.len());
                        assert(dprev[j] == x as u32);
                    }
                },
                None => {
                    assert(d == dprev);
                },
            }
        }
        match spec_link_dead(prev, a, b) {
            Some(f) => {
                assert(prev[f as int] == f);
                assert(!dprev.contains(f));
                assert forall|p: int, q: int| 0 <= p < d.len() && 0 <= q < d.len() && p != q implies d[p]
                    != d[q] by {
                    if p == d.len() - 1 {
                        assert(dprev.contains(d[q]) ==> true);
                        assert(d[q] == dprev[q]);
                    } else if q == d.len() - 1 {
                        assert(d[p] == dprev[p]);
                    } else {
                        assert(d[p] == dprev[p] && d[q] == dprev[q]);
                    }
                }
            },
            None => {},
        }
    }
}

} // verus!
