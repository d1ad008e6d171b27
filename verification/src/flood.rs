//! Flood fill over a neighbour graph: the connected block of parcels that contains a start parcel.
//!
//! The neighbour lists come from the spatial queries of the caller (which parcels lie close enough
//! and qualify); the fill itself is plain graph search.
use vstd::prelude::*;

verus! {

/// All neighbour lists name existing nodes.
pub open spec fn adj_ok(adj: Seq<Seq<usize>>) -> bool {
    forall|v: int, k: int|
        #![trigger adj[v][k]]
        0 <= v < adj.len() && 0 <= k < adj[v].len() ==> adj[v][k] < adj.len()
}

/// `path` is a walk along neighbour links.
pub open spec fn is_walk(adj: Seq<Seq<usize>>, path: Seq<usize>) -> bool {
    &&& path.len() >= 1
    &&& forall|k: int| #![trigger path[k]] 0 <= k < path.len() ==> path[k] < adj.len()
    &&& forall|k: int|
        #![trigger path[k + 1]]
        0 <= k < path.len() - 1 ==> adj[path[k] as int].contains(path[k + 1])
}

/// `x` can be reached from `start` by following neighbour links.
pub open spec fn reachable(adj: Seq<Seq<usize>>, start: usize, x: usize) -> bool {
    exists|path: Seq<usize>|
        #![trigger is_walk(adj, path), path.last()]
        is_walk(adj, path) && path[0] == start && path.last() == x
}

proof fn lemma_walk_extend(adj: Seq<Seq<usize>>, path: Seq<usize>, y: usize)
    requires
        is_walk(adj, path),
        y < adj.len(),
        adj[path.last() as int].contains(y),
    ensures
        is_walk(adj, path.push(y)),
        path.push(y)[0] == path[0],
        path.push(y).last() == y,
{
    let p2 = path.push(y);
    assert forall|k: int| #![trigger p2[k + 1]] 0 <= k < p2.len() - 1 implies adj[p2[k] as int].contains(
        p2[k + 1],
    ) by {
        if k < path.len() - 1 {
            assert(p2[k] == path[k] && p2[k + 1] == path[k + 1]);
        }
    }
}

/// A set that holds `start` and is closed under neighbour links holds everything reachable.
proof fn lemma_closed_holds_reachable(adj: Seq<Seq<usize>>, inside: Seq<bool>, start: usize, path: Seq<usize>)
    requires
        inside.len() == adj.len(),
        adj_ok(adj),
        start < adj.len(),
        inside[start as int],
        forall|v: int, k: int|
            #![trigger adj[v][k]]
            0 <= v < adj.len() && inside[v] && 0 <= k < adj[v].len() ==> inside[adj[v][k] as int],
        is_walk(adj, path),
        path[0] == start,
    ensures
        inside[path.last() as int],
    decreases path.len(),
{
    if path.len() > 1 {
        let pre = path.drop_last();
        assert(is_walk(adj, pre)) by {
            assert forall|k: int| #![trigger pre[k + 1]] 0 <= k < pre.len() - 1 implies adj[pre[k] as int].contains(
                pre[k + 1],
            ) by {
                assert(pre[k] == path[k] && pre[k + 1] == path[k + 1]);
            }
            assert forall|k: int| #![trigger pre[k]] 0 <= k < pre.len() implies pre[k] < adj.len() by {
                assert(pre[k] == path[k]);
            }
        }
        lemma_closed_holds_reachable(adj, inside, start, pre);
        let v = pre.last() as int;
        assert(path[path.len() - 2] == v);
        let k2 = path.len() - 2;
        assert(adj[path[k2] as int].contains(path[k2 + 1]));
        let k = choose|k: int| 0 <= k < adj[v].len() && adj[v][k] == path.last();
        assert(inside[adj[v][k] as int]);
    }
}

/// A sequence without repeats of numbers below `n` has at most `n` elements.
proof fn lemma_bounded_unique_len(s: Seq<usize>, n: usize)
    requires
        s.no_duplicates(),
        forall|x: int| #![trigger s[x]] 0 <= x < s.len() ==> s[x] < n,
    ensures
        s.len() <= n,
    decreases n,
{
    if n == 0 {
        if s.len() > 0 {
            assert(s[0] < 0);
        }
    } else {
        let top = (n - 1) as usize;
        if s.contains(top) {
            let p = choose|p: int| 0 <= p < s.len() && s[p] == top;
            let s2 = s.remove(p);
            assert forall|x: int| #![trigger s2[x]] 0 <= x < s2.len() implies s2[x] < top by {
                if x < p {
                    assert(s2[x] == s[x]);
                } else {
                    assert(s2[x] == s[x + 1]);
                }
            }
            assert(s2.no_duplicates()) by {
                assert forall|a: int, b: int| 0 <= a < s2.len() && 0 <= b < s2.len() && a != b implies s2[a] != s2[b] by {
                    let a2 = if a < p { a } else { a + 1 };
                    let b2 = if b < p { b } else { b + 1 };
                    assert(s2[a] == s[a2] && s2[b] == s[b2]);
                }
            }
            lemma_bounded_unique_len(s2, top);
        } else {
            assert forall|x: int| #![trigger s[x]] 0 <= x < s.len() implies s[x] < top by {
                assert(s[x] != top);
            }
            lemma_bounded_unique_len(s, top);
        }
    }
}

/// The block of nodes connected to `start`, in the order the search reaches them (start first).
/// Each reachable node appears exactly once and nothing else appears.
pub fn flood_fill(adj: &Vec<Vec<usize>>, start: usize) -> (out: Vec<usize>)
    requires
        start < adj@.len(),
        adj_ok(adj@.map_values(|l: Vec<usize>| l@)),
    ensures
        out@.len() >= 1,
        out@[0] == start,
        out@.no_duplicates(),
        forall|x: usize|
            #![trigger out@.contains(x)]
            out@.contains(x) <==> (x < adj@.len() && reachable(
                adj@.map_values(|l: Vec<usize>| l@),
                start,
                x,
            )),
{
    let ghost g = adj@.map_values(|l: Vec<usize>| l@);
    let n = adj.len();
    let mut seen: Vec<bool> = Vec::with_capacity(n);
    let mut k: usize = 0;
    while k < n
        invariant
            k <= n,
            seen@.len() == k,
            forall|x: int| 0 <= x < k ==> !(#[trigger] seen@[x]),
        decreases n - k,
    {
        seen.push(false);
        k = k + 1;
    }
    seen.set(start, true);
    let mut stack: Vec<usize> = Vec::new();
    stack.push(start);
    let mut out: Vec<usize> = Vec::new();
    proof {
        let p = seq![start];
        assert(is_walk(g, p));
        assert(p.last() == start);
    }
    while stack.len() > 0
        invariant
            n == adj@.len(),
            g == adj@.map_values(|l: Vec<usize>| l@),
            adj_ok(g),
            start < n,
            seen@.len() == n,
            seen@[start as int],
            out@.len() >= 1 ==> out@[0] == start,
            out@.len() == 0 ==> stack@ == seq![start],
            out@.no_duplicates(),
            stack@.no_duplicates(),
            forall|x: usize| #[trigger] out@.contains(x) ==> !stack@.contains(x),
            forall|x: int| #![trigger out@[x]] 0 <= x < out@.len() ==> out@[x] < n,
            forall|x: int| #![trigger stack@[x]] 0 <= x < stack@.len() ==> stack@[x] < n,
            forall|x: usize| x < n ==> (#[trigger] seen@[x as int] <==> (out@.contains(x) || stack@.contains(x))),
            forall|x: usize| x < n && #[trigger] seen@[x as int] ==> reachable(g, start, x),
            forall|v: int, j: int|
                #![trigger g[out@[v] as int][j]]
                0 <= v < out@.len() && 0 <= j < g[out@[v] as int].len() ==> seen@[g[out@[v] as int][j] as int],
        decreases n - out@.len(),
    {
        let ghost out0 = out@;
        let ghost stack0 = stack@;
        let i = stack.pop().unwrap();
        out.push(i);
        proof {
            assert(stack0 == stack@.push(i));
            assert(stack0[stack0.len() - 1] == i);
            assert(!out0.contains(i));
            assert forall|x: usize| #[trigger] out@.contains(x) implies !stack@.contains(x) by {
                if x != i {
                    let p = choose|p: int| 0 <= p < out@.len() && out@[p] == x;
                    assert(p < out0.len() && out0[p] == x);
                    assert(out0.contains(x));
                    if stack@.contains(x) {
                        let q = choose|q: int| 0 <= q < stack@.len() && stack@[q] == x;
                        assert(stack0[q] == x);
                        assert(stack0.contains(x));
                    }
                } else {
                    if stack@.contains(x) {
                        let q = choose|q: int| 0 <= q < stack@.len() && stack@[q] == x;
                        assert(stack0[q] == x);
                        assert(q != stack0.len() - 1);
                        assert(stack0[q] == stack0[stack0.len() - 1]);
                    }
                }
            }
            assert forall|x: usize| x < n implies (#[trigger] seen@[x as int] <==> (out@.contains(x) || stack@.contains(x))) by {
                if out0.contains(x) {
                    let p = choose|p: int| 0 <= p < out0.len() && out0[p] == x;
                    assert(out@[p] == x);
                }
                if stack0.contains(x) && x != i {
                    let q = choose|q: int| 0 <= q < stack0.len() && stack0[q] == x;
                    assert(q < stack@.len() && stack@[q] == x);
                }
                if out@.contains(x) && x != i {
                    let p = choose|p: int| 0 <= p < out@.len() && out@[p] == x;
                    assert(out0[p] == x);
                }
                if stack@.contains(x) {
                    let q = choose|q: int| 0 <= q < stack@.len() && stack@[q] == x;
                    assert(stack0[q] == x);
                }
                if x == i {
                    assert(out@[out@.len() - 1] == i);
                }
            }
            assert(out@.no_duplicates()) by {
                assert forall|p: int, q: int| 0 <= p < out@.len() && 0 <= q < out@.len() && p != q implies out@[p] != out@[q] by {
                    if p == out@.len() - 1 {
                        assert(out0[q] == out@[q]);
                    } else if q == out@.len() - 1 {
                        assert(out0[p] == out@[p]);
                    } else {
                        assert(out0[p] == out@[p] && out0[q] == out@[q]);
                    }
                }
            }
            lemma_bounded_unique_len(out@, n);
        }
        let nb = &adj[i];
        let m = nb.len();
        let mut j: usize = 0;
        while j < m
            invariant
                n == adj@.len(),
                g == adj@.map_values(|l: Vec<usize>| l@),
                adj_ok(g),
                i < n,
                nb@ == g[i as int],
                m == nb@.len(),
                j <= m,
                start < n,
                seen@.len() == n,
                seen@[start as int],
                out@.len() >= 1,
                out@.len() <= n,
                out@[0] == start,
                out@.last() == i,
                out@.no_duplicates(),
                stack@.no_duplicates(),
                forall|x: usize| #[trigger] out@.contains(x) ==> !stack@.contains(x),
                forall|x: int| #![trigger out@[x]] 0 <= x < out@.len() ==> out@[x] < n,
                forall|x: int| #![trigger stack@[x]] 0 <= x < stack@.len() ==> stack@[x] < n,
                forall|x: usize| x < n ==> (#[trigger] seen@[x as int] <==> (out@.contains(x) || stack@.contains(x))),
                forall|x: usize| x < n && #[trigger] seen@[x as int] ==> reachable(g, start, x),
                forall|v: int, q: int|
                    #![trigger g[out@[v] as int][q]]
                    0 <= v < out@.len() - 1 && 0 <= q < g[out@[v] as int].len() ==> seen@[g[out@[v] as int][q] as int],
                forall|q: int| 0 <= q < j ==> seen@[#[trigger] nb@[q] as int],
            decreases m - j,
        {
            let y = nb[j];
            assert(g[i as int][j as int] == y);
            if !seen[y] {
                let ghost seen0 = seen@;
                let ghost st0 = stack@;
                proof {
                    assert(seen@[i as int]) by {
                        assert(out@.contains(i)) by {
                            assert(out@[out@.len() - 1] == i);
                        }
                    }
                    let w = choose|path: Seq<usize>|
                        #![trigger is_walk(g, path), path.last()]
                        is_walk(g, path) && path[0] == start && path.last() == i;
                    assert(g[i as int].contains(y));
                    lemma_walk_extend(g, w, y);
                    let w2 = w.push(y);
                    assert(is_walk(g, w2) && w2[0] == start && w2.last() == y);
                    assert(reachable(g, start, y));
                }
                seen.set(y, true);
                stack.push(y);
                proof {
                    assert(!st0.contains(y));
                    assert(!out@.contains(y));
                    assert(stack@[stack@.len() - 1] == y);
                    assert forall|x: usize| x < n implies (#[trigger] seen@[x as int] <==> (out@.contains(x) || stack@.contains(x))) by {
                        if x != y {
                            if st0.contains(x) {
                                let q = choose|q: int| 0 <= q < st0.len() && st0[q] == x;
                                assert(stack@[q] == x);
                            }
                            if stack@.contains(x) {
                                let q = choose|q: int| 0 <= q < stack@.len() && stack@[q] == x;
                                assert(q < st0.len() && st0[q] == x);
                            }
                        }
                    }
                    assert forall|x: usize| #[trigger] out@.contains(x) implies !stack@.contains(x) by {
                        if stack@.contains(x) {
                            let q = choose|q: int| 0 <= q < stack@.len() && stack@[q] == x;
                            if q < st0.len() {
                                assert(st0[q] == x);
                            }
                        }
                    }
                    assert(stack@.no_duplicates()) by {
                        assert forall|p: int, q: int| 0 <= p < stack@.len() && 0 <= q < stack@.len() && p != q implies stack@[p] != stack@[q] by {
                            if p == stack@.len() - 1 {
                                assert(st0[q] == stack@[q]);
                            } else if q == stack@.len() - 1 {
                                assert(st0[p] == stack@[p]);
                            } else {
                                assert(st0[p] == stack@[p] && st0[q] == stack@[q]);
                            }
                        }
                    }
                    assert forall|v: int, q: int|
                        #![trigger g[out@[v] as int][q]]
                        0 <= v < out@.len() - 1 && 0 <= q < g[out@[v] as int].len() implies seen@[g[out@[v] as int][q] as int] by {
                        assert(seen0[g[out@[v] as int][q] as int]);
                    }
                    assert forall|q: int| 0 <= q < j implies seen@[#[trigger] nb@[q] as int] by {
                        assert(seen0[nb@[q] as int]);
                    }
                }
            }
            j = j + 1;
        }
        proof {
            assert forall|v: int, q: int|
                #![trigger g[out@[v] as int][q]]
                0 <= v < out@.len() && 0 <= q < g[out@[v] as int].len() implies seen@[g[out@[v] as int][q] as int] by {
                if v == out@.len() - 1 {
                    assert(out@[v] == i);
                    assert(nb@[q] == g[i as int][q]);
                }
            }
        }
    }
    proof {
        assert(stack@ =~= Seq::<usize>::empty());
        assert forall|x: usize| #![trigger out@.contains(x)] out@.contains(x) <==> (x < adj@.len() && reachable(
            g,
            start,
            x,
        )) by {
            if out@.contains(x) {
                let p = choose|p: int| 0 <= p < out@.len() && out@[p] == x;
                assert(out@[p] < n);
                assert(seen@[x as int]);
            }
            if x < n && reachable(g, start, x) {
                let w = choose|path: Seq<usize>|
                    #![trigger is_walk(g, path), path.last()]
                    is_walk(g, path) && path[0] == start && path.last() == x;
                assert forall|v: int, q: int|
                    #![trigger g[v][q]]
                    0 <= v < g.len() && seen@[v] && 0 <= q < g[v].len() implies seen@[g[v][q] as int] by {
                    assert(out@.contains(v as usize) || stack@.contains(v as usize));
                    let p = choose|p: int| 0 <= p < out@.len() && out@[p] == v as usize;
                    assert(g[out@[p] as int][q] == g[v][q]);
                }
                lemma_closed_holds_reachable(g, seen@, start, w);
                assert(seen@[x as int]);
            }
        }
    }
    out
}

} // verus!
