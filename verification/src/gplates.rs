//! Plate identifiers and plate lifetimes for the GPlates export.
use vstd::prelude::*;

verus! {

/// GPlates plate id of plate index `i`: 000 is the anchor, so index `i` becomes `100 + i`.
pub fn gid(i: usize) -> (id: u32)
    requires
        (i as u32) + 100 <= u32::MAX,
    ensures
        id == (i as u32) + 100,
{
    let j: u32 = i as u32;
    100 + j
}

/// The rows of a table of flags, as sequences.
pub open spec fn row_views(rows: Seq<Vec<bool>>) -> Seq<Seq<bool>> {
    rows.map_values(|r: Vec<bool>| r@)
}

/// Plate `i` is alive in rotation sample `si` (the sample row covers it and records a rotation).
pub open spec fn alive_in(rows: Seq<Seq<bool>>, si: int, i: int) -> bool {
    i < rows[si].len() && rows[si][i]
}

/// The first and last rotation samples in which each of `np` plates is alive: the span over
/// which the plate is exported.
pub fn plate_lifetimes(np: usize, rows: &Vec<Vec<bool>>) -> (res: (Vec<Option<usize>>, Vec<Option<usize>>))
    ensures
        res.0@.len() == np,
        res.1@.len() == np,
        forall|i: int|
            0 <= i < np ==> match #[trigger] res.0@[i] {
                Some(f) => f < rows@.len() && alive_in(row_views(rows@), f as int, i)
                    && forall|si: int|
                    0 <= si < f ==> !#[trigger] alive_in(row_views(rows@), si, i),
                None => forall|si: int|
                    0 <= si < rows@.len() ==> !#[trigger] alive_in(row_views(rows@), si, i),
            },
        forall|i: int|
            0 <= i < np ==> match #[trigger] res.1@[i] {
                Some(l) => l < rows@.len() && alive_in(row_views(rows@), l as int, i)
                    && forall|si: int|
                    l < si < rows@.len() ==> !#[trigger] alive_in(row_views(rows@), si, i),
                None => forall|si: int|
                    0 <= si < rows@.len() ==> !#[trigger] alive_in(row_views(rows@), si, i),
            },
{
    let ghost g = row_views(rows@);
    let mut first: Vec<Option<usize>> = Vec::with_capacity(np);
    let mut last: Vec<Option<usize>> = Vec::with_capacity(np);
    let mut k: usize = 0;
    while k < np
        invariant
            k <= np,
            first@.len() == k,
            last@.len() == k,
            forall|i: int| 0 <= i < k ==> #[trigger] first@[i] is None,
            forall|i: int| 0 <= i < k ==> #[trigger] last@[i] is None,
        decreases np - k,
    {
        first.push(None);
        last.push(None);
        k = k + 1;
    }
    let mut si: usize = 0;
    while si < rows.len()
        invariant
            g == row_views(rows@),
            si <= rows@.len(),
            first@.len() == np,
            last@.len() == np,
            forall|i: int|
                0 <= i < np ==> match #[trigger] first@[i] {
                    Some(f) => f < si && alive_in(g, f as int, i) && forall|s: int|
                        0 <= s < f ==> !#[trigger] alive_in(g, s, i),
                    None => forall|s: int| 0 <= s < si ==> !#[trigger] alive_in(g, s, i),
                },
            forall|i: int|
                0 <= i < np ==> match #[trigger] last@[i] {
                    Some(l) => l < si && alive_in(g, l as int, i) && forall|s: int|
                        l < s < si ==> !#[trigger] alive_in(g, s, i),
                    None => forall|s: int| 0 <= s < si ==> !#[trigger] alive_in(g, s, i),
                },
        decreases rows@.len() - si,
    {
        let row = &rows[si];
        assert(row@ == g[si as int]);
        let lim = if np < row.len() {
            np
        } else {
            row.len()
        };
        let mut i: usize = 0;
        while i < lim
            invariant
                g == row_views(rows@),
                si < rows@.len(),
                row@ == g[si as int],
                lim <= np,
                lim <= row@.len(),
                i <= lim,
                first@.len() == np,
                last@.len() == np,
                forall|j: int|
                    0 <= j < np ==> match #[trigger] first@[j] {
                        Some(f) => f <= si && alive_in(g, f as int, j) && forall|s: int|
                            0 <= s < f ==> !#[trigger] alive_in(g, s, j),
                        None => forall|s: int| 0 <= s < si ==> !#[trigger] alive_in(g, s, j),
                    },
                forall|j: int|
                    0 <= j < np ==> match #[trigger] last@[j] {
                        Some(l) => l <= si && alive_in(g, l as int, j) && forall|s: int|
                            l < s < si ==> !#[trigger] alive_in(g, s, j),
                        None => forall|s: int| 0 <= s < si ==> !#[trigger] alive_in(g, s, j),
                    },
                forall|j: int|
                    0 <= j < i ==> (#[trigger] alive_in(g, si as int, j) ==> last@[j] == Some(si)),
                forall|j: int|
                    0 <= j < i ==> (#[trigger] alive_in(g, si as int, j) ==> first@[j] is Some),
                forall|j: int|
                    0 <= j < np && (j >= i || !alive_in(g, si as int, j)) ==> match #[trigger] first@[j] {
                        Some(f) => f < si,
                        None => true,
                    },
                forall|j: int|
                    0 <= j < np && (j >= i || !alive_in(g, si as int, j)) ==> match #[trigger] last@[j] {
                        Some(l) => l < si,
                        None => true,
                    },
            decreases lim - i,
        {
            if row[i] {
                if first[i].is_none() {
                    first.set(i, Some(si));
                }
                last.set(i, Some(si));
            }
            i = i + 1;
        }
        proof {
            assert forall|j: int| 0 <= j < np implies match #[trigger] first@[j] {
                Some(f) => f < si + 1 && alive_in(g, f as int, j) && forall|s: int|
                    0 <= s < f ==> !#[trigger] alive_in(g, s, j),
                None => forall|s: int| 0 <= s < si + 1 ==> !#[trigger] alive_in(g, s, j),
            } by {
                if j >= lim {
                    assert(!alive_in(g, si as int, j));
                }
            }
            assert forall|j: int| 0 <= j < np implies match #[trigger] last@[j] {
                Some(l) => l < si + 1 && alive_in(g, l as int, j) && forall|s: int|
                    l < s < si + 1 ==> !#[trigger] alive_in(g, s, j),
                None => forall|s: int| 0 <= s < si + 1 ==> !#[trigger] alive_in(g, s, j),
            } by {
                if j >= lim {
                    assert(!alive_in(g, si as int, j));
                }
            }
        }
        si = si + 1;
    }
    (first, last)
}

} // verus!
