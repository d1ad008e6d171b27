//! Census of a rendered plate map: pixels, continental pixels and boundary pixels per plate, and
//! the coarse cell where each plate's label goes.
use crate::census::{count_upto, lemma_count_upto_le};
use crate::raster::{grid_ok, lemma_index, spec_is_boundary};
use vstd::prelude::*;

verus! {

/// Columns and rows of the coarse label grid.
pub const GX: usize = 96;
pub const GY: usize = 48;

/// Pixel `p` of a `wd`-wide raster shows plate `id`.
pub open spec fn shows(ids: Seq<u32>, p: int, id: u32) -> bool {
    ids[p] == id
}

/// Label-grid cell of pixel `p`.
pub open spec fn cell_of(wd: int, ht: int, p: int) -> int {
    ((p / wd) * GY as int / ht) * GX as int + (p % wd) * GX as int / wd
}

/// Sum of `f` over the indices below `k`.
pub open spec fn sum_upto(k: nat, f: spec_fn(int) -> int) -> int
    decreases k,
{
    if k == 0 {
        0
    } else {
        sum_upto((k - 1) as nat, f) + f(k - 1)
    }
}

/// Pixels of plate `id` in label cell `c`.
pub open spec fn in_cell(ids: Seq<u32>, wd: int, ht: int, id: u32, c: int) -> spec_fn(int) -> bool {
    |p: int| ids[p] == id && cell_of(wd, ht, p) == c
}

/// Sum of the columns (`axis` 0) or rows (`axis` 1) of the pixels of plate `id` in cell `c`.
pub open spec fn coord_in_cell(ids: Seq<u32>, wd: int, ht: int, id: u32, c: int, axis: int) -> spec_fn(int) -> int {
    |p: int| if ids[p] == id && cell_of(wd, ht, p) == c {
        if axis == 0 {
            p % wd
        } else {
            p / wd
        }
    } else {
        0
    }
}

/// The label cell of plate `id` among cells `0 ..< upto`: most pixels, the lowest cell on ties,
/// cell 0 when the plate shows nowhere.
pub open spec fn best_cell_upto(ids: Seq<u32>, wd: int, ht: int, id: u32, upto: int) -> int
    decreases upto,
{
    if upto <= 1 {
        0
    } else {
        let prev = best_cell_upto(ids, wd, ht, id, upto - 1);
        if count_upto(ids.len(), in_cell(ids, wd, ht, id, upto - 1)) > count_upto(
            ids.len(),
            in_cell(ids, wd, ht, id, prev),
        ) {
            upto - 1
        } else {
            prev
        }
    }
}

pub open spec fn best_cell(ids: Seq<u32>, wd: int, ht: int, id: u32) -> int {
    best_cell_upto(ids, wd, ht, id, (GX * GY) as int)
}

/// Pixels of plate `id` in label cell `c`.
pub open spec fn cell_count(ids: Seq<u32>, wd: int, ht: int, id: u32, c: int) -> nat {
    count_upto(ids.len(), in_cell(ids, wd, ht, id, c))
}

proof fn lemma_best_cell_upto(ids: Seq<u32>, wd: int, ht: int, id: u32, upto: int)
    requires
        upto >= 1,
    ensures
        ({
            let b = best_cell_upto(ids, wd, ht, id, upto);
            &&& 0 <= b < upto
            &&& forall|c: int| 0 <= c < upto ==> #[trigger] cell_count(ids, wd, ht, id, c) <= cell_count(ids, wd, ht, id, b)
            &&& forall|c: int| 0 <= c < b ==> #[trigger] cell_count(ids, wd, ht, id, c) < cell_count(ids, wd, ht, id, b)
        }),
    decreases upto,
{
    if upto > 1 {
        lemma_best_cell_upto(ids, wd, ht, id, upto - 1);
    }
}

/// The label cell of a plate is a cell of the label grid holding at least as many of its pixels
/// as any other cell, and strictly more than every lower cell (the lowest cell wins a tie).
pub proof fn lemma_label_cell_is_fullest(ids: Seq<u32>, wd: int, ht: int, id: u32)
    ensures
        ({
            let b = best_cell(ids, wd, ht, id);
            &&& 0 <= b < GX * GY
            &&& forall|c: int| 0 <= c < GX * GY ==> #[trigger] cell_count(ids, wd, ht, id, c) <= cell_count(ids, wd, ht, id, b)
            &&& forall|c: int| 0 <= c < b ==> #[trigger] cell_count(ids, wd, ht, id, c) < cell_count(ids, wd, ht, id, b)
        }),
{
    lemma_best_cell_upto(ids, wd, ht, id, (GX * GY) as int);
}

/// Pixel counts per plate id below `n_ids`.
pub struct PixelCensus {
    /// Pixels showing each plate.
    pub n: Vec<u64>,
    /// Continental pixels of each plate.
    pub n_cont: Vec<u64>,
    /// Pixels of each plate on its boundary (a neighbour shows another plate, or none).
    pub perim: Vec<u64>,
}

proof fn lemma_pixel_xy(p: int, x: int, y: int, wd: int, ht: int)
    requires
        0 <= x < wd,
        0 <= y < ht,
        p == y * wd + x,
    ensures
        p % wd == x,
        p / wd == y,
{
    vstd::arithmetic::div_mod::lemma_fundamental_div_mod_converse(p, wd, y, x);
}

/// Count, per plate id below `n_ids`, its pixels, continental pixels and boundary pixels.
pub fn pixel_census(ids: &Vec<u32>, cont: &Vec<bool>, wd: usize, ht: usize, n_ids: usize) -> (c: PixelCensus)
    requires
        grid_ok(ids@.len(), wd as int, ht as int),
        cont@.len() == ids@.len(),
    ensures
        c.n@.len() == n_ids,
        c.n_cont@.len() == n_ids,
        c.perim@.len() == n_ids,
        forall|id: int|
            0 <= id < n_ids ==> #[trigger] c.n@[id] == count_upto(ids@.len(), |p: int| ids@[p] == id),
        forall|id: int|
            0 <= id < n_ids ==> #[trigger] c.n_cont@[id] == count_upto(ids@.len(), |p: int| ids@[p] == id && cont@[p]),
        forall|id: int|
            0 <= id < n_ids ==> #[trigger] c.perim@[id] == count_upto(
                ids@.len(),
                |p: int| ids@[p] == id && spec_is_boundary(ids@, wd as int, ht as int, p % (wd as int), p / (wd as int)),
            ),
{
    let mut n: Vec<u64> = Vec::with_capacity(n_ids);
    let mut n_cont: Vec<u64> = Vec::with_capacity(n_ids);
    let mut perim: Vec<u64> = Vec::with_capacity(n_ids);
    let mut k: usize = 0;
    while k < n_ids
        invariant
            k <= n_ids,
            n@.len() == k,
            n_cont@.len() == k,
            perim@.len() == k,
            forall|j: int| 0 <= j < k ==> #[trigger] n@[j] == 0,
            forall|j: int| 0 <= j < k ==> #[trigger] n_cont@[j] == 0,
            forall|j: int| 0 <= j < k ==> #[trigger] perim@[j] == 0,
        decreases n_ids - k,
    {
        n.push(0);
        n_cont.push(0);
        perim.push(0);
        k = k + 1;
    }
    let ghost wdi = wd as int;
    let ghost hti = ht as int;
    let len = ids.len();
    let mut p: usize = 0;
    let mut y: usize = 0;
    while y < ht
        invariant
            grid_ok(ids@.len(), wdi, hti),
            wdi == wd,
            hti == ht,
            len == ids@.len(),
            cont@.len() == ids@.len(),
            y <= ht,
            p == y * wd,
            n@.len() == n_ids,
            n_cont@.len() == n_ids,
            perim@.len() == n_ids,
            forall|id: int| 0 <= id < n_ids ==> #[trigger] n@[id] == count_upto(p as nat, |q: int| ids@[q] == id),
            forall|id: int|
                0 <= id < n_ids ==> #[trigger] n_cont@[id] == count_upto(p as nat, |q: int| ids@[q] == id && cont@[q]),
            forall|id: int|
                0 <= id < n_ids ==> #[trigger] perim@[id] == count_upto(
                    p as nat,
                    |q: int| ids@[q] == id && spec_is_boundary(ids@, wdi, hti, q % wdi, q / wdi),
                ),
        decreases ht - y,
    {
        let mut x: usize = 0;
        while x < wd
            invariant
                grid_ok(ids@.len(), wdi, hti),
                wdi == wd,
                hti == ht,
                len == ids@.len(),
                cont@.len() == ids@.len(),
                y < ht,
                x <= wd,
                p == y * wd + x,
                n@.len() == n_ids,
                n_cont@.len() == n_ids,
                perim@.len() == n_ids,
                forall|id: int| 0 <= id < n_ids ==> #[trigger] n@[id] == count_upto(p as nat, |q: int| ids@[q] == id),
                forall|id: int|
                    0 <= id < n_ids ==> #[trigger] n_cont@[id] == count_upto(p as nat, |q: int| ids@[q] == id && cont@[q]),
                forall|id: int|
                    0 <= id < n_ids ==> #[trigger] perim@[id] == count_upto(
                        p as nat,
                        |q: int| ids@[q] == id && spec_is_boundary(ids@, wdi, hti, q % wdi, q / wdi),
                    ),
            decreases wd - x,
        {
            proof {
                lemma_index(x as int, y as int, wdi, hti);
                lemma_pixel_xy(p as int, x as int, y as int, wdi, hti);
                assert forall|id: int| 0 <= id < n_ids implies #[trigger] n@[id] <= p && n_cont@[id] <= p && perim@[id] <= p by {
                    lemma_count_upto_le(p as nat, |q: int| ids@[q] == id);
                    lemma_count_upto_le(p as nat, |q: int| ids@[q] == id && cont@[q]);
                    lemma_count_upto_le(
                        p as nat,
                        |q: int| ids@[q] == id && spec_is_boundary(ids@, wdi, hti, q % wdi, q / wdi),
                    );
                }
            }
            let id = ids[p] as usize;
            if id < n_ids {
                let v = n[id];
                n.set(id, v + 1);
                if cont[p] {
                    let vc = n_cont[id];
                    n_cont.set(id, vc + 1);
                }
                if crate::raster::is_boundary(ids, wd, ht, x, y) {
                    let vp = perim[id];
                    perim.set(id, vp + 1);
                }
            }
            proof {
                assert forall|j: int| 0 <= j < n_ids implies #[trigger] n@[j] == count_upto((p + 1) as nat, |q: int| ids@[q] == j) by {
                    assert(count_upto((p + 1) as nat, |q: int| ids@[q] == j) == count_upto(p as nat, |q: int| ids@[q] == j)
                        + if ids@[p as int] == j { 1nat } else { 0nat });
                }
                assert forall|j: int| 0 <= j < n_ids implies #[trigger] n_cont@[j] == count_upto((p + 1) as nat, |q: int| ids@[q] == j && cont@[q]) by {
                    assert(count_upto((p + 1) as nat, |q: int| ids@[q] == j && cont@[q]) == count_upto(p as nat, |q: int| ids@[q] == j && cont@[q])
                        + if ids@[p as int] == j && cont@[p as int] { 1nat } else { 0nat });
                }
                assert forall|j: int| 0 <= j < n_ids implies #[trigger] perim@[j] == count_upto(
                    (p + 1) as nat,
                    |q: int| ids@[q] == j && spec_is_boundary(ids@, wdi, hti, q % wdi, q / wdi),
                ) by {
                    let f = |q: int| ids@[q] == j && spec_is_boundary(ids@, wdi, hti, q % wdi, q / wdi);
                    assert(count_upto((p + 1) as nat, f) == count_upto(p as nat, f) + if f(p as int) { 1nat } else { 0nat });
                }
            }
            p = p + 1;
            x = x + 1;
        }
        proof {
            assert(p == (y + 1) * wd) by (nonlinear_arith)
                requires
                    p == y * wd + wd,
            ;
        }
        y = y + 1;
    }
    proof {
        assert(p == ids@.len()) by (nonlinear_arith)
            requires
                p == hti * wdi,
                ids@.len() == wdi * hti,
        ;
    }
    PixelCensus { n, n_cont, perim }
}

/// Label cell of plate `id`: the cell of the coarse `GX x GY` grid holding most of its pixels (the
/// lowest cell on ties), with the pixel count there and the sums of their columns and rows.
pub fn label_cell(ids: &Vec<u32>, wd: usize, ht: usize, id: u32) -> (r: (usize, u64, u64, u64))
    requires
        grid_ok(ids@.len(), wd as int, ht as int),
        ids@.len() <= 0x1_0000_0000,
    ensures
        r.0 == best_cell(ids@, wd as int, ht as int, id),
        r.0 < GX * GY,
        r.1 == count_upto(ids@.len(), in_cell(ids@, wd as int, ht as int, id, r.0 as int)),
        r.2 == sum_upto(ids@.len(), coord_in_cell(ids@, wd as int, ht as int, id, r.0 as int, 0)),
        r.3 == sum_upto(ids@.len(), coord_in_cell(ids@, wd as int, ht as int, id, r.0 as int, 1)),
{
    let ncell: usize = GX * GY;
    let mut cnt: Vec<u64> = Vec::with_capacity(ncell);
    let mut sx: Vec<u64> = Vec::with_capacity(ncell);
    let mut sy: Vec<u64> = Vec::with_capacity(ncell);
    let mut k: usize = 0;
    while k < ncell
        invariant
            ncell == GX * GY,
            k <= ncell,
            cnt@.len() == k,
            sx@.len() == k,
            sy@.len() == k,
            forall|j: int| 0 <= j < k ==> #[trigger] cnt@[j] == 0,
            forall|j: int| 0 <= j < k ==> #[trigger] sx@[j] == 0,
            forall|j: int| 0 <= j < k ==> #[trigger] sy@[j] == 0,
        decreases ncell - k,
    {
        cnt.push(0);
        sx.push(0);
        sy.push(0);
        k = k + 1;
    }
    let ghost wdi = wd as int;
    let ghost hti = ht as int;
    let len = ids.len();
    let mut p: usize = 0;
    let mut y: usize = 0;
    while y < ht
        invariant
            grid_ok(ids@.len(), wdi, hti),
            ids@.len() <= 0x1_0000_0000,
            len == ids@.len(),
            wdi == wd,
            hti == ht,
            ncell == GX * GY,
            y <= ht,
            p == y * wd,
            cnt@.len() == ncell,
            sx@.len() == ncell,
            sy@.len() == ncell,
            forall|c: int| 0 <= c < ncell ==> #[trigger] cnt@[c] == count_upto(p as nat, in_cell(ids@, wdi, hti, id, c)),
            forall|c: int| 0 <= c < ncell ==> #[trigger] sx@[c] == sum_upto(p as nat, coord_in_cell(ids@, wdi, hti, id, c, 0)),
            forall|c: int| 0 <= c < ncell ==> #[trigger] sy@[c] == sum_upto(p as nat, coord_in_cell(ids@, wdi, hti, id, c, 1)),
            forall|c: int| 0 <= c < ncell ==> #[trigger] sx@[c] <= p * wd && sy@[c] <= p * ht,
        decreases ht - y,
    {
        let mut x: usize = 0;
        while x < wd
            invariant
                grid_ok(ids@.len(), wdi, hti),
                ids@.len() <= 0x1_0000_0000,
                len == ids@.len(),
                wdi == wd,
                hti == ht,
                ncell == GX * GY,
                y < ht,
                x <= wd,
                p == y * wd + x,
                cnt@.len() == ncell,
                sx@.len() == ncell,
                sy@.len() == ncell,
                forall|c: int| 0 <= c < ncell ==> #[trigger] cnt@[c] == count_upto(p as nat, in_cell(ids@, wdi, hti, id, c)),
                forall|c: int| 0 <= c < ncell ==> #[trigger] sx@[c] == sum_upto(p as nat, coord_in_cell(ids@, wdi, hti, id, c, 0)),
                forall|c: int| 0 <= c < ncell ==> #[trigger] sy@[c] == sum_upto(p as nat, coord_in_cell(ids@, wdi, hti, id, c, 1)),
                forall|c: int| 0 <= c < ncell ==> #[trigger] sx@[c] <= p * wd && sy@[c] <= p * ht,
            decreases wd - x,
        {
            proof {
                lemma_index(x as int, y as int, wdi, hti);
                lemma_pixel_xy(p as int, x as int, y as int, wdi, hti);
                assert forall|c: int| 0 <= c < ncell implies #[trigger] cnt@[c] <= p by {
                    lemma_count_upto_le(p as nat, in_cell(ids@, wdi, hti, id, c));
                }
                assert((y as int * 48) / (ht as int) < 48) by (nonlinear_arith)
                    requires
                        0 <= y < ht,
                        ht >= 1,
                ;
                assert((x as int * 96) / (wd as int) < 96) by (nonlinear_arith)
                    requires
                        0 <= x < wd,
                        wd >= 1,
                ;
                assert(p * wd + wd <= 0x1_0000_0000 * 0x1_0000_0000) by (nonlinear_arith)
                    requires
                        p < wd * ht,
                        wd * ht <= 0x1_0000_0000,
                        wd >= 1,
                        ht >= 1,
                ;
                assert(p * ht + ht <= 0x1_0000_0000 * 0x1_0000_0000) by (nonlinear_arith)
                    requires
                        p < wd * ht,
                        wd * ht <= 0x1_0000_0000,
                        wd >= 1,
                        ht >= 1,
                ;
            }
            let cy = ((y as u64 * 48) / ht as u64) as usize;
            let cx = ((x as u64 * 96) / wd as u64) as usize;
            let c = cy * GX + cx;
            proof {
                assert(c == cell_of(wdi, hti, p as int));
            }
            let ghost sx0 = sx@;
            let ghost sy0 = sy@;
            if ids[p] == id {
                let v = cnt[c];
                cnt.set(c, v + 1);
                let vx = sx[c];
                sx.set(c, vx + x as u64);
                let vy = sy[c];
                sy.set(c, vy + y as u64);
            }
            proof {
                assert forall|d: int| 0 <= d < ncell implies #[trigger] cnt@[d] == count_upto((p + 1) as nat, in_cell(ids@, wdi, hti, id, d)) by {
                    let f = in_cell(ids@, wdi, hti, id, d);
                    assert(count_upto((p + 1) as nat, f) == count_upto(p as nat, f) + if f(p as int) { 1nat } else { 0nat });
                }
                assert forall|d: int| 0 <= d < ncell implies #[trigger] sx@[d] == sum_upto((p + 1) as nat, coord_in_cell(ids@, wdi, hti, id, d, 0)) by {
                    let f = coord_in_cell(ids@, wdi, hti, id, d, 0);
                    assert(sum_upto((p + 1) as nat, f) == sum_upto(p as nat, f) + f(p as int));
                }
                assert forall|d: int| 0 <= d < ncell implies #[trigger] sy@[d] == sum_upto((p + 1) as nat, coord_in_cell(ids@, wdi, hti, id, d, 1)) by {
                    let f = coord_in_cell(ids@, wdi, hti, id, d, 1);
                    assert(sum_upto((p + 1) as nat, f) == sum_upto(p as nat, f) + f(p as int));
                }
                assert forall|d: int| 0 <= d < ncell implies #[trigger] sx@[d] <= (p + 1) * wd && sy@[d] <= (p + 1) * ht by {
                    assert((p + 1) * wd == p * wd + wd) by (nonlinear_arith);
                    assert((p + 1) * ht == p * ht + ht) by (nonlinear_arith);
                    assert(sx0[d] <= p * wd && sy0[d] <= p * ht);
                    if d == c && ids@[p as int] == id {
                        assert(sx@[d] == sx0[d] + x && sy@[d] == sy0[d] + y);
                    } else {
                        assert(sx@[d] == sx0[d] && sy@[d] == sy0[d]);
                    }
                }
            }
            p = p + 1;
            x = x + 1;
        }
        proof {
            assert(p == (y + 1) * wd) by (nonlinear_arith)
                requires
                    p == y * wd + wd,
            ;
        }
        y = y + 1;
    }
    proof {
        assert(p == ids@.len()) by (nonlinear_arith)
            requires
                p == hti * wdi,
                ids@.len() == wdi * hti,
        ;
    }
    let mut best: usize = 0;
    let mut m: usize = 1;
    while m < ncell
        invariant
            ncell == GX * GY,
            1 <= m <= ncell,
            p == ids@.len(),
            best < m,
            cnt@.len() == ncell,
            forall|c: int| 0 <= c < ncell ==> #[trigger] cnt@[c] == count_upto(p as nat, in_cell(ids@, wdi, hti, id, c)),
            best == best_cell_upto(ids@, wdi, hti, id, m as int),
        decreases ncell - m,
    {
        if cnt[m] > cnt[best] {
            best = m;
        }
        m = m + 1;
    }
    (best, cnt[best], sx[best], sy[best])
}

} // verus!
