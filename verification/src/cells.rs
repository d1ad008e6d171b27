//! Cell buckets of the spatial hash used for neighbour queries on the sphere.
//!
//! Space is cut into a uniform grid of cubic cells; the caller turns positions into integer cell
//! coordinates, and this store keeps, per cell key, the indices put there in insertion order.
use std::collections::HashMap;
use vstd::prelude::*;

verus! {

broadcast use vstd::std_specs::hash::group_hash_axioms;

/// Key of cell `(ix, iy, iz)` in a grid `dim` cells wide.
pub open spec fn spec_cell_key(dim: int, ix: int, iy: int, iz: int) -> int {
    ix + dim * (iy + dim * iz)
}

/// The key fits the 32-bit key type.
pub open spec fn key_fits(dim: int, ix: int, iy: int, iz: int) -> bool {
    &&& i32::MIN <= dim * iz <= i32::MAX
    &&& i32::MIN <= iy + dim * iz <= i32::MAX
    &&& i32::MIN <= dim * (iy + dim * iz) <= i32::MAX
    &&& i32::MIN <= spec_cell_key(dim, ix, iy, iz) <= i32::MAX
}

/// Key of a cell.
pub fn cell_key(dim: i32, ix: i32, iy: i32, iz: i32) -> (k: i32)
    requires
        key_fits(dim as int, ix as int, iy as int, iz as int),
    ensures
        k == spec_cell_key(dim as int, ix as int, iy as int, iz as int),
{
    ix + dim * (iy + dim * iz)
}

/// Cells with coordinates in `0 .. dim` never share a key.
pub proof fn lemma_cell_key_injective(dim: int, a: (int, int, int), b: (int, int, int))
    requires
        dim > 0,
        0 <= a.0 < dim && 0 <= a.1 < dim && 0 <= a.2 < dim,
        0 <= b.0 < dim && 0 <= b.1 < dim && 0 <= b.2 < dim,
        spec_cell_key(dim, a.0, a.1, a.2) == spec_cell_key(dim, b.0, b.1, b.2),
    ensures
        a == b,
{
    let qa = a.1 + dim * a.2;
    let qb = b.1 + dim * b.2;
    assert(0 <= qa && 0 <= qb) by (nonlinear_arith)
        requires
            dim > 0,
            0 <= a.1 && 0 <= a.2 && 0 <= b.1 && 0 <= b.2,
            qa == a.1 + dim * a.2,
            qb == b.1 + dim * b.2,
    ;
    assert(a.0 + dim * qa == qa * dim + a.0) by (nonlinear_arith);
    assert(b.0 + dim * qb == qb * dim + b.0) by (nonlinear_arith);
    vstd::arithmetic::div_mod::lemma_fundamental_div_mod_converse(a.0 + dim * qa, dim, qa, a.0);
    vstd::arithmetic::div_mod::lemma_fundamental_div_mod_converse(b.0 + dim * qb, dim, qb, b.0);
    assert(qa == a.2 * dim + a.1) by (nonlinear_arith)
        requires
            qa == a.1 + dim * a.2,
    ;
    assert(qb == b.2 * dim + b.1) by (nonlinear_arith)
        requires
            qb == b.1 + dim * b.2,
    ;
    vstd::arithmetic::div_mod::lemma_fundamental_div_mod_converse(qa, dim, a.2, a.1);
    vstd::arithmetic::div_mod::lemma_fundamental_div_mod_converse(qb, dim, b.2, b.1);
}

/// The indices stored under key `k` (none if the cell is empty).
pub open spec fn bucket(m: Map<i32, Seq<u32>>, k: int) -> Seq<u32> {
    if i32::MIN <= k <= i32::MAX && m.contains_key(k as i32) {
        m[k as i32]
    } else {
        Seq::empty()
    }
}

/// Contents of the cells `lo_x ..< lo_x + n` of row `(iy, iz)`, in order.
pub open spec fn row_contents(m: Map<i32, Seq<u32>>, dim: int, lo_x: int, n: int, iy: int, iz: int) -> Seq<u32>
    decreases n,
{
    if n <= 0 {
        Seq::empty()
    } else {
        row_contents(m, dim, lo_x, n - 1, iy, iz) + bucket(m, spec_cell_key(dim, lo_x + n - 1, iy, iz))
    }
}

/// Contents of rows `lo_y ..< lo_y + n` of layer `iz`, each row spanning `lo_x ..= hi_x`.
pub open spec fn layer_contents(
    m: Map<i32, Seq<u32>>,
    dim: int,
    lo_x: int,
    hi_x: int,
    lo_y: int,
    n: int,
    iz: int,
) -> Seq<u32>
    decreases n,
{
    if n <= 0 {
        Seq::empty()
    } else {
        layer_contents(m, dim, lo_x, hi_x, lo_y, n - 1, iz) + row_contents(
            m,
            dim,
            lo_x,
            hi_x - lo_x + 1,
            lo_y + n - 1,
            iz,
        )
    }
}

/// Contents of layers `lo_z ..< lo_z + n` of the box, z outermost, then y, then x.
pub open spec fn box_contents(
    m: Map<i32, Seq<u32>>,
    dim: int,
    lo: (int, int, int),
    hi: (int, int, int),
    n: int,
) -> Seq<u32>
    decreases n,
{
    if n <= 0 {
        Seq::empty()
    } else {
        box_contents(m, dim, lo, hi, n - 1) + layer_contents(
            m,
            dim,
            lo.0,
            hi.0,
            lo.1,
            hi.1 - lo.1 + 1,
            lo.2 + n - 1,
        )
    }
}

/// Every cell key of the box fits the key type.
pub open spec fn box_fits(dim: int, lo: (int, int, int), hi: (int, int, int)) -> bool {
    forall|ix: int, iy: int, iz: int|
        lo.0 <= ix <= hi.0 && lo.1 <= iy <= hi.1 && lo.2 <= iz <= hi.2 ==> #[trigger] key_fits(dim, ix, iy, iz)
}

/// Whether the key of cell `(ix, iy, iz)` in a grid `dim` cells wide fits the key type.
pub fn fits_key(dim: i32, ix: i32, iy: i32, iz: i32) -> (r: bool)
    ensures
        r == key_fits(dim as int, ix as int, iy as int, iz as int),
{
    let (d, x, y, z) = (dim as i64, ix as i64, iy as i64, iz as i64);
    let lo: i64 = i32::MIN as i64;
    let hi: i64 = i32::MAX as i64;
    assert(-0x4000_0000_0000_0000 <= d * z <= 0x4000_0000_0000_0000) by (nonlinear_arith)
        requires
            -0x8000_0000 <= d <= 0x7fff_ffff,
            -0x8000_0000 <= z <= 0x7fff_ffff,
    ;
    let dz = d * z;
    if dz < lo || dz > hi {
        return false;
    }
    let u = y + dz;
    if u < lo || u > hi {
        return false;
    }
    assert(-0x4000_0000_0000_0000 <= d * u <= 0x4000_0000_0000_0000) by (nonlinear_arith)
        requires
            -0x8000_0000 <= d <= 0x7fff_ffff,
            -0x8000_0000 <= u <= 0x7fff_ffff,
    ;
    let du = d * u;
    if du < lo || du > hi {
        return false;
    }
    let k = x + du;
    lo <= k && k <= hi
}

proof fn lemma_key_parts_monotone(dim: int, a: (int, int, int), b: (int, int, int))
    requires
        dim >= 0,
        a.0 <= b.0,
        a.1 <= b.1,
        a.2 <= b.2,
    ensures
        dim * a.2 <= dim * b.2,
        a.1 + dim * a.2 <= b.1 + dim * b.2,
        dim * (a.1 + dim * a.2) <= dim * (b.1 + dim * b.2),
        spec_cell_key(dim, a.0, a.1, a.2) <= spec_cell_key(dim, b.0, b.1, b.2),
{
    assert(dim * a.2 <= dim * b.2) by (nonlinear_arith)
        requires
            dim >= 0,
            a.2 <= b.2,
    ;
    let ua = a.1 + dim * a.2;
    let ub = b.1 + dim * b.2;
    assert(dim * ua <= dim * ub) by (nonlinear_arith)
        requires
            dim >= 0,
            ua <= ub,
    ;
}

/// Whether every cell key of the box `lo ..= hi` fits the key type. Exact for a grid of
/// non-negative width (the keys grow with each coordinate, so the two extreme corners bound
/// them all); a negative width is always refused.
pub fn box_fits_key(dim: i32, lo: [i32; 3], hi: [i32; 3]) -> (r: bool)
    ensures
        r ==> box_fits(dim as int, (lo[0] as int, lo[1] as int, lo[2] as int), (hi[0] as int, hi[1] as int, hi[2] as int)),
        dim >= 0 ==> (r == box_fits(dim as int, (lo[0] as int, lo[1] as int, lo[2] as int), (hi[0] as int, hi[1] as int, hi[2] as int))),
{
    let ghost l = (lo[0] as int, lo[1] as int, lo[2] as int);
    let ghost h = (hi[0] as int, hi[1] as int, hi[2] as int);
    if lo[0] > hi[0] || lo[1] > hi[1] || lo[2] > hi[2] {
        return true;
    }
    if dim < 0 {
        return false;
    }
    let a = fits_key(dim, lo[0], lo[1], lo[2]);
    let b = fits_key(dim, hi[0], hi[1], hi[2]);
    proof {
        if a && b {
            assert forall|ix: int, iy: int, iz: int|
                l.0 <= ix <= h.0 && l.1 <= iy <= h.1 && l.2 <= iz <= h.2 implies #[trigger] key_fits(
                dim as int,
                ix,
                iy,
                iz,
            ) by {
                lemma_key_parts_monotone(dim as int, l, (ix, iy, iz));
                lemma_key_parts_monotone(dim as int, (ix, iy, iz), h);
            }
        } else if !a {
            assert(!key_fits(dim as int, l.0, l.1, l.2));
        } else {
            assert(!key_fits(dim as int, h.0, h.1, h.2));
        }
    }
    a && b
}

/// Indices bucketed by cell key.
pub struct CellGrid {
    dim: i32,
    map: HashMap<i32, Vec<u32>>,
}

impl View for CellGrid {
    type V = Map<i32, Seq<u32>>;

    closed spec fn view(&self) -> Map<i32, Seq<u32>> {
        self.map@.map_values(|v: Vec<u32>| v@)
    }
}

impl CellGrid {
    /// Grid width in cells.
    pub closed spec fn spec_dim(&self) -> i32 {
        self.dim
    }

    /// An empty grid `dim` cells wide.
    pub fn new(dim: i32) -> (g: Self)
        ensures
            g@ == Map::<i32, Seq<u32>>::empty(),
            g.spec_dim() == dim,
    {
        let g = CellGrid { dim, map: HashMap::new() };
        assert(g@ =~= Map::<i32, Seq<u32>>::empty());
        g
    }

    /// Grid width in cells.
    pub fn dim(&self) -> (d: i32)
        ensures
            d == self.spec_dim(),
    {
        self.dim
    }

    /// Remove every index.
    pub fn clear(&mut self)
        ensures
            final(self)@ == Map::<i32, Seq<u32>>::empty(),
            final(self).spec_dim() == old(self).spec_dim(),
    {
        self.map.clear();
        assert(self@ =~= Map::<i32, Seq<u32>>::empty());
    }

    /// Append index `i` to the cell with key `k`.
    pub fn insert(&mut self, k: i32, i: u32)
        ensures
            final(self)@ == old(self)@.insert(k, bucket(old(self)@, k as int).push(i)),
            final(self).spec_dim() == old(self).spec_dim(),
    {
        let ghost m0 = self.map@;
        let v = self.map.entry(k).or_insert(Vec::new());
        v.push(i);
        proof {
            assert(self.map@ == m0.insert(k, self.map@[k]));
            assert(self@ =~= old(self)@.insert(k, bucket(old(self)@, k as int).push(i)));
        }
    }

    /// Append, in order, the indices of every cell of the box `lo ..= hi` (z outermost, then y,
    /// then x) to `out`.
    pub fn collect_box(&self, lo: [i32; 3], hi: [i32; 3], out: &mut Vec<u32>)
        requires
            box_fits(self.spec_dim() as int, (lo[0] as int, lo[1] as int, lo[2] as int), (hi[0] as int, hi[1] as int, hi[2] as int)),
        ensures
            final(out)@ == old(out)@ + box_contents(
                self@,
                self.spec_dim() as int,
                (lo[0] as int, lo[1] as int, lo[2] as int),
                (hi[0] as int, hi[1] as int, hi[2] as int),
                if hi[2] < lo[2] { 0 } else { hi[2] - lo[2] + 1 },
            ),
    {
        let ghost m = self@;
        let ghost dim = self.dim as int;
        let ghost l = (lo[0] as int, lo[1] as int, lo[2] as int);
        let ghost h = (hi[0] as int, hi[1] as int, hi[2] as int);
        let ghost out0 = out@;
        if hi[2] < lo[2] {
            assert(out@ =~= out0 + Seq::<u32>::empty());
            return;
        }
        let mut iz: i64 = lo[2] as i64;
        while iz <= hi[2] as i64
            invariant
                m == self@,
                dim == self.dim as int,
                l == (lo[0] as int, lo[1] as int, lo[2] as int),
                h == (hi[0] as int, hi[1] as int, hi[2] as int),
                box_fits(dim, l, h),
                lo[2] <= hi[2],
                lo[2] <= iz <= hi[2] as int + 1,
                out@ == out0 + box_contents(m, dim, l, h, iz - lo[2]),
            decreases hi[2] as i64 + 1 - iz,
        {
            let ghost before_z = out@;
            let mut iy: i64 = lo[1] as i64;
            if hi[1] >= lo[1] {
                while iy <= hi[1] as i64
                    invariant
                        m == self@,
                        dim == self.dim as int,
                        l == (lo[0] as int, lo[1] as int, lo[2] as int),
                        h == (hi[0] as int, hi[1] as int, hi[2] as int),
                        box_fits(dim, l, h),
                        lo[2] <= iz <= hi[2],
                        lo[1] <= hi[1],
                        lo[1] <= iy <= hi[1] as int + 1,
                        out@ == before_z + layer_contents(m, dim, l.0, h.0, l.1, iy - lo[1], iz as int),
                    decreases hi[1] as i64 + 1 - iy,
                {
                    let ghost before_y = out@;
                    let mut ix: i64 = lo[0] as i64;
                    if hi[0] >= lo[0] {
                        while ix <= hi[0] as i64
                            invariant
                                m == self@,
                                dim == self.dim as int,
                                l == (lo[0] as int, lo[1] as int, lo[2] as int),
                                h == (hi[0] as int, hi[1] as int, hi[2] as int),
                                box_fits(dim, l, h),
                                lo[2] <= iz <= hi[2],
                                lo[1] <= iy <= hi[1],
                                lo[0] <= hi[0],
                                lo[0] <= ix <= hi[0] as int + 1,
                                out@ == before_y + row_contents(m, dim, l.0, ix - lo[0], iy as int, iz as int),
                            decreases hi[0] as i64 + 1 - ix,
                        {
                            assert(key_fits(dim, ix as int, iy as int, iz as int));
                            let k = cell_key(self.dim, ix as i32, iy as i32, iz as i32);
                            let ghost before_x = out@;
                            match self.map.get(&k) {
                                Some(v) => {
                                    let mut j: usize = 0;
                                    while j < v.len()
                                        invariant
                                            j <= v@.len(),
                                            out@ == before_x + v@.take(j as int),
                                        decreases v@.len() - j,
                                    {
                                        out.push(v[j]);
                                        proof {
                                            assert(v@.take(j + 1) =~= v@.take(j as int).push(v@[j as int]));
                                        }
                                        j = j + 1;
                                    }
                                    proof {
                                        assert(v@.take(v@.len() as int) =~= v@);
                                        assert(bucket(m, k as int) == v@);
                                    }
                                },
                                None => {
                                    proof {
                                        assert(bucket(m, k as int) =~= Seq::<u32>::empty());
                                        assert(out@ =~= before_x + Seq::<u32>::empty());
                                    }
                                },
                            }
                            proof {
                                assert(row_contents(m, dim, l.0, ix + 1 - lo[0], iy as int, iz as int)
                                    == row_contents(m, dim, l.0, ix - lo[0], iy as int, iz as int) + bucket(
                                    m,
                                    spec_cell_key(dim, ix as int, iy as int, iz as int),
                                ));
                                assert(out@ =~= before_y + row_contents(m, dim, l.0, ix + 1 - lo[0], iy as int, iz as int));
                            }
                            ix = ix + 1;
                        }
                    }
                    proof {
                        let n = if hi[0] >= lo[0] { hi[0] - lo[0] + 1 } else { 0 };
                        if hi[0] < lo[0] {
                            assert(row_contents(m, dim, l.0, h.0 - l.0 + 1, iy as int, iz as int) =~= Seq::<u32>::empty());
                            assert(out@ =~= before_y + Seq::<u32>::empty());
                        }
                        assert(out@ =~= before_z + layer_contents(m, dim, l.0, h.0, l.1, iy + 1 - lo[1], iz as int));
                    }
                    iy = iy + 1;
                }
            } else {
                proof {
                    assert(out@ =~= before_z + layer_contents(m, dim, l.0, h.0, l.1, h.1 - l.1 + 1, iz as int));
                }
            }
            proof {
                assert(out@ =~= out0 + box_contents(m, dim, l, h, iz + 1 - lo[2]));
            }
            iz = iz + 1;
        }
    }
}

} // verus!
