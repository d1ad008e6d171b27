//! Integer raster logic of the equirectangular maps: longitude wraps around, latitude clamps at
//! the poles; plate boundaries are where a pixel's plate differs from one of its four neighbours.
use vstd::prelude::*;
use vstd::arithmetic::div_mod::lemma_fundamental_div_mod_converse;

verus! {

/// Column reached from column `x` by a step of `dx`: longitude wraps around the map.
pub open spec fn wrap_x(x: int, dx: int, wd: int) -> int {
    (x + dx) % wd
}

/// Row reached from row `y` by a step of `dy`: latitude stops at the top and bottom rows.
pub open spec fn clamp_y(y: int, dy: int, ht: int) -> int {
    if y + dy < 0 {
        0
    } else if y + dy > ht - 1 {
        ht - 1
    } else {
        y + dy
    }
}

/// A `wd` by `ht` raster stored row by row.
pub open spec fn grid_ok(len: nat, wd: int, ht: int) -> bool {
    &&& 1 <= wd
    &&& 1 <= ht
    &&& wd <= 0x1_0000_0000
    &&& ht <= 0x1_0000_0000
    &&& len == wd * ht
}

/// Value at column `x`, row `y`.
pub open spec fn at<T>(s: Seq<T>, wd: int, x: int, y: int) -> T {
    s[y * wd + x]
}

pub proof fn lemma_index(x: int, y: int, wd: int, ht: int)
    requires
        0 <= x < wd,
        0 <= y < ht,
    ensures
        0 <= y * wd,
        0 <= y * wd + x < wd * ht,
        y * wd + x < ht * wd,
{
    assert(0 <= y * wd) by (nonlinear_arith)
        requires
            0 <= y,
            0 <= wd,
    ;
    assert(y * wd + x < wd * ht) by (nonlinear_arith)
        requires
            0 <= x < wd,
            0 <= y < ht,
    ;
    assert(wd * ht == ht * wd) by (nonlinear_arith);
}

/// Position of pixel `(x, y)` in a raster of `len` values stored row by row.
pub fn index(x: usize, y: usize, wd: usize, ht: usize, len: usize) -> (i: usize)
    requires
        grid_ok(len as nat, wd as int, ht as int),
        x < wd,
        y < ht,
    ensures
        i == y * wd + x,
        i < len,
{
    proof {
        lemma_index(x as int, y as int, wd as int, ht as int);
    }
    y * wd + x
}

/// Column reached from column `x` by a step of `dx`, wrapping around the map.
pub fn step_x(x: usize, dx: i64, wd: usize) -> (r: usize)
    requires
        x < wd,
        1 <= wd <= 0x1_0000_0000,
        -0x1_0000_0000 <= dx <= 0x1_0000_0000,
    ensures
        r == wrap_x(x as int, dx as int, wd as int),
        r < wd,
{
    let v: i64 = x as i64 + dx;
    if v >= 0 {
        let r = (v as u64) % (wd as u64);
        proof {
            let q = (v as u64) / (wd as u64);
            assert(v as int == q * wd + r) by {
                vstd::arithmetic::div_mod::lemma_fundamental_div_mod(v as int, wd as int);
            }
            lemma_fundamental_div_mod_converse(v as int, wd as int, q as int, r as int);
        }
        r as usize
    } else {
        let u: u64 = (-v) as u64;
        let m = u % (wd as u64);
        proof {
            vstd::arithmetic::div_mod::lemma_fundamental_div_mod(u as int, wd as int);
        }
        let ghost q = (u as int) / (wd as int);
        if m == 0 {
            proof {
                assert(v as int == (-q) * wd + 0) by (nonlinear_arith)
                    requires
                        u == q * wd + 0,
                        v == -(u as int),
                ;
                lemma_fundamental_div_mod_converse(v as int, wd as int, -q, 0);
            }
            0
        } else {
            proof {
                assert(v as int == (-q - 1) * wd + (wd - m)) by (nonlinear_arith)
                    requires
                        u == q * wd + m,
                        v == -(u as int),
                ;
                lemma_fundamental_div_mod_converse(v as int, wd as int, -q - 1, wd - m);
            }
            (wd as u64 - m) as usize
        }
    }
}

/// Row reached from row `y` by a step of `dy`, clamped at the poles.
pub fn step_y(y: usize, dy: i64, ht: usize) -> (r: usize)
    requires
        y < ht,
        1 <= ht <= 0x1_0000_0000,
        -0x1_0000_0000 <= dy <= 0x1_0000_0000,
    ensures
        r == clamp_y(y as int, dy as int, ht as int),
        r < ht,
{
    let v: i64 = y as i64 + dy;
    if v < 0 {
        0
    } else if v > ht as i64 - 1 {
        ht - 1
    } else {
        v as usize
    }
}

/// The pixel at `(x, y)` lies on a plate boundary: one of its four neighbours (wrapping in
/// longitude, clamped in latitude) belongs to another plate.
pub open spec fn spec_is_boundary(plates: Seq<u32>, wd: int, ht: int, x: int, y: int) -> bool {
    let p = at(plates, wd, x, y);
    ||| at(plates, wd, wrap_x(x, 1, wd), clamp_y(y, 0, ht)) != p
    ||| at(plates, wd, wrap_x(x, -1, wd), clamp_y(y, 0, ht)) != p
    ||| at(plates, wd, wrap_x(x, 0, wd), clamp_y(y, 1, ht)) != p
    ||| at(plates, wd, wrap_x(x, 0, wd), clamp_y(y, -1, ht)) != p
}

/// Whether pixel `(x, y)` of a plate-id raster lies on a plate boundary.
pub fn is_boundary(plates: &Vec<u32>, wd: usize, ht: usize, x: usize, y: usize) -> (b: bool)
    requires
        grid_ok(plates@.len(), wd as int, ht as int),
        x < wd,
        y < ht,
    ensures
        b == spec_is_boundary(plates@, wd as int, ht as int, x as int, y as int),
{
    proof {
        lemma_index(x as int, y as int, wd as int, ht as int);
    }
    let p = plates[index(x, y, wd, ht, plates.len())];
    let dxs: [i64; 4] = [1, -1, 0, 0];
    let dys: [i64; 4] = [0, 0, 1, -1];
    let mut k: usize = 0;
    while k < 4
        invariant
            grid_ok(plates@.len(), wd as int, ht as int),
            x < wd,
            y < ht,
            k <= 4,
            p == at(plates@, wd as int, x as int, y as int),
            dxs@ == seq![1i64, -1i64, 0i64, 0i64],
            dys@ == seq![0i64, 0i64, 1i64, -1i64],
            forall|j: int|
                0 <= j < k ==> at(
                    plates@,
                    wd as int,
                    wrap_x(x as int, #[trigger] dxs@[j] as int, wd as int),
                    clamp_y(y as int, dys@[j] as int, ht as int),
                ) == p,
        decreases 4 - k,
    {
        let xx = step_x(x, dxs[k], wd);
        let yy = step_y(y, dys[k], ht);
        proof {
            lemma_index(xx as int, yy as int, wd as int, ht as int);
        }
        if plates[index(xx, yy, wd, ht, plates.len())] != p {
            proof {
                assert(dxs@[k as int] == dxs[k as int] && dys@[k as int] == dys[k as int]);
            }
            return true;
        }
        k = k + 1;
    }
    proof {
        assert(dxs@[0] == 1 && dys@[0] == 0);
        assert(dxs@[1] == -1 && dys@[1] == 0);
        assert(dxs@[2] == 0 && dys@[2] == 1);
        assert(dxs@[3] == 0 && dys@[3] == -1);
    }
    false
}

/// Width (in pixels) of the drawn boundary lines: one pixel per 1024 pixels of map width,
/// rounded, at least one.
pub open spec fn spec_line_px(wd: int) -> int {
    let r = (wd + 512) / 1024;
    if r < 1 {
        1
    } else {
        r
    }
}

/// Boundary line half-width for a map `wd` pixels wide.
pub fn line_px(wd: usize) -> (r: i64)
    requires
        wd <= 0x1_0000_0000,
    ensures
        r == spec_line_px(wd as int),
        1 <= r <= 0x40_0001,
{
    let r = ((wd as u64 + 512) / 1024) as i64;
    if r < 1 {
        1
    } else {
        r
    }
}

/// Some pixel of the `(2r+1)` square around `(x, y)` lies on a plate boundary.
pub open spec fn spec_on_line(plates: Seq<u32>, wd: int, ht: int, x: int, y: int, r: int) -> bool {
    exists|dx: int, dy: int|
        -r <= dx <= r && -r <= dy <= r && #[trigger] spec_is_boundary(
            plates,
            wd,
            ht,
            wrap_x(x, dx, wd),
            clamp_y(y, dy, ht),
        )
}

/// Number of pixels with class `c` in row offsets `-r ..< -r + rows` and column offsets
/// `-r ..< -r + cols` of the `(2r+1)` square around `(x, y)`.
pub open spec fn row_tally(cls: Seq<u8>, wd: int, ht: int, x: int, y: int, r: int, dy: int, cols: int, c: u8) -> nat
    decreases cols,
{
    if cols <= 0 {
        0
    } else {
        row_tally(cls, wd, ht, x, y, r, dy, cols - 1, c) + if at(
            cls,
            wd,
            wrap_x(x, -r + cols - 1, wd),
            clamp_y(y, dy, ht),
        ) == c {
            1nat
        } else {
            0nat
        }
    }
}

pub open spec fn tally(cls: Seq<u8>, wd: int, ht: int, x: int, y: int, r: int, rows: int, c: u8) -> nat
    decreases rows,
{
    if rows <= 0 {
        0
    } else {
        tally(cls, wd, ht, x, y, r, rows - 1, c) + row_tally(cls, wd, ht, x, y, r, -r + rows - 1, 2 * r + 1, c)
    }
}

/// The most common boundary class (1 to 6) in the `(2r+1)` square around `(x, y)`, the lowest
/// class winning a tie; 0 when the square holds no boundary class.
pub open spec fn spec_majority(cls: Seq<u8>, wd: int, ht: int, x: int, y: int, r: int) -> u8 {
    majority_from(cls, wd, ht, x, y, r, 6)
}

/// The majority among classes `1 ..= upto`.
pub open spec fn majority_from(cls: Seq<u8>, wd: int, ht: int, x: int, y: int, r: int, upto: int) -> u8
    decreases upto,
{
    if upto <= 0 {
        0
    } else {
        let prev = majority_from(cls, wd, ht, x, y, r, upto - 1);
        let t = tally(cls, wd, ht, x, y, r, 2 * r + 1, upto as u8);
        let best_n = if prev == 0 {
            0
        } else {
            tally(cls, wd, ht, x, y, r, 2 * r + 1, prev)
        };
        if t > best_n {
            upto as u8
        } else {
            prev
        }
    }
}

/// Pixels of class `c` in the `(2r+1)` square around `(x, y)`.
pub open spec fn window_count(cls: Seq<u8>, wd: int, ht: int, x: int, y: int, r: int, c: int) -> nat {
    tally(cls, wd, ht, x, y, r, 2 * r + 1, c as u8)
}

proof fn lemma_majority_from(cls: Seq<u8>, wd: int, ht: int, x: int, y: int, r: int, upto: int)
    requires
        0 <= upto <= 255,
    ensures
        ({
            let m = majority_from(cls, wd, ht, x, y, r, upto) as int;
            &&& 0 <= m <= upto
            &&& m == 0 ==> forall|c: int| 1 <= c <= upto ==> #[trigger] window_count(cls, wd, ht, x, y, r, c) == 0
            &&& m != 0 ==> window_count(cls, wd, ht, x, y, r, m) > 0
            &&& m != 0 ==> forall|c: int|
                1 <= c <= upto ==> #[trigger] window_count(cls, wd, ht, x, y, r, c) <= window_count(
                    cls,
                    wd,
                    ht,
                    x,
                    y,
                    r,
                    m,
                )
            &&& m != 0 ==> forall|c: int|
                1 <= c < m ==> #[trigger] window_count(cls, wd, ht, x, y, r, c) < window_count(
                    cls,
                    wd,
                    ht,
                    x,
                    y,
                    r,
                    m,
                )
        }),
    decreases upto,
{
    if upto > 0 {
        lemma_majority_from(cls, wd, ht, x, y, r, upto - 1);
        let prev = majority_from(cls, wd, ht, x, y, r, upto - 1);
        assert((upto as u8) as int == upto);
        assert((prev as u8) as int == prev as int);
    }
}

/// The majority class around `(x, y)` is a boundary class (1 to 6) that occurs there at least
/// as often as every other boundary class, and strictly more often than every lower one (the
/// lowest class wins a tie); it is 0 exactly when no boundary class occurs in the window.
pub proof fn lemma_majority_is_most_common(cls: Seq<u8>, wd: int, ht: int, x: int, y: int, r: int)
    ensures
        ({
            let m = spec_majority(cls, wd, ht, x, y, r) as int;
            &&& 0 <= m <= 6
            &&& m == 0 <==> forall|c: int| 1 <= c <= 6 ==> #[trigger] window_count(cls, wd, ht, x, y, r, c) == 0
            &&& m != 0 ==> forall|c: int|
                1 <= c <= 6 ==> #[trigger] window_count(cls, wd, ht, x, y, r, c) <= window_count(
                    cls,
                    wd,
                    ht,
                    x,
                    y,
                    r,
                    m,
                )
            &&& m != 0 ==> forall|c: int|
                1 <= c < m ==> #[trigger] window_count(cls, wd, ht, x, y, r, c) < window_count(
                    cls,
                    wd,
                    ht,
                    x,
                    y,
                    r,
                    m,
                )
        }),
{
    lemma_majority_from(cls, wd, ht, x, y, r, 6);
    let m = spec_majority(cls, wd, ht, x, y, r) as int;
    if m != 0 {
        assert(window_count(cls, wd, ht, x, y, r, m) > 0);
    }
}

pub proof fn lemma_row_tally_le(cls: Seq<u8>, wd: int, ht: int, x: int, y: int, r: int, dy: int, cols: int, c: u8)
    ensures
        row_tally(cls, wd, ht, x, y, r, dy, cols, c) <= if cols < 0 { 0 } else { cols },
    decreases cols,
{
    if cols > 0 {
        lemma_row_tally_le(cls, wd, ht, x, y, r, dy, cols - 1, c);
    }
}

pub proof fn lemma_tally_le(cls: Seq<u8>, wd: int, ht: int, x: int, y: int, r: int, rows: int, c: u8)
    requires
        r >= 0,
    ensures
        tally(cls, wd, ht, x, y, r, rows, c) <= if rows < 0 { 0 } else { rows * (2 * r + 1) },
    decreases rows,
{
    if rows > 0 {
        lemma_tally_le(cls, wd, ht, x, y, r, rows - 1, c);
        lemma_row_tally_le(cls, wd, ht, x, y, r, -r + rows - 1, 2 * r + 1, c);
        assert((rows - 1) * (2 * r + 1) + (2 * r + 1) == rows * (2 * r + 1)) by (nonlinear_arith);
    }
}

/// Whether `(x, y)` is within `r` pixels (square neighbourhood) of a plate boundary.
pub fn on_line(plates: &Vec<u32>, wd: usize, ht: usize, x: usize, y: usize, r: i64) -> (b: bool)
    requires
        grid_ok(plates@.len(), wd as int, ht as int),
        x < wd,
        y < ht,
        0 <= r <= 0x1000_0000,
    ensures
        b == spec_on_line(plates@, wd as int, ht as int, x as int, y as int, r as int),
{
    let mut dy: i64 = -r;
    while dy <= r
        invariant
            grid_ok(plates@.len(), wd as int, ht as int),
            x < wd,
            y < ht,
            0 <= r <= 0x1000_0000,
            -r <= dy <= r + 1,
            forall|ddx: int, ddy: int|
                -r <= ddx <= r && -r <= ddy < dy ==> !#[trigger] spec_is_boundary(
                    plates@,
                    wd as int,
                    ht as int,
                    wrap_x(x as int, ddx, wd as int),
                    clamp_y(y as int, ddy, ht as int),
                ),
        decreases r + 1 - dy,
    {
        let yy = step_y(y, dy, ht);
        let mut dx: i64 = -r;
        while dx <= r
            invariant
                grid_ok(plates@.len(), wd as int, ht as int),
                x < wd,
                y < ht,
                0 <= r <= 0x1000_0000,
                -r <= dy <= r,
                yy == clamp_y(y as int, dy as int, ht as int),
                -r <= dx <= r + 1,
                forall|ddx: int, ddy: int|
                    -r <= ddx <= r && -r <= ddy < dy ==> !#[trigger] spec_is_boundary(
                        plates@,
                        wd as int,
                        ht as int,
                        wrap_x(x as int, ddx, wd as int),
                        clamp_y(y as int, ddy, ht as int),
                    ),
                forall|ddx: int|
                    -r <= ddx < dx ==> !#[trigger] spec_is_boundary(
                        plates@,
                        wd as int,
                        ht as int,
                        wrap_x(x as int, ddx, wd as int),
                        clamp_y(y as int, dy as int, ht as int),
                    ),
            decreases r + 1 - dx,
        {
            let xx = step_x(x, dx, wd);
            if is_boundary(plates, wd, ht, xx, yy) {
                return true;
            }
            dx = dx + 1;
        }
        dy = dy + 1;
    }
    false
}

/// Number of pixels of class `c` in the `(2r+1)` square around `(x, y)`.
fn count_class(cls: &Vec<u8>, wd: usize, ht: usize, x: usize, y: usize, r: i64, c: u8) -> (n: u32)
    requires
        grid_ok(cls@.len(), wd as int, ht as int),
        x < wd,
        y < ht,
        0 <= r <= 30000,
    ensures
        n == tally(cls@, wd as int, ht as int, x as int, y as int, r as int, 2 * r + 1, c),
{
    let side: i64 = 2 * r + 1;
    let mut n: u32 = 0;
    let mut rows: i64 = 0;
    while rows < side
        invariant
            grid_ok(cls@.len(), wd as int, ht as int),
            x < wd,
            y < ht,
            0 <= r <= 30000,
            side == 2 * r + 1,
            0 <= rows <= side,
            n == tally(cls@, wd as int, ht as int, x as int, y as int, r as int, rows as int, c),
        decreases side - rows,
    {
        proof {
            lemma_tally_le(cls@, wd as int, ht as int, x as int, y as int, r as int, rows as int, c);
            assert(rows * (2 * r + 1) <= (2 * r + 1) * (2 * r + 1)) by (nonlinear_arith)
                requires
                    0 <= rows <= 2 * r + 1,
                    r >= 0,
            ;
            assert((2 * r + 1) * (2 * r + 1) <= 60001 * 60001) by (nonlinear_arith)
                requires
                    0 <= r <= 30000,
            ;
        }
        let dy = -r + rows;
        let yy = step_y(y, dy, ht);
        let mut cols: i64 = 0;
        let mut rn: u32 = 0;
        while cols < side
            invariant
                grid_ok(cls@.len(), wd as int, ht as int),
                x < wd,
                y < ht,
                0 <= r <= 30000,
                side == 2 * r + 1,
                0 <= cols <= side,
                yy < ht,
                yy == clamp_y(y as int, dy as int, ht as int),
                rn == row_tally(cls@, wd as int, ht as int, x as int, y as int, r as int, dy as int, cols as int, c),
            decreases side - cols,
        {
            proof {
                lemma_row_tally_le(cls@, wd as int, ht as int, x as int, y as int, r as int, dy as int, cols as int, c);
            }
            let xx = step_x(x, -r + cols, wd);
            proof {
                lemma_index(xx as int, yy as int, wd as int, ht as int);
            }
            if cls[index(xx, yy, wd, ht, cls.len())] == c {
                rn = rn + 1;
            }
            cols = cols + 1;
        }
        proof {
            lemma_row_tally_le(cls@, wd as int, ht as int, x as int, y as int, r as int, dy as int, side as int, c);
            assert(n + rn <= (rows + 1) * (2 * r + 1)) by (nonlinear_arith)
                requires
                    n <= rows * (2 * r + 1),
                    rn <= 2 * r + 1,
            ;
            assert((rows + 1) * (2 * r + 1) <= (2 * r + 1) * (2 * r + 1)) by (nonlinear_arith)
                requires
                    0 <= rows < 2 * r + 1,
                    r >= 0,
            ;
            assert(tally(cls@, wd as int, ht as int, x as int, y as int, r as int, rows + 1, c) == n + rn);
        }
        n = n + rn;
        rows = rows + 1;
    }
    n
}

/// The most common boundary class around `(x, y)`, lowest class on ties, 0 if none.
pub fn majority_class(cls: &Vec<u8>, wd: usize, ht: usize, x: usize, y: usize, r: i64) -> (best: u8)
    requires
        grid_ok(cls@.len(), wd as int, ht as int),
        x < wd,
        y < ht,
        0 <= r <= 30000,
    ensures
        best == spec_majority(cls@, wd as int, ht as int, x as int, y as int, r as int),
        best <= 6,
        best == 0 <==> forall|c: int|
            1 <= c <= 6 ==> #[trigger] window_count(cls@, wd as int, ht as int, x as int, y as int, r as int, c)
                == 0,
        best != 0 ==> forall|c: int|
            1 <= c <= 6 ==> #[trigger] window_count(cls@, wd as int, ht as int, x as int, y as int, r as int, c)
                <= window_count(cls@, wd as int, ht as int, x as int, y as int, r as int, best as int),
        best != 0 ==> forall|c: int|
            1 <= c < best ==> #[trigger] window_count(cls@, wd as int, ht as int, x as int, y as int, r as int, c)
                < window_count(cls@, wd as int, ht as int, x as int, y as int, r as int, best as int),
{
    proof {
        lemma_majority_is_most_common(cls@, wd as int, ht as int, x as int, y as int, r as int);
    }
    let mut best: u8 = 0;
    let mut bn: u32 = 0;
    let mut c: u8 = 1;
    while c <= 6
        invariant
            grid_ok(cls@.len(), wd as int, ht as int),
            x < wd,
            y < ht,
            0 <= r <= 30000,
            1 <= c <= 7,
            best == majority_from(cls@, wd as int, ht as int, x as int, y as int, r as int, c - 1),
            best < c,
            bn == (if best == 0 {
                0
            } else {
                tally(cls@, wd as int, ht as int, x as int, y as int, r as int, 2 * r + 1, best)
            }),
        decreases 7 - c,
    {
        let t = count_class(cls, wd, ht, x, y, r, c);
        if t > bn {
            best = c;
            bn = t;
        }
        c = c + 1;
    }
    best
}

/// Class drawn at `(x, y)` of the boundary map: on a boundary line, the pixel's own boundary
/// class, else the most common boundary class within three line widths, else transform; off
/// the lines, only recent sutures and active hotspots show.
pub open spec fn spec_bounds_class(plates: Seq<u32>, cls: Seq<u8>, wd: int, ht: int, x: int, y: int, lp: int) -> u8 {
    let own = at(cls, wd, x, y);
    if spec_on_line(plates, wd, ht, x, y, lp) {
        let c = if 1 <= own <= 6 {
            own
        } else {
            spec_majority(cls, wd, ht, x, y, 3 * lp)
        };
        if c == 0 {
            6
        } else {
            c
        }
    } else if own == 7 || own == 8 {
        own
    } else {
        0
    }
}

/// What the boundary map draws at a pixel: on a boundary line, always a boundary class (1 to 6) —
/// the pixel's own when it has one, else a boundary class at least as common as every other one
/// within three line widths (the lowest on a tie), else transform; off the lines, only a recent
/// suture or an active hotspot shows, and otherwise nothing.
pub proof fn lemma_bounds_class(plates: Seq<u32>, cls: Seq<u8>, wd: int, ht: int, x: int, y: int, lp: int)
    ensures
        ({
            let c = spec_bounds_class(plates, cls, wd, ht, x, y, lp) as int;
            let own = at(cls, wd, x, y) as int;
            &&& spec_on_line(plates, wd, ht, x, y, lp) ==> 1 <= c <= 6
            &&& spec_on_line(plates, wd, ht, x, y, lp) && 1 <= own <= 6 ==> c == own
            &&& spec_on_line(plates, wd, ht, x, y, lp) && !(1 <= own <= 6) ==> {
                &&& (forall|k: int| 1 <= k <= 6 ==> #[trigger] window_count(cls, wd, ht, x, y, 3 * lp, k) == 0)
                    ==> c == 6
                &&& (exists|k: int| 1 <= k <= 6 && #[trigger] window_count(cls, wd, ht, x, y, 3 * lp, k) > 0)
                    ==> {
                    &&& window_count(cls, wd, ht, x, y, 3 * lp, c) > 0
                    &&& forall|k: int|
                        1 <= k <= 6 ==> #[trigger] window_count(cls, wd, ht, x, y, 3 * lp, k) <= window_count(
                            cls,
                            wd,
                            ht,
                            x,
                            y,
                            3 * lp,
                            c,
                        )
                    &&& forall|k: int|
                        1 <= k < c ==> #[trigger] window_count(cls, wd, ht, x, y, 3 * lp, k) < window_count(
                            cls,
                            wd,
                            ht,
                            x,
                            y,
                            3 * lp,
                            c,
                        )
                }
            }
            &&& !spec_on_line(plates, wd, ht, x, y, lp) ==> c == (if own == 7 || own == 8 { own } else { 0 })
        }),
{
    lemma_majority_is_most_common(cls, wd, ht, x, y, 3 * lp);
    let m = spec_majority(cls, wd, ht, x, y, 3 * lp) as int;
    if exists|k: int| 1 <= k <= 6 && #[trigger] window_count(cls, wd, ht, x, y, 3 * lp, k) > 0 {
        let k = choose|k: int| 1 <= k <= 6 && #[trigger] window_count(cls, wd, ht, x, y, 3 * lp, k) > 0;
        assert(m != 0);
    }
}

/// Class drawn at one pixel of the boundary map; `lp` is the line half-width.
pub fn bounds_class(plates: &Vec<u32>, cls: &Vec<u8>, wd: usize, ht: usize, x: usize, y: usize, lp: i64) -> (c: u8)
    requires
        grid_ok(plates@.len(), wd as int, ht as int),
        cls@.len() == plates@.len(),
        x < wd,
        y < ht,
        1 <= lp <= 10000,
    ensures
        c == spec_bounds_class(plates@, cls@, wd as int, ht as int, x as int, y as int, lp as int),
        c <= 8,
{
    proof {
        lemma_index(x as int, y as int, wd as int, ht as int);
    }
    let own = cls[index(x, y, wd, ht, cls.len())];
    if on_line(plates, wd, ht, x, y, lp) {
        let c = if 1 <= own && own <= 6 {
            own
        } else {
            majority_class(cls, wd, ht, x, y, 3 * lp)
        };
        if c == 0 {
            6
        } else {
            c
        }
    } else if own == 7 || own == 8 {
        own
    } else {
        0
    }
}

/// The classes of the whole boundary map, row by row, and how many pixels show each class.
pub fn bounds_map(plates: &Vec<u32>, cls: &Vec<u8>, wd: usize, ht: usize) -> (res: (Vec<u8>, Vec<usize>))
    requires
        grid_ok(plates@.len(), wd as int, ht as int),
        wd <= 10_000_000,
        cls@.len() == plates@.len(),
    ensures
        res.0@.len() == plates@.len(),
        forall|x: int, y: int|
            0 <= x < wd && 0 <= y < ht ==> #[trigger] at(res.0@, wd as int, x, y) == spec_bounds_class(
                plates@,
                cls@,
                wd as int,
                ht as int,
                x,
                y,
                spec_line_px(wd as int),
            ),
        res.1@.len() == 9,
        forall|c: int| 0 <= c < 9 ==> #[trigger] res.1@[c] == crate::census::count_upto(
            plates@.len(),
            |i: int| res.0@[i] == c,
        ),
{
    let lp = line_px(wd);
    let mut out: Vec<u8> = Vec::with_capacity(plates.len());
    let mut y: usize = 0;
    while y < ht
        invariant
            grid_ok(plates@.len(), wd as int, ht as int),
            cls@.len() == plates@.len(),
            lp == spec_line_px(wd as int),
            1 <= lp <= 10000,
            y <= ht,
            out@.len() == y * wd,
            forall|i: int| 0 <= i < out@.len() ==> #[trigger] out@[i] <= 8,
            forall|xx: int, yy: int|
                0 <= xx < wd && 0 <= yy < y ==> #[trigger] at(out@, wd as int, xx, yy) == spec_bounds_class(
                    plates@,
                    cls@,
                    wd as int,
                    ht as int,
                    xx,
                    yy,
                    lp as int,
                ),
        decreases ht - y,
    {
        let mut x: usize = 0;
        while x < wd
            invariant
                grid_ok(plates@.len(), wd as int, ht as int),
                cls@.len() == plates@.len(),
                lp == spec_line_px(wd as int),
                1 <= lp <= 10000,
                y < ht,
                x <= wd,
                out@.len() == y * wd + x,
                forall|i: int| 0 <= i < out@.len() ==> #[trigger] out@[i] <= 8,
                forall|xx: int, yy: int|
                    0 <= xx < wd && 0 <= yy < y ==> #[trigger] at(out@, wd as int, xx, yy) == spec_bounds_class(
                        plates@,
                        cls@,
                        wd as int,
                        ht as int,
                        xx,
                        yy,
                        lp as int,
                    ),
                forall|xx: int|
                    0 <= xx < x ==> #[trigger] at(out@, wd as int, xx, y as int) == spec_bounds_class(
                        plates@,
                        cls@,
                        wd as int,
                        ht as int,
                        xx,
                        y as int,
                        lp as int,
                    ),
            decreases wd - x,
        {
            proof {
                lemma_index(x as int, y as int, wd as int, ht as int);
            }
            let c = bounds_class(plates, cls, wd, ht, x, y, lp);
            let ghost before = out@;
            out.push(c);
            proof {
                assert forall|xx: int, yy: int|
                    0 <= xx < wd && 0 <= yy < y implies #[trigger] at(out@, wd as int, xx, yy) == spec_bounds_class(
                        plates@,
                        cls@,
                        wd as int,
                        ht as int,
                        xx,
                        yy,
                        lp as int,
                    ) by {
                    lemma_index(xx, yy, wd as int, y as int);
                    assert(at(out@, wd as int, xx, yy) == at(before, wd as int, xx, yy));
                }
                assert forall|xx: int| 0 <= xx < x + 1 implies #[trigger] at(out@, wd as int, xx, y as int)
                    == spec_bounds_class(plates@, cls@, wd as int, ht as int, xx, y as int, lp as int) by {
                    if xx < x {
                        assert(at(out@, wd as int, xx, y as int) == at(before, wd as int, xx, y as int));
                    }
                }
            }
            x = x + 1;
        }
        proof {
            assert(out@.len() == (y + 1) * wd) by (nonlinear_arith)
                requires
                    out@.len() == y * wd + wd,
            ;
        }
        y = y + 1;
    }
    proof {
        assert(out@.len() == plates@.len()) by (nonlinear_arith)
            requires
                out@.len() == ht * wd,
                plates@.len() == wd * ht,
        ;
    }
    let mut counts: Vec<usize> = vec![0, 0, 0, 0, 0, 0, 0, 0, 0];
    let mut i: usize = 0;
    while i < out.len()
        invariant
            i <= out@.len(),
            counts@.len() == 9,
            forall|k: int| 0 <= k < out@.len() ==> #[trigger] out@[k] <= 8,
            forall|c: int| 0 <= c < 9 ==> #[trigger] counts@[c] == crate::census::count_upto(i as nat, |k: int| out@[k] == c),
        decreases out@.len() - i,
    {
        proof {
            assert forall|c: int| 0 <= c < 9 implies #[trigger] counts@[c] <= i by {
                crate::census::lemma_count_upto_le(i as nat, |k: int| out@[k] == c);
            }
        }
        let c = out[i] as usize;
        let v = counts[c];
        counts.set(c, v + 1);
        i = i + 1;
    }
    (out, counts)
}

} // verus!
