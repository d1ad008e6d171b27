//! A 3 x 5 pixel font for map labels, and the pixels a label covers.
use vstd::prelude::*;

verus! {

/// Rows of a glyph, top to bottom; bit 2 is the left column, bit 0 the right one.
pub open spec fn spec_digit_glyph(c: char) -> [u8; 5] {
    if c == '0' {
        [0b111u8, 0b101, 0b101, 0b101, 0b111]
    } else if c == '1' {
        [0b010u8, 0b110, 0b010, 0b010, 0b111]
    } else if c == '2' {
        [0b111u8, 0b001, 0b111, 0b100, 0b111]
    } else if c == '3' {
        [0b111u8, 0b001, 0b111, 0b001, 0b111]
    } else if c == '4' {
        [0b101u8, 0b101, 0b111, 0b001, 0b001]
    } else if c == '5' {
        [0b111u8, 0b100, 0b111, 0b001, 0b111]
    } else if c == '6' {
        [0b111u8, 0b100, 0b111, 0b101, 0b111]
    } else if c == '7' {
        [0b111u8, 0b001, 0b001, 0b001, 0b001]
    } else if c == '8' {
        [0b111u8, 0b101, 0b111, 0b101, 0b111]
    } else if c == '9' {
        [0b111u8, 0b101, 0b111, 0b001, 0b111]
    } else {
        [0u8, 0, 0, 0, 0]
    }
}

/// Digits, and the letters of "MYR"; anything else is blank.
pub open spec fn spec_time_glyph(c: char) -> [u8; 5] {
    if c == 'M' {
        [0b101u8, 0b111, 0b111, 0b101, 0b101]
    } else if c == 'Y' {
        [0b101u8, 0b101, 0b010, 0b010, 0b010]
    } else if c == 'R' {
        [0b110u8, 0b101, 0b110, 0b101, 0b101]
    } else {
        spec_digit_glyph(c)
    }
}

/// Glyph of a digit (blank for anything else).
pub fn digit_glyph(c: char) -> (g: [u8; 5])
    ensures
        g == spec_digit_glyph(c),
{
    match c {
        '0' => [0b111, 0b101, 0b101, 0b101, 0b111],
        '1' => [0b010, 0b110, 0b010, 0b010, 0b111],
        '2' => [0b111, 0b001, 0b111, 0b100, 0b111],
        '3' => [0b111, 0b001, 0b111, 0b001, 0b111],
        '4' => [0b101, 0b101, 0b111, 0b001, 0b001],
        '5' => [0b111, 0b100, 0b111, 0b001, 0b111],
        '6' => [0b111, 0b100, 0b111, 0b101, 0b111],
        '7' => [0b111, 0b001, 0b001, 0b001, 0b001],
        '8' => [0b111, 0b101, 0b111, 0b101, 0b111],
        '9' => [0b111, 0b101, 0b111, 0b001, 0b111],
        _ => [0, 0, 0, 0, 0],
    }
}

/// Glyph of a character of a time label such as "100 MYR".
pub fn time_glyph(c: char) -> (g: [u8; 5])
    ensures
        g == spec_time_glyph(c),
{
    match c {
        'M' => [0b101, 0b111, 0b111, 0b101, 0b101],
        'Y' => [0b101, 0b101, 0b010, 0b010, 0b010],
        'R' => [0b110, 0b101, 0b110, 0b101, 0b101],
        _ => digit_glyph(c),
    }
}

/// Glyph pixel at column `col` (0..3) and row `row` (0..5) is set.
pub open spec fn lit(g: [u8; 5], row: int, col: int) -> bool {
    g[row] & (4u8 >> (col as u8)) != 0
}

/// Label pixel `(lx, ly)` of character `k`, at `scale` screen pixels per glyph pixel, is set.
pub open spec fn cell_on(glyphs: Seq<[u8; 5]>, scale: int, k: int, lx: int, ly: int) -> bool {
    &&& 0 <= k < glyphs.len()
    &&& 0 <= lx < 3 * scale
    &&& 0 <= ly < 5 * scale
    &&& lit(glyphs[k], ly / scale, lx / scale)
}

/// Screen pixel `(px, py)` is covered by a label whose characters start `4 * scale` pixels apart
/// from `(x0, y0)`.
pub open spec fn covered(glyphs: Seq<[u8; 5]>, x0: int, y0: int, scale: int, px: int, py: int) -> bool {
    exists|k: int, lx: int, ly: int|
        #![trigger cell_on(glyphs, scale, k, lx, ly)]
        cell_on(glyphs, scale, k, lx, ly) && px == x0 + 4 * scale * k + lx && py == y0 + ly
}

/// Position `(k, ly, lx)` comes before `(k2, ly2, lx2)` in drawing order.
pub open spec fn before(k: int, ly: int, lx: int, k2: int, ly2: int, lx2: int) -> bool {
    k < k2 || (k == k2 && ly < ly2) || (k == k2 && ly == ly2 && lx < lx2)
}

pub open spec fn covered_before(
    glyphs: Seq<[u8; 5]>,
    x0: int,
    y0: int,
    scale: int,
    px: int,
    py: int,
    k2: int,
    ly2: int,
    lx2: int,
) -> bool {
    exists|k: int, lx: int, ly: int|
        #![trigger cell_on(glyphs, scale, k, lx, ly)]
        cell_on(glyphs, scale, k, lx, ly) && before(k, ly, lx, k2, ly2, lx2) && px == x0 + 4 * scale * k + lx
            && py == y0 + ly
}

pub open spec fn on_screen(px: int, py: int, width: int, height: int) -> bool {
    0 <= px < width && 0 <= py < height
}

/// Distinct character cells never land on the same screen pixel.
proof fn lemma_cells_apart(scale: int, a: int, b: int, k: int, lx: int)
    requires
        scale >= 1,
        0 <= b < 3 * scale,
        0 <= lx < 3 * scale,
        4 * scale * a + b == 4 * scale * k + lx,
    ensures
        a == k,
        b == lx,
{
    assert(a == k) by (nonlinear_arith)
        requires
            scale >= 1,
            0 <= b < 3 * scale,
            0 <= lx < 3 * scale,
            4 * scale * a + b == 4 * scale * k + lx,
    ;
}

/// The on-screen pixels covered by a label, each once.
pub fn label_pixels(glyphs: &Vec<[u8; 5]>, x0: i64, y0: i64, scale: i64, width: u32, height: u32) -> (out: Vec<(u32, u32)>)
    requires
        1 <= scale <= 64,
        glyphs@.len() <= 0x100_0000,
        -0x1_0000_0000 <= x0 <= 0x1_0000_0000,
        -0x1_0000_0000 <= y0 <= 0x1_0000_0000,
    ensures
        out@.no_duplicates(),
        forall|px: u32, py: u32|
            #[trigger] out@.contains((px, py)) <==> (on_screen(px as int, py as int, width as int, height as int)
                && covered(glyphs@, x0 as int, y0 as int, scale as int, px as int, py as int)),
{
    let mut out: Vec<(u32, u32)> = Vec::new();
    let n = glyphs.len();
    let mut k: usize = 0;
    let mut cx: i64 = x0;
    while k < n
        invariant
            n == glyphs@.len(),
            1 <= scale <= 64,
            n <= 0x100_0000,
            -0x1_0000_0000 <= x0 <= 0x1_0000_0000,
            -0x1_0000_0000 <= y0 <= 0x1_0000_0000,
            k <= n,
            cx == x0 + 4 * scale * k,
            out@.no_duplicates(),
            forall|px: u32, py: u32|
                #[trigger] out@.contains((px, py)) <==> (on_screen(px as int, py as int, width as int, height as int)
                    && covered_before(glyphs@, x0 as int, y0 as int, scale as int, px as int, py as int, k as int, 0, 0)),
        decreases n - k,
    {
        let g = glyphs[k];
        let mut ly: i64 = 0;
        while ly < 5 * scale
            invariant
                n == glyphs@.len(),
                1 <= scale <= 64,
                n <= 0x100_0000,
                -0x1_0000_0000 <= x0 <= 0x1_0000_0000,
                -0x1_0000_0000 <= y0 <= 0x1_0000_0000,
                k < n,
                g == glyphs@[k as int],
                cx == x0 + 4 * scale * k,
                0 <= ly <= 5 * scale,
                out@.no_duplicates(),
                forall|px: u32, py: u32|
                    #[trigger] out@.contains((px, py)) <==> (on_screen(px as int, py as int, width as int, height as int)
                        && covered_before(glyphs@, x0 as int, y0 as int, scale as int, px as int, py as int, k as int, ly as int, 0)),
            decreases 5 * scale - ly,
        {
            proof {
                assert(0 <= ly / scale < 5) by (nonlinear_arith)
                    requires
                        0 <= ly < 5 * scale,
                        scale >= 1,
                ;
            }
            let row = (ly / scale) as usize;
            let mut lx: i64 = 0;
            while lx < 3 * scale
                invariant
                    n == glyphs@.len(),
                    1 <= scale <= 64,
                    n <= 0x100_0000,
                    -0x1_0000_0000 <= x0 <= 0x1_0000_0000,
                    -0x1_0000_0000 <= y0 <= 0x1_0000_0000,
                    k < n,
                    g == glyphs@[k as int],
                    cx == x0 + 4 * scale * k,
                    0 <= ly < 5 * scale,
                    row == ly / scale,
                    row < 5,
                    0 <= lx <= 3 * scale,
                    out@.no_duplicates(),
                    forall|px: u32, py: u32|
                        #[trigger] out@.contains((px, py)) <==> (on_screen(px as int, py as int, width as int, height as int)
                            && covered_before(glyphs@, x0 as int, y0 as int, scale as int, px as int, py as int, k as int, ly as int, lx as int)),
                decreases 3 * scale - lx,
            {
                let col = lx / scale;
                proof {
                    assert(0 <= col < 3) by (nonlinear_arith)
                        requires
                            0 <= lx < 3 * scale,
                            scale >= 1,
                            col == lx / scale,
                    ;
                    assert(4 * scale * k <= 4 * 64 * 0x100_0000) by (nonlinear_arith)
                        requires
                            1 <= scale <= 64,
                            0 <= k <= 0x100_0000,
                    ;
                }
                let on = g[row] & (4u8 >> (col as u8)) != 0;
                let px = cx + lx;
                let py = y0 + ly;
                proof {
                    assert(4 * scale * (k + 1) == 4 * scale * k + 4 * scale) by (nonlinear_arith);
                    assert(0 <= col < 3) by (nonlinear_arith)
                        requires
                            0 <= lx < 3 * scale,
                            scale >= 1,
                            col == lx / scale,
                    ;
                }
                let ghost before_out = out@;
                if on && px >= 0 && py >= 0 && px < width as i64 && py < height as i64 {
                    out.push((px as u32, py as u32));
                    proof {
                        assert(cell_on(glyphs@, scale as int, k as int, lx as int, ly as int));
                        if before_out.contains((px as u32, py as u32)) {
                            let (a, b, c) = choose|a: int, b: int, c: int|
                                #![trigger cell_on(glyphs@, scale as int, a, b, c)]
                                cell_on(glyphs@, scale as int, a, b, c) && before(a, c, b, k as int, ly as int, lx as int)
                                    && px == x0 + 4 * scale * a + b && py == y0 + c;
                            lemma_cells_apart(scale as int, a, b, k as int, lx as int);
                            assert(false);
                        }
                        assert(out@.no_duplicates()) by {
                            assert forall|p: int, q: int| 0 <= p < out@.len() && 0 <= q < out@.len() && p != q implies out@[p] != out@[q] by {
                                if p < before_out.len() && q < before_out.len() {
                                    assert(out@[p] == before_out[p] && out@[q] == before_out[q]);
                                } else if p < before_out.len() {
                                    assert(out@[p] == before_out[p]);
                                    assert(before_out.contains(out@[p]));
                                } else if q < before_out.len() {
                                    assert(out@[q] == before_out[q]);
                                    assert(before_out.contains(out@[q]));
                                }
                            }
                        }
                    }
                }
                proof {
                    assert forall|qx: u32, qy: u32|
                        #[trigger] out@.contains((qx, qy)) <==> (on_screen(qx as int, qy as int, width as int, height as int)
                            && covered_before(glyphs@, x0 as int, y0 as int, scale as int, qx as int, qy as int, k as int, ly as int, lx + 1)) by {
                        let now = covered_before(glyphs@, x0 as int, y0 as int, scale as int, qx as int, qy as int, k as int, ly as int, lx + 1);
                        let was = covered_before(glyphs@, x0 as int, y0 as int, scale as int, qx as int, qy as int, k as int, ly as int, lx as int);
                        let pushed = on && px >= 0 && py >= 0 && px < width as i64 && py < height as i64;
                        if was {
                            let (a, b, c) = choose|a: int, b: int, c: int|
                                #![trigger cell_on(glyphs@, scale as int, a, b, c)]
                                cell_on(glyphs@, scale as int, a, b, c) && before(a, c, b, k as int, ly as int, lx as int) && qx == x0 + 4 * scale * a + b && qy == y0 + c;
                            assert(before(a, c, b, k as int, ly as int, lx + 1));
                            assert(now);
                        }
                        if before_out.contains((qx, qy)) {
                            let j = choose|j: int| 0 <= j < before_out.len() && before_out[j] == (qx, qy);
                            assert(out@[j] == (qx, qy));
                        }
                        if out@.contains((qx, qy)) {
                            if !before_out.contains((qx, qy)) {
                                let j = choose|j: int| 0 <= j < out@.len() && out@[j] == (qx, qy);
                                if j < before_out.len() {
                                    assert(before_out[j] == (qx, qy));
                                }
                                assert(pushed);
                                assert(out@[out@.len() - 1] == (px as u32, py as u32));
                                assert(qx as int == px && qy as int == py);
                                assert(cell_on(glyphs@, scale as int, k as int, lx as int, ly as int));
                                assert(before(k as int, ly as int, lx as int, k as int, ly as int, lx + 1));
                                assert(now);
                                assert(on_screen(qx as int, qy as int, width as int, height as int));
                            }
                        }
                        if on_screen(qx as int, qy as int, width as int, height as int) && now && !was {
                            let (a, b, c) = choose|a: int, b: int, c: int|
                                #![trigger cell_on(glyphs@, scale as int, a, b, c)]
                                cell_on(glyphs@, scale as int, a, b, c) && before(a, c, b, k as int, ly as int, lx + 1) && qx == x0 + 4 * scale * a + b && qy == y0 + c;
                            if !(a == k && c == ly && b == lx) {
                                assert(before(a, c, b, k as int, ly as int, lx as int));
                                assert(false);
                            }
                            assert(lit(glyphs@[k as int], ly / scale, lx / scale));
                            assert(on);
                            assert(qx as int == px && qy as int == py);
                            assert(pushed);
                            assert(out@[out@.len() - 1] == (qx, qy));
                        }
                    }
                }
                lx = lx + 1;
            }
            proof {
                assert forall|qx: u32, qy: u32|
                    #[trigger] out@.contains((qx, qy)) <==> (on_screen(qx as int, qy as int, width as int, height as int)
                        && covered_before(glyphs@, x0 as int, y0 as int, scale as int, qx as int, qy as int, k as int, ly + 1, 0)) by {
                    let now = covered_before(glyphs@, x0 as int, y0 as int, scale as int, qx as int, qy as int, k as int, ly + 1, 0);
                    let was = covered_before(glyphs@, x0 as int, y0 as int, scale as int, qx as int, qy as int, k as int, ly as int, 3 * scale);
                    if was {
                        let (a, b, c) = choose|a: int, b: int, c: int|
                            #![trigger cell_on(glyphs@, scale as int, a, b, c)]
                            cell_on(glyphs@, scale as int, a, b, c) && before(a, c, b, k as int, ly as int, 3 * scale) && qx == x0 + 4 * scale * a + b && qy == y0 + c;
                        assert(before(a, c, b, k as int, ly + 1, 0));
                    }
                    if now {
                        let (a, b, c) = choose|a: int, b: int, c: int|
                            #![trigger cell_on(glyphs@, scale as int, a, b, c)]
                            cell_on(glyphs@, scale as int, a, b, c) && before(a, c, b, k as int, ly + 1, 0) && qx == x0 + 4 * scale * a + b && qy == y0 + c;
                        assert(before(a, c, b, k as int, ly as int, 3 * scale));
                    }
                }
            }
            ly = ly + 1;
        }
        proof {
            assert forall|qx: u32, qy: u32|
                #[trigger] out@.contains((qx, qy)) <==> (on_screen(qx as int, qy as int, width as int, height as int)
                    && covered_before(glyphs@, x0 as int, y0 as int, scale as int, qx as int, qy as int, k + 1, 0, 0)) by {
                let now = covered_before(glyphs@, x0 as int, y0 as int, scale as int, qx as int, qy as int, k + 1, 0, 0);
                let was = covered_before(glyphs@, x0 as int, y0 as int, scale as int, qx as int, qy as int, k as int, 5 * scale, 0);
                if was {
                    let (a, b, c) = choose|a: int, b: int, c: int|
                        #![trigger cell_on(glyphs@, scale as int, a, b, c)]
                        cell_on(glyphs@, scale as int, a, b, c) && before(a, c, b, k as int, 5 * scale, 0) && qx == x0 + 4 * scale * a + b && qy == y0 + c;
                    assert(before(a, c, b, k + 1, 0, 0));
                }
                if now {
                    let (a, b, c) = choose|a: int, b: int, c: int|
                        #![trigger cell_on(glyphs@, scale as int, a, b, c)]
                        cell_on(glyphs@, scale as int, a, b, c) && before(a, c, b, k + 1, 0, 0) && qx == x0 + 4 * scale * a + b && qy == y0 + c;
                    assert(before(a, c, b, k as int, 5 * scale, 0));
                }
            }
            assert(4 * scale * (k + 1) == 4 * scale * k + 4 * scale) by (nonlinear_arith);
        }
        proof {
            assert(4 * scale * (k + 1) <= 4 * 64 * 0x100_0000) by (nonlinear_arith)
                requires
                    1 <= scale <= 64,
                    0 <= k < 0x100_0000,
            ;
        }
        k = k + 1;
        cx = cx + 4 * scale;
    }
    proof {
        assert forall|px: u32, py: u32|
            #[trigger] out@.contains((px, py)) <==> (on_screen(px as int, py as int, width as int, height as int)
                && covered(glyphs@, x0 as int, y0 as int, scale as int, px as int, py as int)) by {
            if covered(glyphs@, x0 as int, y0 as int, scale as int, px as int, py as int) {
                let (a, b, c) = choose|a: int, b: int, c: int|
                    #![trigger cell_on(glyphs@, scale as int, a, b, c)]
                    cell_on(glyphs@, scale as int, a, b, c) && px == x0 + 4 * scale * a + b && py == y0 + c;
                assert(before(a, c, b, n as int, 0, 0));
            }
        }
    }
    out
}

} // verus!
