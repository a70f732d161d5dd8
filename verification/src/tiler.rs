//! Raster tiler: partitions a page region into overlapping tiles in raster
//! order (rows top-to-bottom, columns left-to-right), clamped to the region,
//! with a fixed overlap between neighbouring tiles.
use vstd::prelude::*;

verus! {

/// Fixed tile overlap in pixels.
pub const TILE_OVERLAP: u32 = 64;

/// Smallest accepted tile size, also the floor of the step between origins.
pub const TILE_MIN: u32 = 256;

/// Largest accepted tile size.
pub const TILE_MAX: u32 = 1024;

/// Largest accepted region coordinate.
pub const REGION_BOUND: u32 = 0x4000_0000;

/// One tile rectangle: origin and clamped extent.
#[derive(Clone, Copy, PartialEq, Eq, Structural, Debug)]
pub struct TileRect {
    pub x: u32,
    pub y: u32,
    pub w: u32,
    pub h: u32,
}

/// Requested tile size clamped to `[TILE_MIN, TILE_MAX]`.
pub open spec fn eff_tile(t: u32) -> int {
    if t < TILE_MIN {
        TILE_MIN as int
    } else if t > TILE_MAX {
        TILE_MAX as int
    } else {
        t as int
    }
}

/// Step between tile origins: tile size minus overlap, floored at `TILE_MIN`
/// to guarantee forward progress.
pub open spec fn eff_step(t: u32) -> int {
    if eff_tile(t) - TILE_OVERLAP as int > TILE_MIN as int {
        eff_tile(t) - TILE_OVERLAP as int
    } else {
        TILE_MIN as int
    }
}

/// A tile lies inside the region and its extent is the tile size clamped to
/// what remains of the region.
pub open spec fn tile_in_region(r: TileRect, x0: u32, y0: u32, x1: u32, y1: u32, t: u32) -> bool {
    &&& x0 <= r.x < x1
    &&& y0 <= r.y < y1
    &&& r.w == if eff_tile(t) <= x1 - r.x {
        eff_tile(t)
    } else {
        x1 - r.x
    }
    &&& r.h == if eff_tile(t) <= y1 - r.y {
        eff_tile(t)
    } else {
        y1 - r.y
    }
}

/// The tile contains the pixel `(px, py)`.
pub open spec fn tile_contains(r: TileRect, px: int, py: int) -> bool {
    &&& r.x <= px < r.x + r.w
    &&& r.y <= py < r.y + r.h
}

/// Some tile of `ts` contains the pixel `(px, py)`.
pub open spec fn region_covered_at(ts: Seq<TileRect>, px: int, py: int) -> bool {
    exists|i: int| 0 <= i < ts.len() && tile_contains(#[trigger] ts[i], px, py)
}

/// Law: the step never exceeds the tile size (tiles overlap or abut, never
/// leave gaps), and whenever the tile is large enough that the overlap rules
/// the step, neighbouring full tiles share exactly `TILE_OVERLAP` pixels.
pub proof fn lemma_step_overlap(t: u32)
    ensures
        TILE_MIN as int <= eff_step(t) <= eff_tile(t),
        eff_tile(t) - TILE_OVERLAP as int > TILE_MIN as int ==> eff_tile(t) - eff_step(t)
            == TILE_OVERLAP as int,
{
}

fn axis_origins(start: u32, end: u32, step: u32) -> (r: Vec<u32>)
    requires
        1 <= step <= TILE_MAX,
        end <= REGION_BOUND,
    ensures
        forall|k: int|
            0 <= k < r@.len() ==> r@[k] == start + k * (step as int) && r@[k] < end,
        start < end ==> r@.len() >= 1 && end <= start + r@.len() * (step as int),
        start >= end ==> r@.len() == 0,
{
    let mut r: Vec<u32> = Vec::new();
    let mut o = start;
    proof {
        assert(0 * (step as int) == 0) by (nonlinear_arith);
    }
    while o < end
        invariant
            1 <= step <= TILE_MAX,
            end <= REGION_BOUND,
            start <= o,
            o == start + r@.len() * (step as int),
            forall|k: int|
                0 <= k < r@.len() ==> r@[k] == start + k * (step as int) && r@[k] < end,
        decreases end + step - o,
    {
        r.push(o);
        proof {
            assert((r@.len() - 1) * (step as int) + step == r@.len() * (step as int))
                by (nonlinear_arith);
        }
        o = o + step;
    }
    proof {
        if start >= end && r@.len() > 0 {
            assert(r@[0] == start + 0 * (step as int));
            assert(0 * (step as int) == 0) by (nonlinear_arith);
        }
    }
    r
}

proof fn lemma_axis_cover(org: Seq<u32>, start: int, end: int, step: int, tile: int, c: int)
    requires
        1 <= step <= tile,
        forall|k: int| 0 <= k < org.len() ==> org[k] == start + k * step,
        start <= c < end,
        end <= start + org.len() * step,
        org.len() >= 1,
    ensures
        exists|k: int| 0 <= k < org.len() && #[trigger] org[k] <= c < org[k] + tile,
{
    let k = (c - start) / step;
    vstd::arithmetic::div_mod::lemma_fundamental_div_mod(c - start, step);
    let m = (c - start) % step;
    vstd::arithmetic::div_mod::lemma_mod_bound(c - start, step);
    assert(c - start == step * k + m);
    assert(k >= 0) by (nonlinear_arith)
        requires
            step * k + m >= 0,
            0 <= m < step,
    ;
    assert(k < org.len()) by (nonlinear_arith)
        requires
            step * k + m < org.len() * step,
            0 <= m < step,
            step >= 1,
    ;
    assert(org[k] == start + k * step);
    assert(start + k * step <= c) by (nonlinear_arith)
        requires
            c - start == step * k + m,
            m >= 0,
    ;
    assert(c < start + k * step + tile) by (nonlinear_arith)
        requires
            c - start == step * k + m,
            m < step,
            step <= tile,
    ;
    assert(org[k] <= c < org[k] + tile);
}

/// All tiles of the region `[x0, x1) x [y0, y1)` in raster order. Together
/// they cover the region exactly: every tile lies inside the region, every
/// region pixel lies in some tile, consecutive tiles of one row are one step
/// apart, and each row starts at `x0`.
pub fn tile_rects(x0: u32, y0: u32, x1: u32, y1: u32, tile: u32) -> (r: Vec<TileRect>)
    requires
        x1 <= REGION_BOUND,
        y1 <= REGION_BOUND,
    ensures
        forall|i: int| 0 <= i < r@.len() ==> tile_in_region(#[trigger] r@[i], x0, y0, x1, y1, tile),
        forall|px: int, py: int|
            x0 <= px < x1 && y0 <= py < y1 ==> #[trigger] region_covered_at(r@, px, py),
        forall|i: int|
            0 <= i < r@.len() - 1 ==> (#[trigger] r@[i + 1].y == r@[i].y && r@[i + 1].x == r@[i].x
                + eff_step(tile)) || (r@[i + 1].y == r@[i].y + eff_step(tile) && r@[i + 1].x
                == x0),
        r@.len() > 0 <==> (x0 < x1 && y0 < y1),
        r@.len() > 0 ==> r@[0].x == x0 && r@[0].y == y0,
{
    let t = if tile < TILE_MIN {
        TILE_MIN
    } else if tile > TILE_MAX {
        TILE_MAX
    } else {
        tile
    };
    let step = if t - TILE_OVERLAP > TILE_MIN {
        t - TILE_OVERLAP
    } else {
        TILE_MIN
    };
    let xs = axis_origins(x0, x1, step);
    let ys = axis_origins(y0, y1, step);
    let nx = xs.len();
    let ny = ys.len();
    let mut r: Vec<TileRect> = Vec::new();
    let mut j: usize = 0;
    while j < ny
        invariant
            t as int == eff_tile(tile),
            step as int == eff_step(tile),
            1 <= step <= t <= TILE_MAX,
            x1 <= REGION_BOUND,
            y1 <= REGION_BOUND,
            nx == xs@.len(),
            ny == ys@.len(),
            forall|k: int| 0 <= k < nx ==> xs@[k] == x0 + k * (step as int) && xs@[k] < x1,
            forall|m: int| 0 <= m < ny ==> ys@[m] == y0 + m * (step as int) && ys@[m] < y1,
            0 <= j <= ny,
            r@.len() == j * nx,
            forall|m: int, k: int|
                0 <= m < j && 0 <= k < nx ==> {
                    let rt = #[trigger] r@[m * (nx as int) + k];
                    rt.x == xs@[k] && rt.y == ys@[m] && tile_in_region(rt, x0, y0, x1, y1, tile)
                },
        decreases ny - j,
    {
        let oy = ys[j];
        let th = if t <= y1 - oy {
            t
        } else {
            y1 - oy
        };
        let mut i: usize = 0;
        while i < nx
            invariant
                t as int == eff_tile(tile),
                step as int == eff_step(tile),
                1 <= step <= t <= TILE_MAX,
                x1 <= REGION_BOUND,
                y1 <= REGION_BOUND,
                nx == xs@.len(),
                ny == ys@.len(),
                forall|k: int| 0 <= k < nx ==> xs@[k] == x0 + k * (step as int) && xs@[k] < x1,
                forall|m: int| 0 <= m < ny ==> ys@[m] == y0 + m * (step as int) && ys@[m] < y1,
                0 <= j < ny,
                oy == ys@[j as int],
                y0 <= oy < y1,
                th == if eff_tile(tile) <= y1 - oy {
                    eff_tile(tile)
                } else {
                    (y1 - oy) as int
                },
                0 <= i <= nx,
                r@.len() == j * nx + i,
                forall|m: int, k: int|
                    0 <= m < j && 0 <= k < nx ==> {
                        let rt = #[trigger] r@[m * (nx as int) + k];
                        rt.x == xs@[k] && rt.y == ys@[m] && tile_in_region(
                            rt,
                            x0,
                            y0,
                            x1,
                            y1,
                            tile,
                        )
                    },
                forall|k: int|
                    0 <= k < i ==> {
                        let rt = #[trigger] r@[j * (nx as int) + k];
                        rt.x == xs@[k] && rt.y == ys@[j as int] && tile_in_region(
                            rt,
                            x0,
                            y0,
                            x1,
                            y1,
                            tile,
                        )
                    },
            decreases nx - i,
        {
            let ox = xs[i];
            let tw = if t <= x1 - ox {
                t
            } else {
                x1 - ox
            };
            r.push(TileRect { x: ox, y: oy, w: tw, h: th });
            proof {
                assert forall|m: int, k2: int| 0 <= m < j && 0 <= k2 < nx implies 0 <= #[trigger] (
                m * (nx as int) + k2) < (j as int) * (nx as int) by {
                    assert(m * (nx as int) + k2 < (j as int) * (nx as int)) by (nonlinear_arith)
                        requires
                            0 <= m <= (j as int) - 1,
                            0 <= k2 < nx as int,
                    ;
                    assert(m * (nx as int) + k2 >= 0) by (nonlinear_arith)
                        requires
                            0 <= m,
                            0 <= k2,
                            0 <= nx,
                    ;
                }
            }
            i = i + 1;
        }
        proof {
            assert(((j + 1) as int) * (nx as int) == (j as int) * (nx as int) + (nx as int))
                by (nonlinear_arith);
            assert forall|m: int, k: int|
                0 <= m < (j as int) + 1 && 0 <= k < nx implies {
                let rt = #[trigger] r@[m * (nx as int) + k];
                rt.x == xs@[k] && rt.y == ys@[m] && tile_in_region(rt, x0, y0, x1, y1, tile)
            } by {
                if m == j as int {
                    let rt2 = r@[(j as int) * (nx as int) + k];
                    assert(rt2.x == xs@[k] && rt2.y == ys@[j as int] && tile_in_region(
                        rt2,
                        x0,
                        y0,
                        x1,
                        y1,
                        tile,
                    ));
                    assert(m * (nx as int) + k == (j as int) * (nx as int) + k);
                }
            }
        }
        j = j + 1;
    }
    proof {
        let nxi = nx as int;
        let nyi = ny as int;
        let stepi = step as int;
        let ti = eff_tile(tile);
        // coverage
        assert forall|px: int, py: int| x0 <= px < x1 && y0 <= py < y1 implies #[trigger] region_covered_at(
            r@,
            px,
            py,
        ) by {
            lemma_axis_cover(xs@, x0 as int, x1 as int, stepi, ti, px);
            lemma_axis_cover(ys@, y0 as int, y1 as int, stepi, ti, py);
            let k = choose|k: int| 0 <= k < xs@.len() && #[trigger] xs@[k] <= px < xs@[k] + ti;
            let m = choose|m: int| 0 <= m < ys@.len() && #[trigger] ys@[m] <= py < ys@[m] + ti;
            let idx = m * nxi + k;
            assert(0 <= idx < r@.len()) by (nonlinear_arith)
                requires
                    0 <= k < nxi,
                    0 <= m < nyi,
                    idx == m * nxi + k,
                    r@.len() == nyi * nxi,
            ;
            assert(r@[idx].x == xs@[k] && r@[idx].y == ys@[m] && tile_in_region(
                r@[idx],
                x0,
                y0,
                x1,
                y1,
                tile,
            ));
            assert(tile_contains(r@[idx], px, py));
        }
        // raster order of consecutive tiles
        assert forall|i: int| 0 <= i < r@.len() - 1 implies (#[trigger] r@[i + 1].y == r@[i].y
            && r@[i + 1].x == r@[i].x + eff_step(tile)) || (r@[i + 1].y == r@[i].y + eff_step(
            tile,
        ) && r@[i + 1].x == x0) by {
            let m = i / nxi;
            let k = i % nxi;
            vstd::arithmetic::div_mod::lemma_fundamental_div_mod(i, nxi);
            vstd::arithmetic::div_mod::lemma_mod_bound(i, nxi);
            assert(m >= 0) by (nonlinear_arith)
                requires
                    i == nxi * m + k,
                    0 <= k < nxi,
                    i >= 0,
            ;
            assert(m < nyi) by (nonlinear_arith)
                requires
                    i == nxi * m + k,
                    0 <= k < nxi,
                    i < nyi * nxi,
                    m >= 0,
            ;
            assert(r@[m * nxi + k] == r@[i]);
            if k + 1 < nxi {
                assert(i + 1 == m * nxi + (k + 1));
                assert(r@[m * nxi + (k + 1)] == r@[i + 1]);
                assert(xs@[k + 1] == xs@[k] + stepi) by (nonlinear_arith)
                    requires
                        xs@[k + 1] == x0 + (k + 1) * stepi,
                        xs@[k] == x0 + k * stepi,
                ;
            } else {
                assert(i + 1 == (m + 1) * nxi + 0) by (nonlinear_arith)
                    requires
                        i == nxi * m + k,
                        k == nxi - 1,
                ;
                assert(m + 1 < nyi) by (nonlinear_arith)
                    requires
                        i + 1 < nyi * nxi,
                        i + 1 == (m + 1) * nxi,
                        nxi >= 1,
                ;
                assert(r@[(m + 1) * nxi + 0] == r@[i + 1]);
                assert(ys@[m + 1] == ys@[m] + stepi) by (nonlinear_arith)
                    requires
                        ys@[m + 1] == y0 + (m + 1) * stepi,
                        ys@[m] == y0 + m * stepi,
                ;
                assert(xs@[0] == x0);
            }
        }
        // region/emptiness relation
        if x0 < x1 && y0 < y1 {
            assert(r@.len() == nyi * nxi);
            assert(nyi * nxi >= 1) by (nonlinear_arith)
                requires
                    nxi >= 1,
                    nyi >= 1,
            ;
            assert(r@[0 * nxi + 0] == r@[0]);
            assert(xs@[0] == x0 + 0 * stepi);
            assert(0 * stepi == 0) by (nonlinear_arith);
        } else {
            assert(nyi * nxi == 0) by (nonlinear_arith)
                requires
                    nxi == 0 || nyi == 0,
            ;
        }
        // every tile is in the region
        assert forall|i: int| 0 <= i < r@.len() implies tile_in_region(
            #[trigger] r@[i],
            x0,
            y0,
            x1,
            y1,
            tile,
        ) by {
            let m = i / nxi;
            let k = i % nxi;
            vstd::arithmetic::div_mod::lemma_fundamental_div_mod(i, nxi);
            vstd::arithmetic::div_mod::lemma_mod_bound(i, nxi);
            assert(m >= 0) by (nonlinear_arith)
                requires
                    i == nxi * m + k,
                    0 <= k < nxi,
                    i >= 0,
            ;
            assert(m < nyi) by (nonlinear_arith)
                requires
                    i == nxi * m + k,
                    0 <= k < nxi,
                    i < nyi * nxi,
                    m >= 0,
            ;
            assert(r@[m * nxi + k] == r@[i]);
        }
    }
    r
}

} // verus!
