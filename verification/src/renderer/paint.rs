//! Painting blocks of cells into an RGBA buffer: live colours, the
//! background with its grid lines, and repainting whole sets of cells.

use crate::collections::Cell;
use crate::config::{BG_COLOR, GRID_COLOR};
use crate::raster::{on_screen, opaque, pixel_at, put_pixel, sized};
use crate::renderer::geometry::{
    all_blocks_fit, block_fits, block_rect, bounds_blocks, clamp_rect, covered, dirty_covers, in_block,
    lemma_bounds_empty, lemma_bounds_insert,
    lemma_block_rect_covers, lemma_block_unique, lemma_clip_end, lemma_small_dim_cast,
    lemma_union_covers, union_rect, Geometry,
};
use crate::universe::sparse::SparseUniverse;
use vstd::arithmetic::div_mod::{lemma_fundamental_div_mod, lemma_fundamental_div_mod_converse};
use vstd::prelude::*;

verus! {

/// The colour a block repaint gives pixel `(x, y)` of a block whose
/// top-left pixel is `(sx, sy)`: the live colour, or, when restoring the
/// background, grid colour on the block's first row and column when `grid`
/// lines are drawn, and background colour elsewhere.
pub open spec fn block_color(
    live_color: Option<[u8; 3]>,
    grid: bool,
    sx: int,
    sy: int,
    x: int,
    y: int,
) -> [u8; 3] {
    match live_color {
        Some(c) => c,
        None => if grid && (x == sx || y == sy) {
            GRID_COLOR
        } else {
            BG_COLOR
        },
    }
}

/// Paints every pixel of the rectangle `rect` = `(start_x, start_y, end_x,
/// end_y)` with its `block_color`, leaving the rest of the buffer alone.
pub(crate) fn fill_rect(
    rgba: &mut Vec<u8>,
    width: u32,
    height: u32,
    rect: (u32, u32, u32, u32),
    sx: i32,
    sy: i32,
    grid: bool,
    live_color: Option<[u8; 3]>,
)
    requires
        sized(old(rgba)@, width as int, height as int),
        rect.0 <= rect.2 <= width,
        rect.1 <= rect.3 <= height,
    ensures
        final(rgba)@.len() == old(rgba)@.len(),
        forall|px: int, py: int|
            on_screen(width as int, height as int, px, py) ==> #[trigger] pixel_at(
                final(rgba)@,
                width as int,
                px,
                py,
            ) == if rect.0 <= px < rect.2 && rect.1 <= py < rect.3 {
                opaque(block_color(live_color, grid, sx as int, sy as int, px, py))
            } else {
                pixel_at(old(rgba)@, width as int, px, py)
            },
{
    let (start_x, start_y, end_x, end_y) = rect;
    let ghost old_buf = rgba@;
    let mut y = start_y;
    while y < end_y
        invariant
            start_y <= y <= end_y <= height,
            start_x <= end_x <= width,
            sized(rgba@, width as int, height as int),
            rgba@.len() == old_buf.len(),
            forall|px: int, py: int|
                on_screen(width as int, height as int, px, py) ==> #[trigger] pixel_at(
                    rgba@,
                    width as int,
                    px,
                    py,
                ) == if start_x <= px < end_x && start_y <= py < y {
                    opaque(block_color(live_color, grid, sx as int, sy as int, px, py))
                } else {
                    pixel_at(old_buf, width as int, px, py)
                },
        decreases end_y - y,
    {
        let is_grid_row = y as i32 == sy;
        proof {
            if start_x < end_x {
                assert(width <= i32::MAX && height <= i32::MAX) by (nonlinear_arith)
                    requires
                        0 <= start_x < end_x <= width,
                        y < height,
                        width as int * height as int * 4 <= u32::MAX,
                ;
            }
        }
        let mut x = start_x;
        while x < end_x
            invariant
                start_y <= y < end_y <= height,
                start_x <= x <= end_x <= width,
                start_x < end_x ==> height <= i32::MAX && width <= i32::MAX,
                start_x < end_x ==> is_grid_row == (y == sy),
                sized(rgba@, width as int, height as int),
                rgba@.len() == old_buf.len(),
                forall|px: int, py: int|
                    on_screen(width as int, height as int, px, py) ==> #[trigger] pixel_at(
                        rgba@,
                        width as int,
                        px,
                        py,
                    ) == if (start_x <= px < end_x && start_y <= py < y) || (py == y && start_x <= px
                        < x) {
                        opaque(block_color(live_color, grid, sx as int, sy as int, px, py))
                    } else {
                        pixel_at(old_buf, width as int, px, py)
                    },
            decreases end_x - x,
        {
            let color = match live_color {
                Some(c) => c,
                None => {
                    let is_grid_col = x as i32 == sx;
                    if grid && (is_grid_row || is_grid_col) {
                        GRID_COLOR
                    } else {
                        BG_COLOR
                    }
                },
            };
            put_pixel(rgba, width, height, x, y, color);
            x += 1;
        }
        y += 1;
    }
}

/// Whether screen coordinate `x` lies on a grid line: grid lines sit at the
/// viewport's centre `half` plus any multiple of the pixel size `ps`.
pub open spec fn on_grid_line(half: int, ps: int, x: int) -> bool {
    (x - half) % ps == 0
}

/// What a full redraw paints at pixel `(x, y)` when no live cell covers it:
/// grid colour on grid lines, when cells are more than 5 pixels wide, and
/// background colour elsewhere.
pub open spec fn background_at(geo: Geometry, x: int, y: int) -> [u8; 3] {
    if geo.ps > 5 && (on_grid_line(geo.half_w as int, geo.ps as int, x) || on_grid_line(
        geo.half_h as int,
        geo.ps as int,
        y,
    )) {
        GRID_COLOR
    } else {
        BG_COLOR
    }
}

/// The first grid line at or right of 0 is `half mod ps`, and between two
/// consecutive grid lines there is none.
pub(crate) proof fn lemma_grid_lines(half: int, ps: int, cur: int, x: int)
    requires
        ps > 0,
    ensures
        on_grid_line(half, ps, half % ps),
        0 <= x < half % ps ==> !on_grid_line(half, ps, x),
        on_grid_line(half, ps, cur) && cur < x < cur + ps ==> !on_grid_line(half, ps, x),
        on_grid_line(half, ps, cur) ==> on_grid_line(half, ps, cur + ps),
{
    lemma_fundamental_div_mod(half, ps);
    let q = half / ps;
    let off = half % ps;
    assert(off - half == (-q) * ps) by (nonlinear_arith)
        requires
            half == ps * q + off,
    ;
    lemma_fundamental_div_mod_converse(off - half, ps, -q, 0);
    if 0 <= x < off {
        assert(x - half == (-q - 1) * ps + (x - off + ps)) by (nonlinear_arith)
            requires
                half == ps * q + off,
        ;
        lemma_fundamental_div_mod_converse(x - half, ps, -q - 1, x - off + ps);
    }
    lemma_fundamental_div_mod(cur - half, ps);
    let qc = (cur - half) / ps;
    if on_grid_line(half, ps, cur) {
        assert(cur - half == qc * ps) by (nonlinear_arith)
            requires
                cur - half == ps * qc + 0,
        ;
        if cur < x < cur + ps {
            lemma_fundamental_div_mod_converse(x - half, ps, qc, x - cur);
        }
        assert(cur + ps - half == (qc + 1) * ps) by (nonlinear_arith)
            requires
                cur - half == qc * ps,
        ;
        lemma_fundamental_div_mod_converse(cur + ps - half, ps, qc + 1, 0);
    }
}

/// Paints the whole viewport as a full redraw's background: background
/// colour everywhere, then, when cells are more than 5 pixels wide, grid
/// lines on every row and column on a grid line.
pub(crate) fn fill_background(geo: &Geometry, rgba: &mut Vec<u8>)
    requires
        sized(old(rgba)@, geo.width as int, geo.height as int),
        1 <= geo.ps <= 256,
        geo.half_w >= 0,
        geo.half_h >= 0,
    ensures
        final(rgba)@.len() == old(rgba)@.len(),
        forall|x: int, y: int|
            on_screen(geo.width as int, geo.height as int, x, y) ==> #[trigger] pixel_at(
                final(rgba)@,
                geo.width as int,
                x,
                y,
            ) == opaque(background_at(*geo, x, y)),
{
    let width = geo.width;
    let height = geo.height;
    fill_rect(rgba, width, height, (0, 0, width, height), 0, 0, false, Some(BG_COLOR));
    let offset_x: u64 = (geo.half_w as u64) % (geo.ps as u64);
    let offset_y: u64 = (geo.half_h as u64) % (geo.ps as u64);
    if geo.ps > 5 {
        let ps = geo.ps as u64;
        let ghost hw = geo.half_w as int;
        let ghost hh = geo.half_h as int;
        let mut y: u64 = offset_y as u64;
        proof {
            lemma_grid_lines(hh, ps as int, 0, 0);
            assert forall|py: int| 0 <= py < y implies !on_grid_line(hh, ps as int, py) by {
                lemma_grid_lines(hh, ps as int, 0, py);
            }
        }
        while y < height as u64
            invariant
                sized(rgba@, width as int, height as int),
                width == geo.width,
                height == geo.height,
                ps == geo.ps,
                hh == geo.half_h,
                ps > 5,
                y <= height as u64 + ps,
                on_grid_line(hh, ps as int, y as int),
                forall|px: int, py: int|
                    on_screen(width as int, height as int, px, py) ==> #[trigger] pixel_at(
                        rgba@,
                        width as int,
                        px,
                        py,
                    ) == if py < y && on_grid_line(hh, ps as int, py) {
                        opaque(GRID_COLOR)
                    } else {
                        opaque(BG_COLOR)
                    },
            decreases height as u64 + ps - y,
        {
            let row = y as u32;
            fill_rect(rgba, width, height, (0, row, width, row + 1), 0, 0, false, Some(GRID_COLOR));
            proof {
                assert forall|py: int| y < py < y + ps implies !on_grid_line(hh, ps as int, py) by {
                    lemma_grid_lines(hh, ps as int, y as int, py);
                }
                lemma_grid_lines(hh, ps as int, y as int, 0);
            }
            y = y + ps;
        }
        let mut x: u64 = offset_x as u64;
        proof {
            lemma_grid_lines(hw, ps as int, 0, 0);
            assert forall|px: int| 0 <= px < x implies !on_grid_line(hw, ps as int, px) by {
                lemma_grid_lines(hw, ps as int, 0, px);
            }
        }
        while x < width as u64
            invariant
                sized(rgba@, width as int, height as int),
                width == geo.width,
                height == geo.height,
                ps == geo.ps,
                hw == geo.half_w,
                hh == geo.half_h,
                ps > 5,
                x <= width as u64 + ps,
                on_grid_line(hw, ps as int, x as int),
                forall|px: int, py: int|
                    on_screen(width as int, height as int, px, py) ==> #[trigger] pixel_at(
                        rgba@,
                        width as int,
                        px,
                        py,
                    ) == if on_grid_line(hh, ps as int, py) || (px < x && on_grid_line(
                        hw,
                        ps as int,
                        px,
                    )) {
                        opaque(GRID_COLOR)
                    } else {
                        opaque(BG_COLOR)
                    },
            decreases width as u64 + ps - x,
        {
            let col = x as u32;
            fill_rect(rgba, width, height, (col, 0, col + 1, height), 0, 0, false, Some(GRID_COLOR));
            proof {
                assert forall|px: int| x < px < x + ps implies !on_grid_line(hw, ps as int, px) by {
                    lemma_grid_lines(hw, ps as int, x as int, px);
                }
                lemma_grid_lines(hw, ps as int, x as int, 0);
            }
            x = x + ps;
        }
    }
}

/// Repaints world cell `(wx, wy)`'s block, clipped to the viewport, with
/// its `block_color`; returns the clipped rectangle, `None` when the
/// block is off screen.
pub(crate) fn repaint_block(
    geo: &Geometry,
    rgba: &mut Vec<u8>,
    wx: i32,
    wy: i32,
    live_color: Option<[u8; 3]>,
) -> (r: Option<(u32, u32, u32, u32)>)
    requires
        sized(old(rgba)@, geo.width as int, geo.height as int),
        geo.ps >= 1,
        block_fits(*geo, wx as int, wy as int),
    ensures
        final(rgba)@.len() == old(rgba)@.len(),
        r == block_rect(*geo, wx as int, wy as int),
        forall|x: int, y: int|
            on_screen(geo.width as int, geo.height as int, x, y) ==> #[trigger] pixel_at(
                final(rgba)@,
                geo.width as int,
                x,
                y,
            ) == if in_block(*geo, wx as int, wy as int, x, y) {
                opaque(
                    block_color(
                        live_color,
                        geo.ps > 5,
                        geo.screen_pos(wx as int, wy as int).0,
                        geo.screen_pos(wx as int, wy as int).1,
                        x,
                        y,
                    ),
                )
            } else {
                pixel_at(old(rgba)@, geo.width as int, x, y)
            },
{
    let (sx, sy) = geo.cell_screen_pos(wx, wy);
    let (start_x, start_y, end_x, end_y) = match clamp_rect(
        sx,
        sy,
        geo.ps,
        geo.width,
        geo.height,
    ) {
        None => {
            proof {
                assert forall|x: int, y: int|
                    on_screen(geo.width as int, geo.height as int, x, y) implies !in_block(
                    *geo,
                    wx as int,
                    wy as int,
                    x,
                    y,
                ) by {
                    assert(geo.width as int * geo.height as int >= 1) by (nonlinear_arith)
                        requires
                            0 <= x < geo.width,
                            0 <= y < geo.height,
                    ;
                    assert(geo.width <= i32::MAX && geo.height <= i32::MAX) by (nonlinear_arith)
                        requires
                            geo.width as int * geo.height as int >= 1,
                            geo.width as int * geo.height as int * 4 <= u32::MAX,
                    ;
                    lemma_small_dim_cast(geo.width);
                    lemma_small_dim_cast(geo.height);
                }
            }
            return None;
        },
        Some(r) => r,
    };
    proof {
        lemma_clip_end(sx, geo.ps, geo.width);
        lemma_clip_end(sy, geo.ps, geo.height);
        lemma_small_dim_cast(geo.width);
        lemma_small_dim_cast(geo.height);
    }
    fill_rect(
        rgba,
        geo.width,
        geo.height,
        (start_x, start_y, end_x, end_y),
        sx,
        sy,
        geo.ps > 5,
        live_color,
    );
    proof {
        assert forall|x: int, y: int|
            on_screen(geo.width as int, geo.height as int, x, y) implies (start_x <= x < end_x
            && start_y <= y < end_y) == in_block(*geo, wx as int, wy as int, x, y) by {
            assert(geo.width as int * geo.height as int >= 1) by (nonlinear_arith)
                requires
                    0 <= x < geo.width,
                    0 <= y < geo.height,
            ;
            assert(geo.width <= i32::MAX && geo.height <= i32::MAX) by (nonlinear_arith)
                requires
                    geo.width as int * geo.height as int >= 1,
                    geo.width as int * geo.height as int * 4 <= u32::MAX,
            ;
        }
    }
    Some((start_x, start_y, end_x, end_y))
}

/// Whether pixel `px` is opaque in a colour that `color_of` gives for a
/// cell of age `age` when the recorded ages span `bounds`.
pub open spec fn shows_color<F: Fn(u32, (u32, u32)) -> [u8; 3]>(
    color_of: F,
    age: u32,
    bounds: (u32, u32),
    px: (u8, u8, u8, u8),
) -> bool {
    exists|col: [u8; 3]| call_ensures(color_of, (age, bounds), col) && px == opaque(col)
}

/// Within a cell's block, the block's first row and column are exactly the
/// pixels on grid lines, so restoring a block's background paints there
/// what a full redraw paints.
pub proof fn lemma_block_edges_on_grid(geo: Geometry, wx: int, wy: int, x: int, y: int)
    requires
        geo.ps >= 1,
        in_block(geo, wx, wy, x, y),
    ensures
        block_color(None, geo.ps > 5, geo.screen_pos(wx, wy).0, geo.screen_pos(wx, wy).1, x, y)
            == background_at(geo, x, y),
{
    let ps = geo.ps as int;
    let (sx, sy) = geo.screen_pos(wx, wy);
    lemma_fundamental_div_mod_converse(x - geo.half_w, ps, wx - geo.camera_x, x - sx);
    lemma_fundamental_div_mod_converse(y - geo.half_h, ps, wy - geo.camera_y, y - sy);
}

/// Paints the blocks of `cells` in the colours `color_of` gives for their
/// ages within `bounds`, growing the dirty rectangle `dirty` over every
/// clipped block.
pub(crate) fn paint_cells<F: Fn(u32, (u32, u32)) -> [u8; 3]>(
    geo: &Geometry,
    rgba: &mut Vec<u8>,
    cells: &Vec<Cell>,
    universe: &SparseUniverse,
    bounds: (u32, u32),
    color_of: &F,
    dirty: Option<(u32, u32, u32, u32)>,
) -> (d: Option<(u32, u32, u32, u32)>)
    requires
        sized(old(rgba)@, geo.width as int, geo.height as int),
        geo.ps >= 1,
        all_blocks_fit(*geo, cells@.to_set()),
        forall|age: u32, b: (u32, u32)| color_of.requires((age, b)),
    ensures
        final(rgba)@.len() == old(rgba)@.len(),
        forall|x: int, y: int|
            on_screen(geo.width as int, geo.height as int, x, y) && !covered(
                *geo,
                cells@.to_set(),
                x,
                y,
            ) ==> #[trigger] pixel_at(final(rgba)@, geo.width as int, x, y) == pixel_at(
                old(rgba)@,
                geo.width as int,
                x,
                y,
            ),
        forall|x: int, y: int, c: Cell|
            on_screen(geo.width as int, geo.height as int, x, y) && cells@.to_set().contains(c)
                && #[trigger] in_block(*geo, c.0 as int, c.1 as int, x, y) ==> shows_color(
                *color_of,
                universe@.age_of(c),
                bounds,
                #[trigger] pixel_at(final(rgba)@, geo.width as int, x, y),
            ),
        forall|x: int, y: int|
            on_screen(geo.width as int, geo.height as int, x, y) && (dirty_covers(dirty, x, y)
                || covered(*geo, cells@.to_set(), x, y)) ==> #[trigger] dirty_covers(d, x, y),
        bounds_blocks(*geo, cells@.to_set(), dirty, d),
{
    let ghost old_buf = rgba@;
    let mut acc = dirty;
    let mut i: usize = 0;
    proof {
        assert(cells@.subrange(0, 0).to_set() =~= Set::<Cell>::empty());
        lemma_bounds_empty(*geo, dirty);
    }
    while i < cells.len()
        invariant
            i <= cells@.len(),
            sized(rgba@, geo.width as int, geo.height as int),
            rgba@.len() == old_buf.len(),
            geo.ps >= 1,
            all_blocks_fit(*geo, cells@.to_set()),
            forall|age: u32, b: (u32, u32)| color_of.requires((age, b)),
            forall|x: int, y: int|
                on_screen(geo.width as int, geo.height as int, x, y) && !covered(
                    *geo,
                    cells@.subrange(0, i as int).to_set(),
                    x,
                    y,
                ) ==> #[trigger] pixel_at(rgba@, geo.width as int, x, y) == pixel_at(
                    old_buf,
                    geo.width as int,
                    x,
                    y,
                ),
            forall|x: int, y: int, c: Cell|
                on_screen(geo.width as int, geo.height as int, x, y) && cells@.subrange(
                    0,
                    i as int,
                ).to_set().contains(c) && #[trigger] in_block(*geo, c.0 as int, c.1 as int, x, y)
                    ==> shows_color(
                    *color_of,
                    universe@.age_of(c),
                    bounds,
                    #[trigger] pixel_at(rgba@, geo.width as int, x, y),
                ),
            forall|x: int, y: int|
                on_screen(geo.width as int, geo.height as int, x, y) && (dirty_covers(dirty, x, y)
                    || covered(*geo, cells@.subrange(0, i as int).to_set(), x, y))
                    ==> #[trigger] dirty_covers(acc, x, y),
            bounds_blocks(*geo, cells@.subrange(0, i as int).to_set(), dirty, acc),
        decreases cells.len() - i,
    {
        let (wx, wy) = cells[i];
        proof {
            assert(cells@.to_set().contains(cells@[i as int]));
        }
        let age = universe.age_of(&(wx, wy));
        let color = color_of(age, bounds);
        let r = repaint_block(geo, rgba, wx, wy, Some(color));
        let ghost acc_before = acc;
        if let Some(rect) = r {
            acc = Some(union_rect(acc, rect));
        }
        proof {
            let prev_set = cells@.subrange(0, i as int).to_set();
            let next_set = cells@.subrange(0, i + 1).to_set();
            assert(cells@.subrange(0, i + 1) =~= cells@.subrange(0, i as int).push((wx, wy)));
            cells@.subrange(0, i as int).lemma_push_to_set_commute((wx, wy));
            assert(next_set =~= prev_set.insert((wx, wy)));
            lemma_bounds_insert(*geo, prev_set, (wx, wy), dirty, acc_before);
            assert forall|x: int, y: int|
                on_screen(geo.width as int, geo.height as int, x, y) implies covered(
                *geo,
                next_set,
                x,
                y,
            ) == (covered(*geo, prev_set, x, y) || in_block(*geo, wx as int, wy as int, x, y)) by {
                if covered(*geo, next_set, x, y) {
                    let c = choose|c: Cell|
                        next_set.contains(c) && #[trigger] in_block(
                            *geo,
                            c.0 as int,
                            c.1 as int,
                            x,
                            y,
                        );
                    if c != (wx, wy) {
                        assert(prev_set.contains(c));
                    }
                }
                if in_block(*geo, wx as int, wy as int, x, y) {
                    assert(next_set.contains((wx, wy)));
                }
            }
            assert forall|x: int, y: int, c: Cell|
                on_screen(geo.width as int, geo.height as int, x, y) && next_set.contains(c)
                    && #[trigger] in_block(*geo, c.0 as int, c.1 as int, x, y) implies shows_color(
                *color_of,
                universe@.age_of(c),
                bounds,
                #[trigger] pixel_at(rgba@, geo.width as int, x, y),
            ) by {
                if in_block(*geo, wx as int, wy as int, x, y) {
                    lemma_block_unique(*geo, c, (wx, wy), x, y);
                    assert(call_ensures(*color_of, (age, bounds), color));
                } else {
                    assert(prev_set.contains(c));
                }
            }
            assert forall|x: int, y: int|
                on_screen(geo.width as int, geo.height as int, x, y) && (dirty_covers(dirty, x, y)
                    || covered(*geo, next_set, x, y)) implies #[trigger] dirty_covers(acc, x, y) by {
                if in_block(*geo, wx as int, wy as int, x, y) {
                    lemma_block_rect_covers(*geo, wx as int, wy as int, x, y);
                }
                if r is Some {
                    lemma_union_covers(acc_before, r->0, x, y);
                }
            }
        }
        i += 1;
    }
    proof {
        assert(cells@.subrange(0, cells@.len() as int) =~= cells@);
    }
    acc
}

} // verus!
