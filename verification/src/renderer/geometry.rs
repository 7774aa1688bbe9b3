//! Screen geometry: the pixel size of a cell at each zoom level, where a
//! world cell's block of pixels lands on screen, how it is clipped to the
//! viewport, and how dirty rectangles grow.

use crate::camera::{Camera, CameraView};
use crate::collections::{set_members, Cell};
use crate::raster::on_screen;
use rustc_hash::FxHashSet;
use vstd::arithmetic::power2::{lemma2_to64, lemma_pow2_strictly_increases, pow2};
use vstd::bits::{lemma_u32_pow2_no_overflow, lemma_u32_shl_is_mul};
use vstd::prelude::*;

verus! {

/// Pixel size of a world cell at zoom level `scale`: `2^-scale` when zoomed
/// in, 1 at 1:1 and beyond.
pub open spec fn pixel_size(scale: int) -> int {
    if scale < 0 {
        pow2((-scale) as nat) as int
    } else {
        1
    }
}

/// Pixel size of a world cell at zoom level `scale`: `1 << -scale` when
/// zoomed in, 1 otherwise. At `-31` the shift reaches the sign bit and the
/// result is `i32::MIN`.
pub fn pixel_size_for_scale(scale: i32) -> (ps: i32)
    requires
        scale >= -31,
    ensures
        scale >= -30 ==> ps == pixel_size(scale as int),
        scale == -31 ==> ps == i32::MIN,
{
    if scale < 0 {
        let k: u32 = (-scale) as u32;
        let ps: i32 = 1i32 << k;
        proof {
            assert((1i32 << k) as u32 == (1u32 << k)) by (bit_vector)
                requires
                    k < 32,
            ;
            lemma_u32_pow2_no_overflow(k as nat);
            lemma_u32_shl_is_mul(1, k);
            if k <= 30 {
                assert((1i32 << k) >= 0) by (bit_vector)
                    requires
                        k <= 30,
                ;
                assert(ps as int == (ps as u32) as int);
            } else {
                assert((1i32 << k) == i32::MIN) by (bit_vector)
                    requires
                        k == 31,
                ;
            }
        }
        ps
    } else {
        1
    }
}

/// The geometry of a `width` x `height` viewport looking through a camera
/// in state `cam`.
pub open spec fn geometry_for(cam: CameraView, width: u32, height: u32) -> Geometry {
    Geometry {
        width,
        height,
        half_w: (width / 2) as i32,
        half_h: (height / 2) as i32,
        ps: pixel_size(cam.scale) as i32,
        camera_x: cam.x as i32,
        camera_y: cam.y as i32,
    }
}

/// The mapping from world cells to screen pixels for one frame: the
/// viewport's size and centre, the pixel size of a cell, and the world cell
/// at the centre.
pub struct Geometry {
    pub width: u32,
    pub height: u32,
    pub half_w: i32,
    pub half_h: i32,
    pub ps: i32,
    pub camera_x: i32,
    pub camera_y: i32,
}

impl Geometry {
    /// The geometry of a `width` x `height` viewport looking through
    /// `camera`.
    pub fn new(camera: &Camera, width: u32, height: u32) -> (g: Geometry)
        ensures
            g.width == width,
            g.height == height,
            g.half_w == width / 2,
            g.half_h == height / 2,
            g.ps == pixel_size(camera@.scale),
            g.camera_x == camera@.x,
            g.camera_y == camera@.y,
            1 <= g.ps <= 256,
            g == geometry_for(camera@, width, height),
    {
        let scale = camera.scale();
        let ps = pixel_size_for_scale(scale);
        proof {
            lemma2_to64();
            if scale < 0 && scale > -8 {
                lemma_pow2_strictly_increases((-scale) as nat, 8);
            }
        }
        Geometry {
            width,
            height,
            half_w: (width / 2) as i32,
            half_h: (height / 2) as i32,
            ps,
            camera_x: camera.x(),
            camera_y: camera.y(),
        }
    }

    /// Whether the screen position of world cell `(wx, wy)` fits `i32`.
    pub open spec fn screen_pos_fits(&self, wx: int, wy: int) -> bool {
        &&& i32::MIN <= wx - self.camera_x <= i32::MAX
        &&& i32::MIN <= wy - self.camera_y <= i32::MAX
        &&& i32::MIN <= (wx - self.camera_x) * self.ps <= i32::MAX
        &&& i32::MIN <= (wy - self.camera_y) * self.ps <= i32::MAX
        &&& i32::MIN <= self.half_w + (wx - self.camera_x) * self.ps <= i32::MAX
        &&& i32::MIN <= self.half_h + (wy - self.camera_y) * self.ps <= i32::MAX
    }

    /// Top-left screen pixel of world cell `(wx, wy)`'s block, unclamped:
    /// the camera's cell sits at the viewport's centre.
    pub open spec fn screen_pos(&self, wx: int, wy: int) -> (int, int) {
        (
            self.half_w + (wx - self.camera_x) * self.ps,
            self.half_h + (wy - self.camera_y) * self.ps,
        )
    }

    /// Unclamped top-left screen coordinate of a world cell's block.
    pub fn cell_screen_pos(&self, wx: i32, wy: i32) -> (p: (i32, i32))
        requires
            self.screen_pos_fits(wx as int, wy as int),
        ensures
            p.0 == self.screen_pos(wx as int, wy as int).0,
            p.1 == self.screen_pos(wx as int, wy as int).1,
    {
        (self.half_w + (wx - self.camera_x) * self.ps, self.half_h + (wy - self.camera_y) * self.ps)
    }
}

/// The smaller of two integers.
pub open spec fn min_int(a: int, b: int) -> int {
    if a <= b {
        a
    } else {
        b
    }
}

/// The larger of two integers.
pub open spec fn max_int(a: int, b: int) -> int {
    if a >= b {
        a
    } else {
        b
    }
}

/// The block `[sx, sx + ps) x [sy, sy + ps)` clipped to a viewport whose
/// width and height, read as `i32`, are `w` and `h`: `None` when nothing of
/// it is on screen, otherwise `(start_x, start_y, end_x, end_y)`.
pub open spec fn clipped_block(sx: int, sy: int, ps: int, w: int, h: int) -> Option<
    (int, int, int, int),
> {
    if sx + ps <= 0 || sx >= w || sy + ps <= 0 || sy >= h {
        None
    } else {
        Some((max_int(sx, 0), max_int(sy, 0), min_int(sx + ps, w), min_int(sy + ps, h)))
    }
}

/// Clamps a cell's screen-space rect to the viewport, returning `None` if
/// it's entirely off-screen.
pub fn clamp_rect(sx: i32, sy: i32, ps: i32, width: u32, height: u32) -> (r: Option<
    (u32, u32, u32, u32),
>)
    requires
        i32::MIN <= sx + ps <= i32::MAX,
        i32::MIN <= sy + ps <= i32::MAX,
    ensures
        ({
            let w = (width as i32) as int;
            let h = (height as i32) as int;
            match clipped_block(sx as int, sy as int, ps as int, w, h) {
                None => r is None,
                Some(b) => r == Some(
                    (b.0 as u32, b.1 as u32, b.2 as u32, b.3 as u32),
                ),
            }
        }),
{
    if sx + ps <= 0 || sx >= width as i32 || sy + ps <= 0 || sy >= height as i32 {
        return None;
    }
    let start_x = if sx > 0 { sx } else { 0 };
    let start_y = if sy > 0 { sy } else { 0 };
    let end_x = if sx + ps < width as i32 { sx + ps } else { width as i32 };
    let end_y = if sy + ps < height as i32 { sy + ps } else { height as i32 };
    Some((start_x as u32, start_y as u32, end_x as u32, end_y as u32))
}

/// The smallest rectangle covering `acc` (if any) and `r`, each given as
/// `(start_x, start_y, end_x, end_y)`.
pub open spec fn rect_union(acc: Option<(u32, u32, u32, u32)>, r: (u32, u32, u32, u32)) -> (
    u32,
    u32,
    u32,
    u32,
) {
    match acc {
        None => r,
        Some(a) => (
            if a.0 <= r.0 { a.0 } else { r.0 },
            if a.1 <= r.1 { a.1 } else { r.1 },
            if a.2 >= r.2 { a.2 } else { r.2 },
            if a.3 >= r.3 { a.3 } else { r.3 },
        ),
    }
}

/// Grows the accumulated dirty rectangle `acc` to cover `r` as well.
pub fn union_rect(acc: Option<(u32, u32, u32, u32)>, r: (u32, u32, u32, u32)) -> (u: (
    u32,
    u32,
    u32,
    u32,
))
    ensures
        u == rect_union(acc, r),
{
    match acc {
        None => r,
        Some((ax0, ay0, ax1, ay1)) => (
            if ax0 <= r.0 { ax0 } else { r.0 },
            if ay0 <= r.1 { ay0 } else { r.1 },
            if ax1 >= r.2 { ax1 } else { r.2 },
            if ay1 >= r.3 { ay1 } else { r.3 },
        ),
    }
}

/// Whether screen pixel `(x, y)` lies in world cell `(wx, wy)`'s block.
pub open spec fn in_block(geo: Geometry, wx: int, wy: int, x: int, y: int) -> bool {
    let (sx, sy) = geo.screen_pos(wx, wy);
    sx <= x < sx + geo.ps && sy <= y < sy + geo.ps
}

/// Whether world cell `(wx, wy)`'s block, corners included, has screen
/// coordinates that fit `i32`.
pub open spec fn block_fits(geo: Geometry, wx: int, wy: int) -> bool {
    &&& geo.screen_pos_fits(wx, wy)
    &&& geo.screen_pos(wx, wy).0 + geo.ps <= i32::MAX
    &&& geo.screen_pos(wx, wy).1 + geo.ps <= i32::MAX
}

/// The ends of a clipped span, `max(s, 0)` and `min(s + ps, dim as i32)`,
/// read back as `u32`, are in order and never exceed `dim`.
pub(crate) proof fn lemma_clip_end(s: i32, ps: i32, dim: u32)
    requires
        s + ps > 0,
        s < dim as i32,
        s + ps <= i32::MAX,
        ps >= 1,
    ensures
        (if s > 0 { s } else { 0i32 }) as u32 <= (if s + ps < dim as i32 {
            (s + ps) as i32
        } else {
            dim as i32
        }) as u32,
        (if s + ps < dim as i32 { (s + ps) as i32 } else { dim as i32 }) as u32 <= dim,
{
    let d: i32 = dim as i32;
    let e: i32 = if s + ps < d { (s + ps) as i32 } else { d };
    let st: i32 = if s > 0 { s } else { 0i32 };
    assert((d as u32) == dim) by (bit_vector)
        requires
            d == dim as i32,
    ;
    if d > 0 {
        assert(d as int == dim as int) by (bit_vector)
            requires
                d == dim as i32,
                d > 0,
        ;
        assert(e > 0);
        assert(st >= 0);
        assert((e as u32) as int == e as int && (st as u32) as int == st as int) by (bit_vector)
            requires
                e > 0,
                st >= 0,
        ;
    } else {
        assert(e == d);
        assert(st == 0);
    }
}

/// A viewport side up to `i32::MAX` reads as itself when cast to `i32`.
pub(crate) proof fn lemma_small_dim_cast(dim: u32)
    ensures
        dim <= i32::MAX ==> (dim as i32) as int == dim as int,
{
    assert(dim <= 0x7fff_ffff ==> (dim as i32) as int == dim as int) by (bit_vector);
}

/// World cell `(wx, wy)`'s block clipped to the viewport, as
/// `(start_x, start_y, end_x, end_y)`; `None` when it is off screen.
pub open spec fn block_rect(geo: Geometry, wx: int, wy: int) -> Option<(u32, u32, u32, u32)> {
    let (sx, sy) = geo.screen_pos(wx, wy);
    match clipped_block(sx, sy, geo.ps as int, (geo.width as i32) as int, (geo.height as i32) as int) {
        None => None,
        Some(b) => Some((b.0 as u32, b.1 as u32, b.2 as u32, b.3 as u32)),
    }
}

/// Whether screen pixel `(x, y)` lies in the block of some cell of `s`.
pub open spec fn covered(geo: Geometry, s: Set<Cell>, x: int, y: int) -> bool {
    exists|c: Cell| s.contains(c) && #[trigger] in_block(geo, c.0 as int, c.1 as int, x, y)
}

/// Whether every cell of `s` has a block whose screen coordinates fit `i32`.
pub open spec fn all_blocks_fit(geo: Geometry, s: Set<Cell>) -> bool {
    forall|c: Cell| #[trigger] s.contains(c) ==> block_fits(geo, c.0 as int, c.1 as int)
}

/// Blocks of distinct cells do not overlap.
pub proof fn lemma_block_unique(geo: Geometry, c1: Cell, c2: Cell, x: int, y: int)
    requires
        geo.ps >= 1,
        in_block(geo, c1.0 as int, c1.1 as int, x, y),
        in_block(geo, c2.0 as int, c2.1 as int, x, y),
    ensures
        c1 == c2,
{
    let ps = geo.ps as int;
    let a1 = c1.0 - geo.camera_x;
    let a2 = c2.0 - geo.camera_x;
    let b1 = c1.1 - geo.camera_y;
    let b2 = c2.1 - geo.camera_y;
    let u = x - geo.half_w;
    let v = y - geo.half_h;
    assert(a1 == a2) by (nonlinear_arith)
        requires
            ps >= 1,
            a1 * ps <= u < a1 * ps + ps,
            a2 * ps <= u < a2 * ps + ps,
    ;
    assert(b1 == b2) by (nonlinear_arith)
        requires
            ps >= 1,
            b1 * ps <= v < b1 * ps + ps,
            b2 * ps <= v < b2 * ps + ps,
    ;
}

/// Whether the rectangle `r` = `(start_x, start_y, end_x, end_y)` holds
/// pixel `(x, y)`.
pub open spec fn rect_contains(r: (u32, u32, u32, u32), x: int, y: int) -> bool {
    r.0 <= x < r.2 && r.1 <= y < r.3
}

/// Whether the dirty rectangle `d`, if any, holds pixel `(x, y)`.
pub open spec fn dirty_covers(d: Option<(u32, u32, u32, u32)>, x: int, y: int) -> bool {
    match d {
        Some(r) => rect_contains(r, x, y),
        None => false,
    }
}

/// The union of two rectangles holds every pixel of either.
pub proof fn lemma_union_covers(acc: Option<(u32, u32, u32, u32)>, r: (u32, u32, u32, u32), x: int, y: int)
    ensures
        dirty_covers(acc, x, y) || rect_contains(r, x, y) ==> rect_contains(rect_union(acc, r), x, y),
{
}

/// An on-screen pixel of a cell's block lies in the block's clipped
/// rectangle.
pub proof fn lemma_block_rect_covers(geo: Geometry, wx: int, wy: int, x: int, y: int)
    requires
        geo.width as int * geo.height as int * 4 <= u32::MAX,
        on_screen(geo.width as int, geo.height as int, x, y),
        in_block(geo, wx, wy, x, y),
    ensures
        block_rect(geo, wx, wy) is Some,
        rect_contains(block_rect(geo, wx, wy)->0, x, y),
{
    assert(geo.width as int * geo.height as int >= 1) by (nonlinear_arith)
        requires
            0 <= x < geo.width,
            0 <= y < geo.height,
    ;
    assert(geo.width <= i32::MAX && geo.height <= i32::MAX) by (nonlinear_arith)
        requires
            geo.width as int * geo.height as int >= 1,
            geo.width as int * geo.height as int * 4 <= u32::MAX,
    ;
    lemma_small_dim_cast(geo.width);
    lemma_small_dim_cast(geo.height);
}

/// Whether world cell `(wx, wy)`'s block has screen coordinates that fit
/// `i32`, computed without overflow.
pub(crate) fn block_fits_exec(geo: &Geometry, wx: i32, wy: i32) -> (b: bool)
    requires
        1 <= geo.ps <= 256,
    ensures
        b == block_fits(*geo, wx as int, wy as int),
{
    let dx = wx as i64 - geo.camera_x as i64;
    let dy = wy as i64 - geo.camera_y as i64;
    let ps = geo.ps as i64;
    if dx < i32::MIN as i64 || dx > i32::MAX as i64 || dy < i32::MIN as i64 || dy > i32::MAX as i64 {
        return false;
    }
    proof {
        assert(-0x1_0000_0000_00 <= dx * ps <= 0x1_0000_0000_00) by (nonlinear_arith)
            requires
                i32::MIN <= dx <= i32::MAX,
                1 <= ps <= 256,
        ;
        assert(-0x1_0000_0000_00 <= dy * ps <= 0x1_0000_0000_00) by (nonlinear_arith)
            requires
                i32::MIN <= dy <= i32::MAX,
                1 <= ps <= 256,
        ;
    }
    let ox = dx * ps;
    let oy = dy * ps;
    let sx = geo.half_w as i64 + ox;
    let sy = geo.half_h as i64 + oy;
    ox >= i32::MIN as i64 && ox <= i32::MAX as i64 && oy >= i32::MIN as i64 && oy <= i32::MAX as i64
        && sx >= i32::MIN as i64 && sx <= i32::MAX as i64 && sy >= i32::MIN as i64 && sy
        <= i32::MAX as i64 && sx + ps <= i32::MAX as i64 && sy + ps <= i32::MAX as i64
}

/// Whether every cell of `cells` has a block whose screen coordinates fit
/// `i32`.
pub(crate) fn all_fit(geo: &Geometry, cells: &FxHashSet<Cell>) -> (b: bool)
    requires
        1 <= geo.ps <= 256,
    ensures
        b == all_blocks_fit(*geo, cells@),
{
    let members = set_members(cells);
    let mut i: usize = 0;
    while i < members.len()
        invariant
            i <= members@.len(),
            members@.to_set() == cells@,
            1 <= geo.ps <= 256,
            forall|j: int| 0 <= j < i ==> block_fits(*geo, (#[trigger] members@[j]).0 as int, members@[j].1 as int),
        decreases members.len() - i,
    {
        let (wx, wy) = members[i];
        if !block_fits_exec(geo, wx, wy) {
            proof {
                assert(cells@.contains(members@[i as int]));
            }
            return false;
        }
        i += 1;
    }
    proof {
        assert forall|c: Cell| #[trigger] cells@.contains(c) implies block_fits(*geo, c.0 as int, c.1 as int) by {
            assert(members@.to_set().contains(c));
            let j = choose|j: int| 0 <= j < members@.len() && members@[j] == c;
            assert(block_fits(*geo, (members@[j]).0 as int, members@[j].1 as int));
        }
    }
    true
}

/// Side `k` of rectangle `r`: its left, top, right or bottom edge for `k`
/// equal to 0, 1, 2 or 3.
pub open spec fn rect_side(r: (u32, u32, u32, u32), k: int) -> int {
    if k == 0 {
        r.0 as int
    } else if k == 1 {
        r.1 as int
    } else if k == 2 {
        r.2 as int
    } else {
        r.3 as int
    }
}

/// Whether rectangle `inner` lies within rectangle `outer`.
pub open spec fn rect_within(inner: (u32, u32, u32, u32), outer: (u32, u32, u32, u32)) -> bool {
    outer.0 <= inner.0 && outer.1 <= inner.1 && inner.2 <= outer.2 && inner.3 <= outer.3
}

/// Whether side `k` of some rectangle among `seed`, if any, and the
/// on-screen clipped blocks of the cells of `s` lies at `v`.
pub open spec fn side_attained(
    geo: Geometry,
    s: Set<Cell>,
    seed: Option<(u32, u32, u32, u32)>,
    k: int,
    v: int,
) -> bool {
    ||| (seed is Some && rect_side(seed->0, k) == v)
    ||| exists|c: Cell|
        #[trigger] s.contains(c) && block_rect(geo, c.0 as int, c.1 as int) is Some && rect_side(
            block_rect(geo, c.0 as int, c.1 as int)->0,
            k,
        ) == v
}

/// Whether `d` is the smallest rectangle holding the rectangle `seed`, if
/// any, and the clipped block of every cell of `s` that is on screen;
/// `None` exactly when there is neither a seed nor such a block.
pub open spec fn bounds_blocks(
    geo: Geometry,
    s: Set<Cell>,
    seed: Option<(u32, u32, u32, u32)>,
    d: Option<(u32, u32, u32, u32)>,
) -> bool {
    match d {
        None => seed is None && forall|c: Cell| #[trigger]
            s.contains(c) ==> block_rect(geo, c.0 as int, c.1 as int) is None,
        Some(r) => {
            &&& (seed is Some ==> rect_within(seed->0, r))
            &&& forall|c: Cell|
                #[trigger] s.contains(c) && block_rect(geo, c.0 as int, c.1 as int) is Some
                    ==> rect_within(block_rect(geo, c.0 as int, c.1 as int)->0, r)
            &&& forall|k: int| 0 <= k < 4 ==> side_attained(geo, s, seed, k, #[trigger] rect_side(r, k))
        },
    }
}

/// With no cells, the bounding rectangle is the seed itself.
pub proof fn lemma_bounds_empty(geo: Geometry, seed: Option<(u32, u32, u32, u32)>)
    ensures
        bounds_blocks(geo, Set::<Cell>::empty(), seed, seed),
{
}

/// Growing the bounding rectangle of `s` by the clipped block of `c`, if it
/// is on screen, gives the bounding rectangle of `s` with `c`.
pub proof fn lemma_bounds_insert(
    geo: Geometry,
    s: Set<Cell>,
    c: Cell,
    seed: Option<(u32, u32, u32, u32)>,
    acc: Option<(u32, u32, u32, u32)>,
)
    requires
        bounds_blocks(geo, s, seed, acc),
    ensures
        bounds_blocks(
            geo,
            s.insert(c),
            seed,
            match block_rect(geo, c.0 as int, c.1 as int) {
                None => acc,
                Some(b) => Some(rect_union(acc, b)),
            },
        ),
{
    let t = s.insert(c);
    let br = block_rect(geo, c.0 as int, c.1 as int);
    match br {
        None => {
            match acc {
                None => {},
                Some(r) => {
                    assert forall|k: int| 0 <= k < 4 implies side_attained(
                        geo,
                        t,
                        seed,
                        k,
                        #[trigger] rect_side(r, k),
                    ) by {
                        assert(side_attained(geo, s, seed, k, rect_side(r, k)));
                        if !(seed is Some && rect_side(seed->0, k) == rect_side(r, k)) {
                            let w = choose|w: Cell|
                                #[trigger] s.contains(w) && block_rect(geo, w.0 as int, w.1 as int) is Some
                                    && rect_side(block_rect(geo, w.0 as int, w.1 as int)->0, k)
                                    == rect_side(r, k);
                            assert(t.contains(w));
                        }
                    }
                },
            }
        },
        Some(b) => {
            let r = rect_union(acc, b);
            assert(t.contains(c));
            match acc {
                None => {
                    assert forall|k: int| 0 <= k < 4 implies side_attained(
                        geo,
                        t,
                        seed,
                        k,
                        #[trigger] rect_side(r, k),
                    ) by {
                        assert(t.contains(c));
                    }
                },
                Some(a) => {
                    assert forall|k: int| 0 <= k < 4 implies side_attained(
                        geo,
                        t,
                        seed,
                        k,
                        #[trigger] rect_side(r, k),
                    ) by {
                        if rect_side(r, k) == rect_side(a, k) {
                            assert(side_attained(geo, s, seed, k, rect_side(a, k)));
                            if !(seed is Some && rect_side(seed->0, k) == rect_side(a, k)) {
                                let w = choose|w: Cell|
                                    #[trigger] s.contains(w) && block_rect(geo, w.0 as int, w.1 as int)
                                        is Some && rect_side(
                                        block_rect(geo, w.0 as int, w.1 as int)->0,
                                        k,
                                    ) == rect_side(a, k);
                                assert(t.contains(w));
                            }
                        } else {
                            assert(rect_side(r, k) == rect_side(b, k));
                        }
                    }
                    assert forall|w: Cell|
                        #[trigger] t.contains(w) && block_rect(geo, w.0 as int, w.1 as int) is Some
                            implies rect_within(block_rect(geo, w.0 as int, w.1 as int)->0, r) by {
                        if w != c {
                            assert(s.contains(w));
                        }
                    }
                },
            }
        },
    }
}

/// The bounding rectangle of `b` seeded with that of `a` is the bounding
/// rectangle of both sets together.
pub proof fn lemma_bounds_union(
    geo: Geometry,
    a: Set<Cell>,
    b: Set<Cell>,
    d1: Option<(u32, u32, u32, u32)>,
    d2: Option<(u32, u32, u32, u32)>,
)
    requires
        bounds_blocks(geo, a, None, d1),
        bounds_blocks(geo, b, d1, d2),
    ensures
        bounds_blocks(geo, a.union(b), None, d2),
{
    let u = a.union(b);
    match d2 {
        None => {
            assert forall|c: Cell| #[trigger] u.contains(c) implies block_rect(
                geo,
                c.0 as int,
                c.1 as int,
            ) is None by {
                if a.contains(c) {
                } else {
                    assert(b.contains(c));
                }
            }
        },
        Some(r) => {
            assert forall|c: Cell|
                #[trigger] u.contains(c) && block_rect(geo, c.0 as int, c.1 as int) is Some
                    implies rect_within(block_rect(geo, c.0 as int, c.1 as int)->0, r) by {
                if a.contains(c) {
                    assert(d1 is Some);
                } else {
                    assert(b.contains(c));
                }
            }
            assert forall|k: int| 0 <= k < 4 implies side_attained(
                geo,
                u,
                None,
                k,
                #[trigger] rect_side(r, k),
            ) by {
                assert(side_attained(geo, b, d1, k, rect_side(r, k)));
                if d1 is Some && rect_side(d1->0, k) == rect_side(r, k) {
                    let q = d1->0;
                    assert(side_attained(geo, a, None, k, rect_side(q, k)));
                    let w = choose|w: Cell|
                        #[trigger] a.contains(w) && block_rect(geo, w.0 as int, w.1 as int) is Some
                            && rect_side(block_rect(geo, w.0 as int, w.1 as int)->0, k) == rect_side(
                            q,
                            k,
                        );
                    assert(u.contains(w));
                } else {
                    let w = choose|w: Cell|
                        #[trigger] b.contains(w) && block_rect(geo, w.0 as int, w.1 as int) is Some
                            && rect_side(block_rect(geo, w.0 as int, w.1 as int)->0, k) == rect_side(
                            r,
                            k,
                        );
                    assert(u.contains(w));
                }
            }
        },
    }
}

/// For a non-empty viewport and a positive block size, the
/// clipped block is present exactly when the block overlaps the viewport,
/// and then it is the non-empty overlap.
pub proof fn law_clipped_block_is_overlap(sx: int, sy: int, ps: int, w: int, h: int, x: int, y: int)
    requires
        ps >= 1,
        1 <= w,
        1 <= h,
    ensures
        clipped_block(sx, sy, ps, w, h) is Some <==> (sx < w && 0 < sx + ps && sy < h && 0 < sy + ps),
        clipped_block(sx, sy, ps, w, h) matches Some(r) ==> {
            &&& 0 <= r.0 < r.2 <= w
            &&& 0 <= r.1 < r.3 <= h
            &&& (r.0 <= x < r.2 && r.1 <= y < r.3) <==> (0 <= x < w && 0 <= y < h && sx <= x
                < sx + ps && sy <= y < sy + ps)
        },
{
}

/// The union of two rectangles covers both, whichever comes first.
pub proof fn law_union_covers_both(a: (u32, u32, u32, u32), b: (u32, u32, u32, u32), x: int, y: int)
    ensures
        rect_union(None, b) == b,
        rect_union(Some(a), b) == rect_union(Some(b), a),
        rect_contains(a, x, y) || rect_contains(b, x, y) ==> rect_contains(
            rect_union(Some(a), b),
            x,
            y,
        ),
{
}

/// The camera's cell lands at the viewport's centre, and the next cell
/// over lands one pixel size further.
pub proof fn law_camera_cell_is_centred(geo: Geometry, wx: int, wy: int)
    ensures
        geo.screen_pos(geo.camera_x as int, geo.camera_y as int) == (
            geo.half_w as int,
            geo.half_h as int,
        ),
        geo.screen_pos(wx + 1, wy).0 == geo.screen_pos(wx, wy).0 + geo.ps,
        geo.screen_pos(wx, wy + 1).1 == geo.screen_pos(wx, wy).1 + geo.ps,
{
    assert((wx + 1 - geo.camera_x) * geo.ps == (wx - geo.camera_x) * geo.ps + geo.ps) by (
    nonlinear_arith);
    assert((wy + 1 - geo.camera_y) * geo.ps == (wy - geo.camera_y) * geo.ps + geo.ps) by (
    nonlinear_arith);
}

/// Each zoom level in doubles the pixel size of a cell.
pub proof fn law_pixel_size_doubles(scale: int)
    requires
        scale <= 0,
    ensures
        pixel_size(scale - 1) == 2 * pixel_size(scale),
        pixel_size(scale) >= 1,
{
    vstd::arithmetic::power2::lemma_pow2_unfold((1 - scale) as nat);
    vstd::arithmetic::power2::lemma_pow2_pos((-scale) as nat);
    if scale < 0 {
    } else {
        vstd::arithmetic::power2::lemma2_to64();
    }
}

} // verus!
