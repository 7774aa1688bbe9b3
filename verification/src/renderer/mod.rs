//! The incremental renderer: it remembers which cells it last painted and
//! through which camera, repaints everything only when the camera pans or
//! zooms, and otherwise repaints just the cells that were born or died.

pub mod geometry;
pub mod paint;

pub use geometry::{clamp_rect, pixel_size_for_scale, union_rect, Geometry};

use crate::camera::{Camera, CameraView};
use crate::collections::{set_difference, set_insert, set_members, set_remove, Cell};
use crate::config::{MAX_SCALE, MIN_SCALE};
use crate::raster::{on_screen, opaque, pixel_at, sized};
use crate::renderer::geometry::{
    all_blocks_fit, all_fit, block_fits, block_rect, bounds_blocks, covered, dirty_covers,
    geometry_for, in_block, lemma_block_rect_covers, lemma_block_unique, lemma_bounds_empty,
    lemma_bounds_insert, lemma_bounds_union, lemma_union_covers,
};
use crate::renderer::paint::{
    background_at, block_color, fill_background, lemma_block_edges_on_grid, paint_cells, repaint_block,
    shows_color,
};
use crate::universe::sparse::{are_age_bounds, SparseUniverse};
use crate::universe::Universe;
use rustc_hash::FxHashSet;
use vstd::prelude::*;

verus! {

/// Stateful renderer: remembers what it last painted so it only has to
/// touch pixels that changed. A full repaint only happens when the camera
/// pans or the zoom level changes; a plain tick only touches the cells that
/// were born or died.
pub struct Renderer {
    width: u32,
    height: u32,
    prev_live_cells: FxHashSet<Cell>,
    prev_camera: (i32, i32),
    prev_scale: i32,
    initialized: bool,
    age_bounds: (u32, u32),
}

/// The abstract state of a renderer: the viewport size, the cells it last
/// painted, the camera it painted them through, whether it has painted at
/// all, and the age bounds its colours were computed with.
pub struct RendererView {
    pub width: u32,
    pub height: u32,
    pub prev_live: Set<Cell>,
    pub prev_camera: (i32, i32),
    pub prev_scale: i32,
    pub initialized: bool,
    pub age_bounds: (u32, u32),
}

impl RendererView {
    /// The geometry of the last frame painted.
    pub open spec fn painted_geometry(self) -> Geometry {
        geometry_for(
            CameraView {
                x: self.prev_camera.0 as int,
                y: self.prev_camera.1 as int,
                scale: self.prev_scale as int,
            },
            self.width,
            self.height,
        )
    }

    /// Whether a frame through a camera in state `cam` must be painted from
    /// scratch: nothing painted yet, or the camera panned or zoomed since.
    pub open spec fn needs_full_redraw(self, cam: CameraView) -> bool {
        ||| !self.initialized
        ||| self.prev_camera.0 != cam.x
        ||| self.prev_camera.1 != cam.y
        ||| self.prev_scale != cam.scale
    }

    /// Whether a frame of the live cells `live` through a camera in state
    /// `cam` keeps every screen coordinate it computes within `i32`.
    pub open spec fn fits(self, live: Set<Cell>, cam: CameraView) -> bool {
        let geo = geometry_for(cam, self.width, self.height);
        &&& all_blocks_fit(geo, live)
        &&& !self.needs_full_redraw(cam) ==> all_blocks_fit(geo, self.prev_live)
    }

    /// The cells whose blocks a frame of the live cells `live` paints in
    /// their colours when the camera stays put: every live cell when the
    /// age colours are refreshed, otherwise those born since the last frame.
    pub open spec fn repainted(self, live: Set<Cell>, age_refresh_due: bool) -> Set<Cell> {
        if age_refresh_due {
            live
        } else {
            live.difference(self.prev_live)
        }
    }

    /// Whether `buf` shows the last frame painted: every pixel outside the
    /// blocks of the cells last painted holds the background exactly as a
    /// full redraw paints it, and every pixel inside them is opaque.
    pub open spec fn shows(self, buf: Seq<u8>) -> bool {
        let geo = self.painted_geometry();
        &&& self.initialized
        &&& MIN_SCALE <= self.prev_scale <= MAX_SCALE
        &&& sized(buf, self.width as int, self.height as int)
        &&& forall|x: int, y: int|
            on_screen(self.width as int, self.height as int, x, y) ==> {
                let px = #[trigger] pixel_at(buf, self.width as int, x, y);
                if covered(geo, self.prev_live, x, y) {
                    px.3 == 255
                } else {
                    px == opaque(background_at(geo, x, y))
                }
            }
    }
}

impl View for Renderer {
    type V = RendererView;

    closed spec fn view(&self) -> RendererView {
        RendererView {
            width: self.width,
            height: self.height,
            prev_live: self.prev_live_cells@,
            prev_camera: self.prev_camera,
            prev_scale: self.prev_scale,
            initialized: self.initialized,
            age_bounds: self.age_bounds,
        }
    }
}

impl Renderer {
    /// Fills world cell `(wx, wy)`'s block, clipped to the viewport, with
    /// the opaque colour `color`; returns the clipped rectangle, `None` when
    /// the block is off screen.
    fn paint_live(&self, geo: &Geometry, rgba: &mut Vec<u8>, wx: i32, wy: i32, color: [u8; 3]) -> (r:
        Option<(u32, u32, u32, u32)>)
        requires
            sized(old(rgba)@, geo.width as int, geo.height as int),
            geo.ps >= 1,
            block_fits(*geo, wx as int, wy as int),
        ensures
            final(rgba)@.len() == old(rgba)@.len(),
            r == block_rect(*geo, wx as int, wy as int),
            forall|x: int, y: int|
                on_screen(geo.width as int, geo.height as int, x, y) ==> #[trigger] pixel_at(
                    final(rgba)@,
                    geo.width as int,
                    x,
                    y,
                ) == if in_block(*geo, wx as int, wy as int, x, y) {
                    opaque(color)
                } else {
                    pixel_at(old(rgba)@, geo.width as int, x, y)
                },
    {
        repaint_block(geo, rgba, wx, wy, Some(color))
    }

    /// Paints world cell `(wx, wy)`'s block as background, reconstructing
    /// exactly what a full redraw paints there where no live cell is: grid
    /// colour on the block's first row and column when cells are more than 5
    /// pixels wide, background colour elsewhere. Returns the clipped
    /// rectangle, `None` when the block is off screen.
    fn restore_background(&self, geo: &Geometry, rgba: &mut Vec<u8>, wx: i32, wy: i32) -> (r:
        Option<(u32, u32, u32, u32)>)
        requires
            sized(old(rgba)@, geo.width as int, geo.height as int),
            geo.ps >= 1,
            block_fits(*geo, wx as int, wy as int),
        ensures
            final(rgba)@.len() == old(rgba)@.len(),
            r == block_rect(*geo, wx as int, wy as int),
            forall|x: int, y: int|
                on_screen(geo.width as int, geo.height as int, x, y) ==> #[trigger] pixel_at(
                    final(rgba)@,
                    geo.width as int,
                    x,
                    y,
                ) == if in_block(*geo, wx as int, wy as int, x, y) {
                    opaque(background_at(*geo, x, y))
                } else {
                    pixel_at(old(rgba)@, geo.width as int, x, y)
                },
    {
        let r = repaint_block(geo, rgba, wx, wy, None);
        proof {
            assert forall|x: int, y: int| #[trigger] in_block(*geo, wx as int, wy as int, x, y) implies block_color(
                None,
                geo.ps > 5,
                geo.screen_pos(wx as int, wy as int).0,
                geo.screen_pos(wx as int, wy as int).1,
                x,
                y,
            ) == background_at(*geo, x, y) by {
                lemma_block_edges_on_grid(*geo, wx as int, wy as int, x, y);
            }
        }
        r
    }

        /// Repaints the blocks of `cells` as a full redraw paints the background
        /// there, growing the dirty rectangle `dirty` over every clipped block.
        fn restore_cells(
        &self,
        geo: &Geometry,
        rgba: &mut Vec<u8>,
        cells: &Vec<Cell>,
        dirty: Option<(u32, u32, u32, u32)>,
    ) -> (d: Option<(u32, u32, u32, u32)>)
        requires
            sized(old(rgba)@, geo.width as int, geo.height as int),
            geo.ps >= 1,
            all_blocks_fit(*geo, cells@.to_set()),
        ensures
            final(rgba)@.len() == old(rgba)@.len(),
            forall|x: int, y: int|
                on_screen(geo.width as int, geo.height as int, x, y) ==> #[trigger] pixel_at(
                    final(rgba)@,
                    geo.width as int,
                    x,
                    y,
                ) == if covered(*geo, cells@.to_set(), x, y) {
                    opaque(background_at(*geo, x, y))
                } else {
                    pixel_at(old(rgba)@, geo.width as int, x, y)
                },
            forall|x: int, y: int|
                on_screen(geo.width as int, geo.height as int, x, y) && (dirty_covers(dirty, x, y)
                    || covered(*geo, cells@.to_set(), x, y)) ==> #[trigger] dirty_covers(d, x, y),
            bounds_blocks(*geo, cells@.to_set(), dirty, d),
    {
        let ghost old_buf = rgba@;
        let mut acc = dirty;
        let mut i: usize = 0;
        proof {
            assert(cells@.subrange(0, 0).to_set() =~= Set::<Cell>::empty());
            lemma_bounds_empty(*geo, dirty);
        }
        while i < cells.len()
            invariant
                i <= cells@.len(),
                sized(rgba@, geo.width as int, geo.height as int),
                rgba@.len() == old_buf.len(),
                geo.ps >= 1,
                all_blocks_fit(*geo, cells@.to_set()),
                forall|x: int, y: int|
                    on_screen(geo.width as int, geo.height as int, x, y) ==> #[trigger] pixel_at(
                        rgba@,
                        geo.width as int,
                        x,
                        y,
                    ) == if covered(*geo, cells@.subrange(0, i as int).to_set(), x, y) {
                        opaque(background_at(*geo, x, y))
                    } else {
                        pixel_at(old_buf, geo.width as int, x, y)
                    },
                forall|x: int, y: int|
                    on_screen(geo.width as int, geo.height as int, x, y) && (dirty_covers(dirty, x, y)
                        || covered(*geo, cells@.subrange(0, i as int).to_set(), x, y))
                        ==> #[trigger] dirty_covers(acc, x, y),
                bounds_blocks(*geo, cells@.subrange(0, i as int).to_set(), dirty, acc),
            decreases cells.len() - i,
        {
            let (wx, wy) = cells[i];
            proof {
                assert(cells@.to_set().contains(cells@[i as int]));
            }
            let r = self.restore_background(geo, rgba, wx, wy);
            let ghost acc_before = acc;
            if let Some(rect) = r {
                acc = Some(union_rect(acc, rect));
            }
            proof {
                let prev_set = cells@.subrange(0, i as int).to_set();
                let next_set = cells@.subrange(0, i + 1).to_set();
                assert(cells@.subrange(0, i + 1) =~= cells@.subrange(0, i as int).push((wx, wy)));
                cells@.subrange(0, i as int).lemma_push_to_set_commute((wx, wy));
                assert(next_set =~= prev_set.insert((wx, wy)));
                lemma_bounds_insert(*geo, prev_set, (wx, wy), dirty, acc_before);
                assert forall|x: int, y: int|
                    on_screen(geo.width as int, geo.height as int, x, y) implies covered(
                    *geo,
                    next_set,
                    x,
                    y,
                ) == (covered(*geo, prev_set, x, y) || in_block(*geo, wx as int, wy as int, x, y)) by {
                    if covered(*geo, next_set, x, y) {
                        let c = choose|c: Cell|
                            next_set.contains(c) && #[trigger] in_block(
                                *geo,
                                c.0 as int,
                                c.1 as int,
                                x,
                                y,
                            );
                        if c != (wx, wy) {
                            assert(prev_set.contains(c));
                        }
                    }
                    if in_block(*geo, wx as int, wy as int, x, y) {
                        assert(next_set.contains((wx, wy)));
                    }
                }
                assert forall|x: int, y: int|
                    on_screen(geo.width as int, geo.height as int, x, y) implies #[trigger] pixel_at(
                    rgba@,
                    geo.width as int,
                    x,
                    y,
                ) == if covered(*geo, next_set, x, y) {
                    opaque(background_at(*geo, x, y))
                } else {
                    pixel_at(old_buf, geo.width as int, x, y)
                } by {
                }
                assert forall|x: int, y: int|
                    on_screen(geo.width as int, geo.height as int, x, y) && (dirty_covers(dirty, x, y)
                        || covered(*geo, next_set, x, y)) implies #[trigger] dirty_covers(acc, x, y) by {
                    if in_block(*geo, wx as int, wy as int, x, y) {
                        lemma_block_rect_covers(*geo, wx as int, wy as int, x, y);
                    }
                    if r is Some {
                        lemma_union_covers(acc_before, r->0, x, y);
                    }
                }
            }
            i += 1;
        }
        proof {
            assert(cells@.subrange(0, cells@.len() as int) =~= cells@);
        }
        acc
    }

    /// Paints the whole frame: the background and grid of `fill_background`,
    /// then every live cell's block in the colour `color_of` gives for its
    /// age within `bounds`.
    fn full_redraw<F: Fn(u32, (u32, u32)) -> [u8; 3]>(
        &self,
        geo: &Geometry,
        universe: &SparseUniverse,
        bounds: (u32, u32),
        rgba: &mut Vec<u8>,
        color_of: &F,
    )
        requires
            sized(old(rgba)@, geo.width as int, geo.height as int),
            1 <= geo.ps <= 256,
            geo.half_w >= 0,
            geo.half_h >= 0,
            universe.wf(),
            all_blocks_fit(*geo, universe@.live()),
            forall|age: u32, b: (u32, u32)| color_of.requires((age, b)),
        ensures
            final(rgba)@.len() == old(rgba)@.len(),
            forall|x: int, y: int|
                on_screen(geo.width as int, geo.height as int, x, y) && !covered(
                    *geo,
                    universe@.live(),
                    x,
                    y,
                ) ==> #[trigger] pixel_at(final(rgba)@, geo.width as int, x, y) == opaque(
                    background_at(*geo, x, y),
                ),
            forall|x: int, y: int, c: Cell|
                on_screen(geo.width as int, geo.height as int, x, y) && universe@.live().contains(c)
                    && #[trigger] in_block(*geo, c.0 as int, c.1 as int, x, y) ==> shows_color(
                    *color_of,
                    universe@.age_of(c),
                    bounds,
                    #[trigger] pixel_at(final(rgba)@, geo.width as int, x, y),
                ),
    {
        fill_background(geo, rgba);
        let cells = set_members(universe.live_cells());
        let ghost live = universe@.live();
        let mut i: usize = 0;
        while i < cells.len()
            invariant
                i <= cells@.len(),
                cells@.to_set() == live,
                live == universe@.live(),
                sized(rgba@, geo.width as int, geo.height as int),
                rgba@.len() == old(rgba)@.len(),
                1 <= geo.ps <= 256,
                all_blocks_fit(*geo, live),
                forall|age: u32, b: (u32, u32)| color_of.requires((age, b)),
                forall|x: int, y: int|
                    on_screen(geo.width as int, geo.height as int, x, y) && (forall|j: int|
                        0 <= j < i ==> !#[trigger] in_block(
                            *geo,
                            cells@[j].0 as int,
                            cells@[j].1 as int,
                            x,
                            y,
                        )) ==> #[trigger] pixel_at(rgba@, geo.width as int, x, y) == opaque(
                        background_at(*geo, x, y),
                    ),
                forall|x: int, y: int, j: int|
                    on_screen(geo.width as int, geo.height as int, x, y) && 0 <= j < i
                        && #[trigger] in_block(*geo, cells@[j].0 as int, cells@[j].1 as int, x, y)
                        ==> shows_color(
                        *color_of,
                        universe@.age_of(cells@[j]),
                        bounds,
                        #[trigger] pixel_at(rgba@, geo.width as int, x, y),
                    ),
            decreases cells.len() - i,
        {
            let (wx, wy) = cells[i];
            proof {
                assert(live.contains(cells@[i as int]));
            }
            let age = universe.age_of(&(wx, wy));
            let color = color_of(age, bounds);
            let ghost before = rgba@;
            self.paint_live(geo, rgba, wx, wy, color);
            proof {
                assert forall|x: int, y: int, j: int|
                    on_screen(geo.width as int, geo.height as int, x, y) && 0 <= j < i + 1
                        && #[trigger] in_block(*geo, cells@[j].0 as int, cells@[j].1 as int, x, y)
                        implies shows_color(
                        *color_of,
                        universe@.age_of(cells@[j]),
                        bounds,
                        #[trigger] pixel_at(rgba@, geo.width as int, x, y),
                    ) by {
                    if in_block(*geo, wx as int, wy as int, x, y) {
                        lemma_block_unique(*geo, cells@[j], (wx, wy), x, y);
                        assert(call_ensures(*color_of, (age, bounds), color));
                    }
                }
            }
            i += 1;
        }
        proof {
            assert forall|x: int, y: int|
                on_screen(geo.width as int, geo.height as int, x, y) && !covered(
                    *geo,
                    live,
                    x,
                    y,
                ) implies #[trigger] pixel_at(rgba@, geo.width as int, x, y) == opaque(
                background_at(*geo, x, y),
            ) by {
                assert forall|j: int| 0 <= j < i implies !#[trigger] in_block(
                    *geo,
                    cells@[j].0 as int,
                    cells@[j].1 as int,
                    x,
                    y,
                ) by {
                    assert(live.contains(cells@[j]));
                }
            }
            assert forall|x: int, y: int, c: Cell|
                on_screen(geo.width as int, geo.height as int, x, y) && live.contains(c)
                    && #[trigger] in_block(*geo, c.0 as int, c.1 as int, x, y) implies shows_color(
                *color_of,
                universe@.age_of(c),
                bounds,
                #[trigger] pixel_at(rgba@, geo.width as int, x, y),
            ) by {
                assert(cells@.to_set().contains(c));
                let j = choose|j: int| 0 <= j < cells@.len() && cells@[j] == c;
                assert(in_block(*geo, cells@[j].0 as int, cells@[j].1 as int, x, y));
            }
        }
    }

    /// A renderer for a `width` x `height` viewport that has painted
    /// nothing yet.
    pub fn new(width: u32, height: u32) -> (r: Renderer)
        ensures
            r@.width == width,
            r@.height == height,
            r@.prev_live == Set::<Cell>::empty(),
            r@.prev_camera == (0i32, 0i32),
            r@.prev_scale == 0,
            !r@.initialized,
            r@.age_bounds == (0u32, 0u32),
    {
        Renderer {
            width,
            height,
            prev_live_cells: FxHashSet::default(),
            prev_camera: (0, 0),
            prev_scale: 0,
            initialized: false,
            age_bounds: (0, 0),
        }
    }

    /// Whether the next frame through `camera` is painted from scratch.
    pub fn needs_full_redraw(&self, camera: &Camera) -> (b: bool)
        ensures
            b == self@.needs_full_redraw(camera@),
    {
        !self.initialized || camera.x() != self.prev_camera.0 || camera.y() != self.prev_camera.1
            || camera.scale() != self.prev_scale
    }

    /// Whether `render` may paint `universe` through `camera`: every block
    /// it computes has screen coordinates that fit `i32`.
    pub fn can_render(&self, universe: &SparseUniverse, camera: &Camera) -> (b: bool)
        requires
            universe.wf(),
        ensures
            b == self@.fits(universe@.live(), camera@),
    {
        let geo = Geometry::new(camera, self.width, self.height);
        if !all_fit(&geo, universe.live_cells()) {
            return false;
        }
        if self.needs_full_redraw(camera) {
            return true;
        }
        all_fit(&geo, &self.prev_live_cells)
    }

    /// Paints the current frame into `rgba`, which holds the last frame
    /// painted. When the camera panned or zoomed (or nothing was painted
    /// yet), repaints everything with freshly computed age bounds and
    /// reports a full repaint. Otherwise repaints only the blocks of cells
    /// that died (as background) and of cells that were born, or, when
    /// `age_refresh_due`, of every live cell with freshly computed age
    /// bounds, and reports the rectangle covering every pixel it changed.
    /// Colours come from `color_of`, given a cell's age and the age bounds.
    pub fn render<F: Fn(u32, (u32, u32)) -> [u8; 3]>(
        &mut self,
        universe: &SparseUniverse,
        camera: &Camera,
        rgba: &mut Vec<u8>,
        age_refresh_due: bool,
        color_of: &F,
    ) -> (damage: (bool, Option<(u32, u32, u32, u32)>))
        requires
            universe.wf(),
            sized(old(rgba)@, old(self)@.width as int, old(self)@.height as int),
            old(self)@.fits(universe@.live(), camera@),
            forall|age: u32, b: (u32, u32)| color_of.requires((age, b)),
        ensures
            damage.0 == old(self)@.needs_full_redraw(camera@),
            final(self)@.width == old(self)@.width,
            final(self)@.height == old(self)@.height,
            final(self)@.prev_live == universe@.live(),
            final(self)@.prev_camera.0 == camera@.x,
            final(self)@.prev_camera.1 == camera@.y,
            final(self)@.prev_scale == camera@.scale,
            final(self)@.initialized,
            damage.0 || age_refresh_due ==> are_age_bounds(universe@.ages, final(self)@.age_bounds),
            !(damage.0 || age_refresh_due) ==> final(self)@.age_bounds == old(self)@.age_bounds,
            final(rgba)@.len() == old(rgba)@.len(),
            damage.0 || old(self)@.shows(old(rgba)@) ==> final(self)@.shows(final(rgba)@),
            damage.0 ==> damage.1 is None,
            damage.0 ==> forall|x: int, y: int|
                on_screen(old(self)@.width as int, old(self)@.height as int, x, y) && !covered(
                    geometry_for(camera@, old(self)@.width, old(self)@.height),
                    universe@.live(),
                    x,
                    y,
                ) ==> #[trigger] pixel_at(final(rgba)@, old(self)@.width as int, x, y) == opaque(
                    background_at(geometry_for(camera@, old(self)@.width, old(self)@.height), x, y),
                ),
            !damage.0 ==> forall|x: int, y: int|
                on_screen(old(self)@.width as int, old(self)@.height as int, x, y) ==> {
                    let geo = geometry_for(camera@, old(self)@.width, old(self)@.height);
                    let died = old(self)@.prev_live.difference(universe@.live());
                    let repainted = if age_refresh_due {
                        universe@.live()
                    } else {
                        universe@.live().difference(old(self)@.prev_live)
                    };
                    let px = #[trigger] pixel_at(final(rgba)@, old(self)@.width as int, x, y);
                    &&& covered(geo, died, x, y) ==> px == opaque(background_at(geo, x, y))
                    &&& !covered(geo, died, x, y) && !covered(geo, repainted, x, y) ==> px
                        == pixel_at(old(rgba)@, old(self)@.width as int, x, y)
                },
            !damage.0 ==> bounds_blocks(
                geometry_for(camera@, old(self)@.width, old(self)@.height),
                old(self)@.prev_live.difference(universe@.live()).union(
                    old(self)@.repainted(universe@.live(), age_refresh_due),
                ),
                None,
                damage.1,
            ),
            !damage.0 ==> forall|x: int, y: int|
                on_screen(old(self)@.width as int, old(self)@.height as int, x, y) && #[trigger] pixel_at(
                    final(rgba)@,
                    old(self)@.width as int,
                    x,
                    y,
                ) != pixel_at(old(rgba)@, old(self)@.width as int, x, y) ==> dirty_covers(
                    damage.1,
                    x,
                    y,
                ),
            forall|x: int, y: int, c: Cell|
                on_screen(old(self)@.width as int, old(self)@.height as int, x, y)
                    && universe@.live().contains(c) && #[trigger] in_block(
                    geometry_for(camera@, old(self)@.width, old(self)@.height),
                    c.0 as int,
                    c.1 as int,
                    x,
                    y,
                ) && (damage.0 || age_refresh_due || !old(self)@.prev_live.contains(c))
                    ==> shows_color(
                    *color_of,
                    universe@.age_of(c),
                    final(self)@.age_bounds,
                    #[trigger] pixel_at(final(rgba)@, old(self)@.width as int, x, y),
                ),
    {
        let geo = Geometry::new(camera, self.width, self.height);
        let camera_or_zoom_changed = !self.initialized || geo.camera_x != self.prev_camera.0
            || geo.camera_y != self.prev_camera.1 || camera.scale() != self.prev_scale;
        let ghost live = universe@.live();
        let ghost old_view = self@;
        let ghost old_buf = rgba@;
        if camera_or_zoom_changed {
            self.age_bounds = universe.age_bounds();
            self.full_redraw(&geo, universe, self.age_bounds, rgba, color_of);
            let ghost bounds_now = self.age_bounds;
            self.prev_live_cells.clear();
            let current = set_members(universe.live_cells());
            let mut i: usize = 0;
            while i < current.len()
                invariant
                    i <= current@.len(),
                    current@.to_set() == live,
                    self.prev_live_cells@ == current@.subrange(0, i as int).to_set(),
                    self.width == old_view.width,
                    self.height == old_view.height,
                    self.age_bounds == bounds_now,
                decreases current.len() - i,
            {
                set_insert(&mut self.prev_live_cells, current[i]);
                proof {
                    assert(current@.subrange(0, i + 1) =~= current@.subrange(0, i as int).push(
                        current@[i as int],
                    ));
                    current@.subrange(0, i as int).lemma_push_to_set_commute(current@[i as int]);
                }
                i += 1;
            }
            proof {
                assert(current@.subrange(0, current@.len() as int) =~= current@);
            }
            self.prev_camera = (geo.camera_x, geo.camera_y);
            self.prev_scale = camera.scale();
            self.initialized = true;
            proof {
                let v = self@;
                assert(v.painted_geometry() == geo);
                assert forall|x: int, y: int|
                    on_screen(v.width as int, v.height as int, x, y) && covered(
                        geo,
                        v.prev_live,
                        x,
                        y,
                    ) implies (#[trigger] pixel_at(rgba@, v.width as int, x, y)).3 == 255 by {
                    let c = choose|c: Cell|
                        v.prev_live.contains(c) && #[trigger] in_block(
                            geo,
                            c.0 as int,
                            c.1 as int,
                            x,
                            y,
                        );
                    assert(shows_color(
                        *color_of,
                        universe@.age_of(c),
                        self.age_bounds,
                        pixel_at(rgba@, geo.width as int, x, y),
                    ));
                }
            }
            return (true, None);
        }
        if age_refresh_due {
            self.age_bounds = universe.age_bounds();
        }
        let ghost bounds_now = self.age_bounds;
        let current = universe.live_cells();
        let to_paint: Vec<Cell> = if age_refresh_due {
            set_members(current)
        } else {
            set_difference(current, &self.prev_live_cells)
        };
        let died: Vec<Cell> = set_difference(&self.prev_live_cells, current);
        let ghost prev = old_view.prev_live;
        let ghost tset = to_paint@.to_set();
        let ghost dset = died@.to_set();
        proof {
            assert(old_view.painted_geometry() == geo);
            assert(tset.subset_of(live));
            assert(live.difference(prev).subset_of(tset));
        }
        if died.len() == 0 && to_paint.len() == 0 {
            proof {
                assert(dset =~= Set::<Cell>::empty());
                assert(tset =~= Set::<Cell>::empty());
                assert(prev =~= live) by {
                    assert forall|c: Cell| prev.contains(c) implies live.contains(c) by {
                        if !live.contains(c) {
                            assert(dset.contains(c));
                        }
                    }
                    assert forall|c: Cell| live.contains(c) implies prev.contains(c) by {
                        if !prev.contains(c) {
                            assert(tset.contains(c));
                        }
                    }
                }
            }
            proof {
                assert(prev.difference(live).union(old_view.repainted(live, age_refresh_due))
                    =~= Set::<Cell>::empty()) by {
                    assert(dset =~= prev.difference(live));
                }
                lemma_bounds_empty(geo, None);
            }
            return (false, None);
        }
        let ghost buf0 = rgba@;
        let dirty = self.restore_cells(&geo, rgba, &died, None);
        let ghost buf1 = rgba@;
        let ghost d1 = dirty;
        let dirty = paint_cells(&geo, rgba, &to_paint, universe, self.age_bounds, color_of, dirty);
        proof {
            lemma_bounds_union(geo, dset, tset, d1, dirty);
            assert(dset == prev.difference(live));
            assert(tset =~= old_view.repainted(live, age_refresh_due));
        }
        let mut i: usize = 0;
        while i < died.len()
            invariant
                i <= died@.len(),
                self.prev_live_cells@ == prev.difference(died@.subrange(0, i as int).to_set()),
                self.width == old_view.width,
                self.height == old_view.height,
                self.prev_camera == old_view.prev_camera,
                self.prev_scale == old_view.prev_scale,
                self.initialized == old_view.initialized,
                self.age_bounds == bounds_now,
            decreases died.len() - i,
        {
            set_remove(&mut self.prev_live_cells, &died[i]);
            proof {
                assert(died@.subrange(0, i + 1) =~= died@.subrange(0, i as int).push(died@[i as int]));
                died@.subrange(0, i as int).lemma_push_to_set_commute(died@[i as int]);
                assert(self.prev_live_cells@ =~= prev.difference(
                    died@.subrange(0, i + 1).to_set(),
                ));
            }
            i += 1;
        }
        proof {
            assert(died@.subrange(0, died@.len() as int) =~= died@);
        }
        let ghost kept = self.prev_live_cells@;
        let mut i: usize = 0;
        while i < to_paint.len()
            invariant
                i <= to_paint@.len(),
                self.prev_live_cells@ == kept.union(to_paint@.subrange(0, i as int).to_set()),
                self.width == old_view.width,
                self.height == old_view.height,
                self.prev_camera == old_view.prev_camera,
                self.prev_scale == old_view.prev_scale,
                self.initialized == old_view.initialized,
                self.age_bounds == bounds_now,
            decreases to_paint.len() - i,
        {
            set_insert(&mut self.prev_live_cells, to_paint[i]);
            proof {
                assert(to_paint@.subrange(0, i + 1) =~= to_paint@.subrange(0, i as int).push(
                    to_paint@[i as int],
                ));
                to_paint@.subrange(0, i as int).lemma_push_to_set_commute(to_paint@[i as int]);
                assert(self.prev_live_cells@ =~= kept.union(
                    to_paint@.subrange(0, i + 1).to_set(),
                ));
            }
            i += 1;
        }
        proof {
            assert(to_paint@.subrange(0, to_paint@.len() as int) =~= to_paint@);
            assert(self.prev_live_cells@ =~= live);
            let v = self@;
            assert(v.painted_geometry() == geo);
            if old_view.shows(old_buf) {
                assert forall|x: int, y: int|
                    on_screen(v.width as int, v.height as int, x, y) implies {
                    let px = #[trigger] pixel_at(rgba@, v.width as int, x, y);
                    if covered(geo, live, x, y) {
                        px.3 == 255
                    } else {
                        px == opaque(background_at(geo, x, y))
                    }
                } by {
                    if covered(geo, live, x, y) {
                        let c = choose|c: Cell|
                            live.contains(c) && #[trigger] in_block(
                                geo,
                                c.0 as int,
                                c.1 as int,
                                x,
                                y,
                            );
                        if !tset.contains(c) {
                            assert(prev.contains(c));
                            assert(covered(geo, prev, x, y));
                            if covered(geo, dset, x, y) {
                                let d = choose|d: Cell|
                                    dset.contains(d) && #[trigger] in_block(
                                        geo,
                                        d.0 as int,
                                        d.1 as int,
                                        x,
                                        y,
                                    );
                                lemma_block_unique(geo, c, d, x, y);
                            }
                            if covered(geo, tset, x, y) {
                                let t = choose|t: Cell|
                                    tset.contains(t) && #[trigger] in_block(
                                        geo,
                                        t.0 as int,
                                        t.1 as int,
                                        x,
                                        y,
                                    );
                                lemma_block_unique(geo, c, t, x, y);
                            }
                        }
                    } else {
                        if covered(geo, tset, x, y) {
                            let t = choose|t: Cell|
                                tset.contains(t) && #[trigger] in_block(
                                    geo,
                                    t.0 as int,
                                    t.1 as int,
                                    x,
                                    y,
                                );
                            assert(live.contains(t));
                        }
                        if !covered(geo, dset, x, y) && covered(geo, prev, x, y) {
                            let p = choose|p: Cell|
                                prev.contains(p) && #[trigger] in_block(
                                    geo,
                                    p.0 as int,
                                    p.1 as int,
                                    x,
                                    y,
                                );
                            if live.contains(p) {
                            } else {
                                assert(dset.contains(p));
                            }
                        }
                    }
                }
            }
            assert forall|x: int, y: int|
                on_screen(old_view.width as int, old_view.height as int, x, y) && #[trigger] pixel_at(
                    rgba@,
                    old_view.width as int,
                    x,
                    y,
                ) != pixel_at(old_buf, old_view.width as int, x, y) implies dirty_covers(
                dirty,
                x,
                y,
            ) by {
                if !covered(geo, tset, x, y) {
                    assert(pixel_at(rgba@, geo.width as int, x, y) == pixel_at(
                        buf1,
                        geo.width as int,
                        x,
                        y,
                    ));
                }
            }
            assert forall|x: int, y: int|
                on_screen(old_view.width as int, old_view.height as int, x, y) implies {
                let px = #[trigger] pixel_at(rgba@, old_view.width as int, x, y);
                &&& covered(geo, dset, x, y) ==> px == opaque(background_at(geo, x, y))
                &&& !covered(geo, dset, x, y) && !covered(geo, tset, x, y) ==> px == pixel_at(
                    old_buf,
                    old_view.width as int,
                    x,
                    y,
                )
            } by {
                if covered(geo, dset, x, y) && covered(geo, tset, x, y) {
                    let d = choose|d: Cell|
                        dset.contains(d) && #[trigger] in_block(geo, d.0 as int, d.1 as int, x, y);
                    let t = choose|t: Cell|
                        tset.contains(t) && #[trigger] in_block(geo, t.0 as int, t.1 as int, x, y);
                    lemma_block_unique(geo, d, t, x, y);
                }
            }
            assert forall|x: int, y: int, c: Cell|
                on_screen(old_view.width as int, old_view.height as int, x, y) && live.contains(c)
                    && #[trigger] in_block(geo, c.0 as int, c.1 as int, x, y) && (age_refresh_due
                    || !prev.contains(c)) implies shows_color(
                *color_of,
                universe@.age_of(c),
                self.age_bounds,
                #[trigger] pixel_at(rgba@, old_view.width as int, x, y),
            ) by {
                assert(tset.contains(c));
            }
        }
        (false, dirty)
    }
}

/// Where a cell's age falls between the youngest and oldest recorded ages,
/// as a fraction `numerator / denominator` in `[0, 1]`: 0 when the bounds
/// have no spread, otherwise the age's distance above the youngest (0 below
/// it) over the spread, capped at 1.
pub fn age_fraction(age: u32, bounds: (u32, u32)) -> (f: (u32, u32))
    ensures
        f.1 > 0,
        f.0 <= f.1,
        bounds.1 <= bounds.0 ==> f == (0u32, 1u32),
        bounds.1 > bounds.0 ==> f.1 == bounds.1 - bounds.0 && f.0 == (if age <= bounds.0 {
            0
        } else if age - bounds.0 >= bounds.1 - bounds.0 {
            bounds.1 - bounds.0
        } else {
            age - bounds.0
        }),
{
    let (min_age, max_age) = bounds;
    if max_age <= min_age {
        (0, 1)
    } else {
        let spread = max_age - min_age;
        let above = if age > min_age { age - min_age } else { 0 };
        if above >= spread {
            (spread, spread)
        } else {
            (above, spread)
        }
    }
}

/// A buffer that shows the last frame holds, outside the blocks of live
/// cells, exactly what a full redraw would paint there, at every zoom
/// level: incremental repaints never drift from it.
pub proof fn law_incremental_matches_full_redraw(v: RendererView, buf: Seq<u8>, x: int, y: int)
    requires
        v.shows(buf),
        on_screen(v.width as int, v.height as int, x, y),
        !covered(v.painted_geometry(), v.prev_live, x, y),
    ensures
        pixel_at(buf, v.width as int, x, y) == opaque(background_at(v.painted_geometry(), x, y)),
{
}

} // verus!
