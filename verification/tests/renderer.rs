use lifewall::camera::Camera;
use lifewall::collections::Cell;
use lifewall::config::{BG_COLOR, GRID_COLOR};
use lifewall::renderer::{age_fraction, clamp_rect, pixel_size_for_scale, union_rect, Geometry, Renderer};
use lifewall::universe::sparse::SparseUniverse;
use lifewall::universe::Universe;
use rustc_hash::FxHashSet;

fn camera_at(x: i32, y: i32, scale: i32) -> Camera {
    let mut camera = Camera::new();
    camera.pan(x, y);
    while camera.scale() > scale {
        camera.zoom_in();
    }
    while camera.scale() < scale {
        camera.zoom_out();
    }
    camera
}

#[test]
fn clamp_rect_fully_on_screen() {
    assert_eq!(clamp_rect(10, 10, 8, 100, 100), Some((10, 10, 18, 18)));
}

#[test]
fn clamp_rect_clips_to_viewport_edges() {
    assert_eq!(clamp_rect(95, 95, 8, 100, 100), Some((95, 95, 100, 100)));
    assert_eq!(clamp_rect(-3, -3, 8, 100, 100), Some((0, 0, 5, 5)));
}

#[test]
fn clamp_rect_entirely_off_screen_returns_none() {
    assert_eq!(clamp_rect(200, 10, 8, 100, 100), None);
    assert_eq!(clamp_rect(10, 200, 8, 100, 100), None);
    assert_eq!(clamp_rect(-20, 10, 8, 100, 100), None);
    assert_eq!(clamp_rect(10, -20, 8, 100, 100), None);
}

#[test]
fn clamp_rect_touching_far_edge_exactly_is_off_screen() {
    assert_eq!(clamp_rect(100, 10, 8, 100, 100), None);
}

#[test]
fn union_rect_seeds_from_none() {
    assert_eq!(union_rect(None, (5, 5, 10, 10)), (5, 5, 10, 10));
}

#[test]
fn union_rect_grows_to_cover_disjoint_rects() {
    let acc = Some((5, 5, 10, 10));
    assert_eq!(union_rect(acc, (20, 2, 25, 8)), (5, 2, 25, 10));
}

#[test]
fn union_rect_handles_overlapping_rects() {
    let acc = Some((0, 0, 10, 10));
    assert_eq!(union_rect(acc, (5, 5, 15, 15)), (0, 0, 15, 15));
}

#[test]
fn pixel_size_doubles_per_zoom_level() {
    assert_eq!(pixel_size_for_scale(0), 1);
    assert_eq!(pixel_size_for_scale(-1), 2);
    assert_eq!(pixel_size_for_scale(-4), 16);
    assert_eq!(pixel_size_for_scale(-8), 256);
}

#[test]
fn cell_screen_pos_camera_cell_is_screen_centered() {
    let camera = camera_at(5, 5, -2);
    let geo = Geometry::new(&camera, 200, 100);
    assert_eq!(geo.cell_screen_pos(5, 5), (100, 50));
}

#[test]
fn cell_screen_pos_scales_with_zoom() {
    let camera = camera_at(0, 0, -3);
    let geo = Geometry::new(&camera, 200, 100);
    assert_eq!(geo.cell_screen_pos(1, 0), (108, 50));
    assert_eq!(geo.cell_screen_pos(0, 1), (100, 58));
}

#[test]
fn dirty_rect_covers_all_changed_cells() {
    let camera = camera_at(0, 0, -3);
    let geo = Geometry::new(&camera, 200, 100);
    let changed = [(0, 0), (2, 0)];

    let mut dirty: Option<(u32, u32, u32, u32)> = None;
    for &(wx, wy) in &changed {
        let (sx, sy) = geo.cell_screen_pos(wx, wy);
        if let Some(r) = clamp_rect(sx, sy, geo.ps, geo.width, geo.height) {
            dirty = Some(union_rect(dirty, r));
        }
    }

    assert_eq!(dirty, Some((100, 50, 124, 58)));
}

#[test]
fn color_for_age_no_spread_is_youngest_color() {
    assert_eq!(age_fraction(50, (0, 0)), (0, 1));
    assert_eq!(age_fraction(7, (7, 7)), (0, 1));
}

#[test]
fn color_for_age_endpoints_match_palette() {
    assert_eq!(age_fraction(0, (0, 100)), (0, 100));
    assert_eq!(age_fraction(100, (0, 100)), (100, 100));
}

// The colour ramp itself is floating point and lives in the app; a cell's
// place on it is the age fraction, so this checks that the same age lands
// at different places in populations with different age bounds.
#[test]
fn color_for_age_is_relative_not_absolute() {
    let in_young_population = age_fraction(50, (0, 100));
    let in_old_population = age_fraction(50, (40, 90));
    assert_ne!(
        in_young_population.0 as u64 * in_old_population.1 as u64,
        in_old_population.0 as u64 * in_young_population.1 as u64
    );
}

#[test]
fn age_fraction_clamps_outside_bounds() {
    assert_eq!(age_fraction(3, (10, 20)), (0, 10));
    assert_eq!(age_fraction(35, (10, 20)), (10, 10));
    assert_eq!(age_fraction(15, (10, 20)), (5, 10));
}

fn pixel(buf: &[u8], width: u32, x: u32, y: u32) -> [u8; 4] {
    let i = ((y * width + x) * 4) as usize;
    [buf[i], buf[i + 1], buf[i + 2], buf[i + 3]]
}

fn set(cells: &[(i32, i32)]) -> FxHashSet<Cell> {
    cells.iter().copied().collect()
}

const LIVE: [u8; 3] = [200, 100, 50];

fn live_color(_age: u32, _bounds: (u32, u32)) -> [u8; 3] {
    LIVE
}

#[test]
fn first_frame_is_a_full_redraw_with_grid_and_cells() {
    let width = 32;
    let height = 32;
    let mut buf = vec![0u8; (width * height * 4) as usize];
    let mut renderer = Renderer::new(width, height);
    let camera = camera_at(0, 0, -3);
    let universe = SparseUniverse::new(set(&[(0, 0)]));
    let damage = renderer.render(&universe, &camera, &mut buf, false, &live_color);
    assert_eq!(damage, (true, None));
    // The live cell's block starts at the centre.
    assert_eq!(pixel(&buf, width, 16, 16), [200, 100, 50, 255]);
    assert_eq!(pixel(&buf, width, 23, 23), [200, 100, 50, 255]);
    // Grid lines every 8 pixels through the centre.
    assert_eq!(pixel(&buf, width, 8, 3), [GRID_COLOR[0], GRID_COLOR[1], GRID_COLOR[2], 255]);
    assert_eq!(pixel(&buf, width, 3, 24), [GRID_COLOR[0], GRID_COLOR[1], GRID_COLOR[2], 255]);
    assert_eq!(pixel(&buf, width, 3, 3), [BG_COLOR[0], BG_COLOR[1], BG_COLOR[2], 255]);
}

#[test]
fn incremental_frame_repaints_only_changed_cells() {
    let width = 32;
    let height = 32;
    let mut buf = vec![0u8; (width * height * 4) as usize];
    let mut renderer = Renderer::new(width, height);
    let camera = camera_at(0, 0, -3);
    // A blinker: the next generation swaps a row for a column.
    let mut universe = SparseUniverse::new(set(&[(-1, 0), (0, 0), (1, 0)]));
    renderer.render(&universe, &camera, &mut buf, false, &live_color);
    let full = buf.clone();
    universe.tick();
    let damage = renderer.render(&universe, &camera, &mut buf, false, &live_color);
    assert!(!damage.0);
    let (x0, y0, x1, y1) = damage.1.unwrap();
    // Every changed pixel lies inside the dirty rectangle.
    for y in 0..height {
        for x in 0..width {
            if pixel(&buf, width, x, y) != pixel(&full, width, x, y) {
                assert!(x0 <= x && x < x1 && y0 <= y && y < y1);
            }
        }
    }
    // Exactly the blocks of the two cells that died and the two born.
    assert_eq!(damage.1, Some((8, 8, 32, 32)));
    // The cell below the centre is now live, the one to the left restored.
    assert_eq!(pixel(&buf, width, 16, 25), [200, 100, 50, 255]);
    assert_eq!(pixel(&buf, width, 8, 16), [GRID_COLOR[0], GRID_COLOR[1], GRID_COLOR[2], 255]);
    assert_eq!(pixel(&buf, width, 10, 18), [BG_COLOR[0], BG_COLOR[1], BG_COLOR[2], 255]);
    // Repainting from scratch gives the same picture.
    let mut fresh = vec![0u8; (width * height * 4) as usize];
    let mut other = Renderer::new(width, height);
    other.render(&universe, &camera, &mut fresh, false, &live_color);
    assert_eq!(fresh, buf);
}

#[test]
fn nothing_changed_means_no_damage() {
    let width = 16;
    let height = 16;
    let mut buf = vec![0u8; (width * height * 4) as usize];
    let mut renderer = Renderer::new(width, height);
    let camera = Camera::new();
    let universe = SparseUniverse::new(set(&[(0, 0), (1, 0), (0, 1), (1, 1)]));
    renderer.render(&universe, &camera, &mut buf, false, &live_color);
    assert_eq!(renderer.render(&universe, &camera, &mut buf, false, &live_color), (false, None));
    assert!(!renderer.needs_full_redraw(&camera));
    let mut moved = Camera::new();
    moved.pan(1, 0);
    assert!(renderer.needs_full_redraw(&moved));
    assert!(renderer.can_render(&universe, &moved));
}

#[test]
fn cells_that_died_and_return_are_painted_again() {
    let width = 32;
    let height = 32;
    let mut buf = vec![0u8; (width * height * 4) as usize];
    let mut renderer = Renderer::new(width, height);
    let camera = camera_at(0, 0, -3);
    let mut universe = SparseUniverse::new(set(&[(-1, 0), (0, 0), (1, 0)]));
    renderer.render(&universe, &camera, &mut buf, false, &live_color);
    universe.tick();
    renderer.render(&universe, &camera, &mut buf, false, &live_color);
    assert_eq!(pixel(&buf, width, 10, 18), [BG_COLOR[0], BG_COLOR[1], BG_COLOR[2], 255]);
    universe.tick();
    let damage = renderer.render(&universe, &camera, &mut buf, false, &live_color);
    assert!(damage.1.is_some());
    assert_eq!(pixel(&buf, width, 10, 18), [200, 100, 50, 255]);
    assert_eq!(pixel(&buf, width, 18, 10), [BG_COLOR[0], BG_COLOR[1], BG_COLOR[2], 255]);
}

fn age_color(age: u32, bounds: (u32, u32)) -> [u8; 3] {
    let (num, den) = age_fraction(age, bounds);
    [(num * 255 / den) as u8, 0, 0]
}

#[test]
fn age_refresh_repaints_every_live_cell_with_new_bounds() {
    let width = 32;
    let height = 32;
    let mut buf = vec![0u8; (width * height * 4) as usize];
    let mut renderer = Renderer::new(width, height);
    let camera = camera_at(0, 0, -3);
    // A block keeps every cell alive, so ages grow but nothing is repainted
    // until a refresh.
    let mut universe = SparseUniverse::new(set(&[(0, 0), (1, 0), (0, 1), (1, 1)]));
    renderer.render(&universe, &camera, &mut buf, false, &age_color);
    universe.tick();
    assert_eq!(renderer.render(&universe, &camera, &mut buf, false, &age_color), (false, None));
    let damage = renderer.render(&universe, &camera, &mut buf, true, &age_color);
    assert!(!damage.0);
    assert!(damage.1.is_some());
}

fn blinker_incremental_equals_full(scale: i32) {
    let width = 32;
    let height = 32;
    let mut buf = vec![0u8; (width * height * 4) as usize];
    let mut renderer = Renderer::new(width, height);
    let camera = camera_at(0, 0, scale);
    let mut universe = SparseUniverse::new(set(&[(-1, 0), (0, 0), (1, 0)]));
    renderer.render(&universe, &camera, &mut buf, false, &live_color);
    universe.tick();
    let damage = renderer.render(&universe, &camera, &mut buf, false, &live_color);
    assert!(!damage.0);
    let mut fresh = vec![0u8; (width * height * 4) as usize];
    let mut other = Renderer::new(width, height);
    other.render(&universe, &camera, &mut fresh, false, &live_color);
    assert_eq!(fresh, buf);
}

#[test]
fn restored_cells_match_a_full_redraw_at_every_zoom() {
    for scale in [0, -1, -2, -3, -4] {
        blinker_incremental_equals_full(scale);
    }
}

#[test]
fn restored_cell_at_one_to_one_has_no_grid() {
    let width = 4;
    let height = 4;
    let mut buf = vec![0u8; (width * height * 4) as usize];
    let mut renderer = Renderer::new(width, height);
    let camera = camera_at(0, 0, 0);
    let mut universe = SparseUniverse::new(set(&[(-1, 0), (0, 0), (1, 0)]));
    renderer.render(&universe, &camera, &mut buf, false, &live_color);
    universe.tick();
    let damage = renderer.render(&universe, &camera, &mut buf, false, &live_color);
    // Died: (-1, 0) at (1, 2) and (1, 0) at (3, 2); born: (0, -1) at
    // (2, 1) and (0, 1) at (2, 3).
    assert_eq!(damage, (false, Some((1, 1, 4, 4))));
    assert_eq!(pixel(&buf, width, 1, 2), [BG_COLOR[0], BG_COLOR[1], BG_COLOR[2], 255]);
    assert_eq!(pixel(&buf, width, 3, 2), [BG_COLOR[0], BG_COLOR[1], BG_COLOR[2], 255]);
}
