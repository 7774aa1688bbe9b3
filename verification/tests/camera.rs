use lifewall::camera::Camera;
use lifewall::config::{INITIAL_SCALE, MAX_SCALE, MIN_SCALE};

#[test]
fn new_camera_starts_at_origin_and_default_zoom() {
    let camera = Camera::new();
    assert_eq!((camera.x(), camera.y()), (0, 0));
    assert_eq!(camera.scale(), INITIAL_SCALE);
}

#[test]
fn pan_moves_by_exact_delta_and_accumulates() {
    let mut camera = Camera::new();
    camera.pan(3, -2);
    assert_eq!((camera.x(), camera.y()), (3, -2));
    camera.pan(-1, -1);
    assert_eq!((camera.x(), camera.y()), (2, -3));
}

#[test]
fn zoom_in_decreases_scale_by_one() {
    let mut camera = Camera::new();
    let before = camera.scale();
    camera.zoom_in();
    assert_eq!(camera.scale(), before - 1);
}

#[test]
fn zoom_out_increases_scale_by_one() {
    let mut camera = Camera::new();
    let before = camera.scale();
    camera.zoom_out();
    assert_eq!(camera.scale(), before + 1);
}

#[test]
fn zoom_in_clamps_at_min_scale() {
    let mut camera = Camera::new();
    for _ in 0..32 {
        camera.zoom_in();
    }
    assert_eq!(camera.scale(), MIN_SCALE);
}

#[test]
fn zoom_out_clamps_at_max_scale() {
    let mut camera = Camera::new();
    for _ in 0..32 {
        camera.zoom_out();
    }
    assert_eq!(camera.scale(), MAX_SCALE);
}

#[test]
fn zoom_in_then_out_returns_to_same_scale() {
    let mut camera = Camera::new();
    let before = camera.scale();
    camera.zoom_in();
    camera.zoom_out();
    assert_eq!(camera.scale(), before);
}

#[test]
fn default_camera_matches_new() {
    let camera = Camera::default();
    assert_eq!((camera.x(), camera.y(), camera.scale()), (0, 0, INITIAL_SCALE));
}

#[test]
fn panning_keeps_zoom() {
    let mut camera = Camera::new();
    camera.zoom_in();
    let scale = camera.scale();
    camera.pan(100, -100);
    assert_eq!(camera.scale(), scale);
    assert_eq!((camera.x(), camera.y()), (100, -100));
}
