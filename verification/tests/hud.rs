use lifewall::camera::Camera;
use lifewall::controls::TickSpeed;
use lifewall::hud::hud_text;

fn text(chars: Vec<char>) -> String {
    chars.into_iter().collect()
}

#[test]
fn hud_shows_pattern_camera_zoom_cells_and_speed() {
    let mut camera = Camera::new();
    camera.pan(-12, 340);
    let speed = TickSpeed::new();
    let line = text(hud_text(Some("pulsar.rle"), &camera, 48, 1234, false, false, &speed));
    assert_eq!(
        line,
        "Current Pattern = pulsar.rle | Camera: (-12, 340) | Zoom: 16x | Cells: 48 | Gen: 1234 | \u{25b6} Running | Speed: 8.00 ticks/s"
    );
}

#[test]
fn hud_marks_rewound_paused_and_slow_speeds() {
    let mut camera = Camera::new();
    for _ in 0..10 {
        camera.zoom_out();
    }
    let mut speed = TickSpeed::new();
    for _ in 0..5 {
        speed.slower();
    }
    let line = text(hud_text(None, &camera, 0, 0, true, true, &speed));
    assert_eq!(
        line,
        "Current Pattern = None | Camera: (0, 0) | Zoom: 1x | Cells: 0 | Gen: 0 rewound | \u{23f8} Paused | Speed: 1 tick/4.0s"
    );
}

#[test]
fn hud_speed_text_matches_float_formatting() {
    let camera = Camera::new();
    let mut speed = TickSpeed::new();
    for _ in 0..20 {
        speed.slower();
    }
    for e in -5..=12i32 {
        let tps = 2f64.powi(e);
        let expected = if tps >= 1.0 {
            format!("{:.2} ticks/s", tps)
        } else {
            format!("1 tick/{:.1}s", 1.0 / tps)
        };
        let line = text(hud_text(Some("p"), &camera, 0, 0, false, false, &speed));
        assert!(line.ends_with(&expected), "{} vs {}", line, expected);
        speed.faster();
    }
}

#[test]
fn hud_handles_extreme_numbers() {
    let mut camera = Camera::new();
    camera.pan(i32::MIN, i32::MAX);
    let speed = TickSpeed::new();
    let line = text(hud_text(Some(""), &camera, usize::MAX, u64::MAX, false, false, &speed));
    let expected = format!(
        "Current Pattern =  | Camera: ({}, {}) | Zoom: 16x | Cells: {} | Gen: {} | \u{25b6} Running | Speed: 8.00 ticks/s",
        i32::MIN,
        i32::MAX,
        usize::MAX,
        u64::MAX
    );
    assert_eq!(line, expected);
}
