use lifewall::collections::Cell;
use lifewall::config::MAX_HISTORY;
use lifewall::universe::sparse::SparseUniverse;
use lifewall::universe::Universe;
use rustc_hash::FxHashSet;

fn set(cells: &[(i32, i32)]) -> FxHashSet<Cell> {
    cells.iter().copied().collect()
}

#[test]
fn blinker_oscillates_with_period_two() {
    let horizontal = set(&[(-1, 0), (0, 0), (1, 0)]);
    let vertical = set(&[(0, -1), (0, 0), (0, 1)]);
    let mut u = SparseUniverse::new(horizontal.clone());
    u.tick();
    assert_eq!(u.live_cells(), &vertical);
    u.tick();
    assert_eq!(u.live_cells(), &horizontal);
    assert_eq!(u.generation(), 2);
}

#[test]
fn block_is_a_still_life() {
    let block = set(&[(0, 0), (1, 0), (0, 1), (1, 1)]);
    let mut u = SparseUniverse::new(block.clone());
    for _ in 0..5 {
        u.tick();
    }
    assert_eq!(u.live_cells(), &block);
}

#[test]
fn glider_moves_one_cell_diagonally_every_four_ticks() {
    let glider = set(&[(1, 0), (2, 1), (0, 2), (1, 2), (2, 2)]);
    let mut u = SparseUniverse::new(glider.clone());
    for _ in 0..4 {
        u.tick();
    }
    let moved: FxHashSet<Cell> = glider.iter().map(|&(x, y)| (x + 1, y + 1)).collect();
    assert_eq!(u.live_cells(), &moved);
}

#[test]
fn lonely_cells_die_and_empty_stays_empty() {
    let mut u = SparseUniverse::new(set(&[(0, 0), (5, 5)]));
    u.tick();
    assert!(u.live_cells().is_empty());
    u.tick();
    assert!(u.live_cells().is_empty());
}

#[test]
fn step_back_then_tick_replays_history() {
    let mut u = SparseUniverse::new(set(&[(-1, 0), (0, 0), (1, 0)]));
    u.tick();
    u.tick();
    u.tick();
    let latest = u.live_cells().clone();
    u.step_back();
    assert!(u.is_replaying());
    assert_eq!(u.generation(), 2);
    u.tick();
    assert!(!u.is_replaying());
    assert_eq!(u.generation(), 3);
    assert_eq!(u.live_cells(), &latest);
}

#[test]
fn step_back_at_oldest_generation_changes_nothing() {
    let start = set(&[(0, 0), (1, 0), (0, 1), (1, 1)]);
    let mut u = SparseUniverse::new(start.clone());
    u.step_back();
    assert_eq!(u.generation(), 0);
    assert!(!u.is_replaying());
    assert_eq!(u.live_cells(), &start);
}

#[test]
fn history_is_capped() {
    let mut u = SparseUniverse::new(set(&[(-1, 0), (0, 0), (1, 0)]));
    for _ in 0..(MAX_HISTORY + 10) {
        u.tick();
    }
    assert_eq!(u.generation(), (MAX_HISTORY + 10) as u64);
    for _ in 0..(MAX_HISTORY + 10) {
        u.step_back();
    }
    assert_eq!(u.generation(), 11);
    let before = u.live_cells().clone();
    u.tick();
    u.step_back();
    assert_eq!(u.live_cells(), &before);
}

#[test]
fn tick_then_step_back_returns_to_same_generation() {
    let start = set(&[(1, 0), (2, 1), (0, 2), (1, 2), (2, 2)]);
    let mut u = SparseUniverse::new(start.clone());
    u.tick();
    u.step_back();
    assert_eq!(u.generation(), 0);
    assert_eq!(u.live_cells(), &start);
}

#[test]
fn ages_count_survival_and_births() {
    let mut u = SparseUniverse::new(set(&[(-1, 0), (0, 0), (1, 0)]));
    assert_eq!(u.age_of(&(0, 0)), 0);
    u.tick();
    assert_eq!(u.age_of(&(0, 0)), 1);
    assert_eq!(u.age_of(&(0, 1)), 0);
    assert_eq!(u.age_of(&(-1, 0)), 0);
    assert_eq!(u.age_bounds(), (0, 1));
    u.tick();
    assert_eq!(u.age_of(&(0, 0)), 2);
    assert_eq!(u.age_bounds(), (0, 2));
}

#[test]
fn age_bounds_of_empty_universe_is_zero() {
    let u = SparseUniverse::new(FxHashSet::default());
    assert_eq!(u.age_bounds(), (0, 0));
}

#[test]
fn replaying_leaves_ages_alone() {
    let mut u = SparseUniverse::new(set(&[(-1, 0), (0, 0), (1, 0)]));
    u.tick();
    u.tick();
    u.step_back();
    u.step_back();
    u.tick();
    assert_eq!(u.age_of(&(0, 0)), 2);
}

#[test]
fn cells_at_the_edge_of_the_plane_cannot_tick() {
    let u = SparseUniverse::new(set(&[(i32::MAX, 0)]));
    assert!(!u.can_tick());
    let u = SparseUniverse::new(set(&[(i32::MAX - 2, i32::MIN + 2)]));
    assert!(u.can_tick());
    let mut u = SparseUniverse::new(set(&[(0, 0)]));
    assert!(u.can_tick());
    u.tick();
    u.step_back();
    assert!(u.is_replaying());
    assert!(u.can_tick());
}

#[test]
fn ticks_then_step_backs_reach_an_earlier_generation() {
    let glider = set(&[(1, 0), (2, 1), (0, 2), (1, 2), (2, 2)]);
    let mut reference = SparseUniverse::new(glider.clone());
    let mut generations = vec![reference.live_cells().clone()];
    for _ in 0..5 {
        reference.tick();
        generations.push(reference.live_cells().clone());
    }
    let mut u = SparseUniverse::new(glider);
    for _ in 0..5 {
        u.tick();
    }
    for _ in 0..2 {
        u.step_back();
    }
    assert_eq!(u.generation(), 3);
    assert_eq!(u.live_cells(), &generations[3]);
    assert!(u.is_replaying());
    // More steps back than ticks stop at generation 0.
    for _ in 0..10 {
        u.step_back();
    }
    assert_eq!(u.generation(), 0);
    assert_eq!(u.live_cells(), &generations[0]);
    assert!(u.is_replaying());
}
