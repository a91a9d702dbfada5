use gpn21_tron::grid::State;
use gpn21_tron::region::{
    distance_to_next_opponent_head, evaluate_empty_space, explore_empty_space, zero_field,
};
use gpn21_tron::grid::{has_neighbour_head, has_wall};
use gpn21_tron::{PlayerId, Position};

fn pos(x: u32, y: u32) -> Position {
    Position { x, y }
}

/// A 3-by-3 board whose centre is a fully enclosed one-cell pocket: the
/// four neighbours of (1, 1) carry trails of player 2, whose head was then
/// reported far away on one of its own trail cells.
fn pocket_board() -> State {
    let mut state = State::default();
    state.apply_game_start(pos(3, 3), PlayerId(1));
    state.apply_position_update(PlayerId(2), pos(0, 1));
    state.apply_position_update(PlayerId(2), pos(2, 1));
    state.apply_position_update(PlayerId(2), pos(1, 0));
    state.apply_position_update(PlayerId(2), pos(1, 2));
    state.apply_position_update(PlayerId(2), pos(0, 0));
    state
}

#[test]
fn pocket_region_has_size_one_and_the_single_cell_decay_term() {
    let state = pocket_board();
    let fld = zero_field(9);
    let region = explore_empty_space(&state, &fld, pos(1, 1));
    assert_eq!(region.size, 1);
    assert_eq!(region.head_dists.len(), 0);
    // The compactness of a single cell at distance zero is exactly 1.0 in
    // fixed point.
    assert_eq!(region.compactness, 1024);
    assert_eq!(region.bounding, vec![2]);
}

#[test]
fn a_two_cell_pocket_sums_the_decay_terms() {
    let mut state = State::default();
    state.apply_game_start(pos(4, 4), PlayerId(1));
    for p in [pos(1, 0), pos(0, 1), pos(2, 1), pos(0, 2), pos(2, 2), pos(1, 3)] {
        state.apply_position_update(PlayerId(2), p);
    }
    state.apply_position_update(PlayerId(2), pos(3, 0));
    let fld = zero_field(16);
    let region = explore_empty_space(&state, &fld, pos(1, 1));
    assert_eq!(region.size, 2);
    assert_eq!(region.head_dists.len(), 0);
    // 0.75^0 + 0.75^1 on the fixed-point scale of 1024.
    assert_eq!(region.compactness, 1024 + 768);
}

#[test]
fn open_grid_region_covers_every_free_cell() {
    let mut state = State::default();
    state.apply_game_start(pos(4, 4), PlayerId(1));
    let fld = zero_field(16);
    let region = explore_empty_space(&state, &fld, pos(2, 2));
    assert_eq!(region.size, 16);
    assert_eq!(region.head_dists.len(), 0);
    assert_eq!(region.bounding.len(), 0);
}

#[test]
fn region_size_never_exceeds_the_free_cell_count() {
    let mut state = State::default();
    state.apply_game_start(pos(4, 4), PlayerId(1));
    state.apply_position_update(PlayerId(2), pos(0, 0));
    state.apply_position_update(PlayerId(2), pos(0, 1));
    let fld = zero_field(16);
    let region = explore_empty_space(&state, &fld, pos(2, 2));
    assert_eq!(region.size, 14);
}

#[test]
fn uncontested_region_scores_its_exact_uncontested_value() {
    let mut state = State::default();
    state.apply_game_start(pos(4, 4), PlayerId(1));
    let fld = zero_field(16);
    let region = explore_empty_space(&state, &fld, pos(2, 2));
    let score = evaluate_empty_space(&region);
    // -(16 * 16 * 1024) / (0 + 1)
    assert_eq!(score, -262144);
}

#[test]
fn contested_region_scores_closer_to_zero() {
    let mut state = State::default();
    state.apply_game_start(pos(4, 4), PlayerId(1));
    state.apply_position_update(PlayerId(2), pos(0, 0));
    let fld = zero_field(16);
    let region = explore_empty_space(&state, &fld, pos(2, 2));
    assert_eq!(region.head_dists.len(), 1);
    // -(15 * 15 * 1024) / (1 + 1)
    assert_eq!(evaluate_empty_space(&region), -115200);
}

#[test]
fn distance_to_the_nearest_opponent_head_counts_hops() {
    let mut state = State::default();
    state.apply_game_start(pos(5, 5), PlayerId(1));
    state.apply_position_update(PlayerId(2), pos(0, 2));
    assert_eq!(distance_to_next_opponent_head(&pos(0, 0), &state), Some(2));
}

#[test]
fn distance_is_none_without_reachable_opponents() {
    let mut state = State::default();
    state.apply_game_start(pos(5, 5), PlayerId(1));
    assert_eq!(distance_to_next_opponent_head(&pos(0, 0), &state), None);
}

#[test]
fn walls_are_trails_but_not_heads() {
    let state = pocket_board();
    // (1, 1) is surrounded by player 2's trail; its head sits at (0, 0).
    assert!(has_wall(&pos(1, 1), &state));
    assert!(!has_neighbour_head(&pos(1, 1), &state));
    // (2, 0) is next to the head at (0, 0) through the wrap-around.
    assert!(has_neighbour_head(&pos(2, 0), &state));
}

#[test]
fn a_lone_head_cell_is_no_wall() {
    let mut state = State::default();
    state.apply_game_start(pos(4, 4), PlayerId(1));
    state.apply_position_update(PlayerId(2), pos(1, 0));
    // (1, 1) neighbours only the head cell (1, 0), which does not count as
    // a wall.
    assert!(!has_wall(&pos(1, 1), &state));
    assert!(has_neighbour_head(&pos(1, 1), &state));
}
