use gpn21_tron::grid::State;
use gpn21_tron::{move_by_direction, MoveDirection, PlayerId, Position};

fn pos(x: u32, y: u32) -> Position {
    Position { x, y }
}

#[test]
fn default_state_is_uninitialized() {
    let state = State::default();
    assert!(!state.is_initialized());
}

#[test]
fn game_start_initializes_an_all_free_grid() {
    let mut state = State::default();
    state.apply_game_start(pos(3, 3), PlayerId(1));
    assert!(state.is_initialized());
    for x in 0..3 {
        for y in 0..3 {
            assert!(!state.is_occupied(pos(x, y)));
        }
    }
}

#[test]
fn position_update_marks_the_cell_and_the_head() {
    let mut state = State::default();
    state.apply_game_start(pos(4, 4), PlayerId(1));
    state.apply_position_update(PlayerId(2), pos(2, 3));
    assert!(state.is_occupied(pos(2, 3)));
    assert_eq!(state.occupant_at(pos(2, 3)), Some(2));
    assert!(state.any_head_at(pos(2, 3)));
    assert!(state.any_opponent_head_at(pos(2, 3)));
    assert!(!state.is_occupied(pos(1, 1)));
}

#[test]
fn own_position_update_moves_the_agent() {
    let mut state = State::default();
    state.apply_game_start(pos(4, 4), PlayerId(1));
    state.apply_position_update(PlayerId(1), pos(1, 2));
    assert_eq!(state.my_position, pos(1, 2));
    assert!(!state.any_opponent_head_at(pos(1, 2)));
}

#[test]
fn deaths_clear_only_the_dead_players_cells() {
    let mut state = State::default();
    state.apply_game_start(pos(4, 4), PlayerId(1));
    state.apply_position_update(PlayerId(2), pos(0, 0));
    state.apply_position_update(PlayerId(2), pos(0, 1));
    state.apply_position_update(PlayerId(3), pos(2, 2));
    state.apply_deaths(&vec![PlayerId(2)]);
    assert!(!state.is_occupied(pos(0, 0)));
    assert!(!state.is_occupied(pos(0, 1)));
    assert!(state.is_occupied(pos(2, 2)));
    assert!(!state.any_head_at(pos(0, 1)));
    assert!(state.any_head_at(pos(2, 2)));
}

#[test]
fn start_then_own_death_leaves_the_grid_fully_free() {
    let mut state = State::default();
    state.apply_game_start(pos(5, 4), PlayerId(7));
    state.apply_deaths(&vec![PlayerId(7)]);
    for x in 0..5 {
        for y in 0..4 {
            assert!(!state.is_occupied(pos(x, y)));
        }
    }
    assert!(!state.any_head_at(pos(0, 0)));
}

#[test]
fn movement_wraps_left_from_zero() {
    let size = pos(7, 5);
    let r = move_by_direction(&pos(0, 2), &MoveDirection::Left, &size);
    assert_eq!(r, pos(6, 2));
}

#[test]
fn movement_wraps_right_from_far_edge() {
    let size = pos(7, 5);
    let r = move_by_direction(&pos(6, 2), &MoveDirection::Right, &size);
    assert_eq!(r, pos(0, 2));
}

#[test]
fn movement_wraps_up_from_zero() {
    let size = pos(7, 5);
    let r = move_by_direction(&pos(3, 0), &MoveDirection::Up, &size);
    assert_eq!(r, pos(3, 4));
}

#[test]
fn movement_wraps_down_from_far_edge() {
    let size = pos(7, 5);
    let r = move_by_direction(&pos(3, 4), &MoveDirection::Down, &size);
    assert_eq!(r, pos(3, 0));
}

#[test]
fn movement_wraps_on_a_single_cell_grid() {
    let size = pos(1, 1);
    for d in [
        MoveDirection::Up,
        MoveDirection::Right,
        MoveDirection::Down,
        MoveDirection::Left,
    ] {
        assert_eq!(move_by_direction(&pos(0, 0), &d, &size), pos(0, 0));
    }
}

#[test]
fn interior_moves_do_not_wrap() {
    let size = pos(7, 5);
    assert_eq!(
        move_by_direction(&pos(3, 2), &MoveDirection::Right, &size),
        pos(4, 2)
    );
    assert_eq!(
        move_by_direction(&pos(3, 2), &MoveDirection::Down, &size),
        pos(3, 3)
    );
}

#[test]
fn simulate_step_leaves_the_original_untouched() {
    let mut state = State::default();
    state.apply_game_start(pos(4, 4), PlayerId(1));
    state.apply_position_update(PlayerId(1), pos(1, 1));
    let sim = state.simulate_step(&pos(1, 2));
    assert!(sim.is_occupied(pos(1, 2)));
    assert_eq!(sim.my_position, pos(1, 2));
    assert!(!state.is_occupied(pos(1, 2)));
    assert_eq!(state.my_position, pos(1, 1));
}
