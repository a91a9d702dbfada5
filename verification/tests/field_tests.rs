use gpn21_tron::field::taint_fields_near_heads;
use gpn21_tron::grid::State;
use gpn21_tron::{PlayerId, Position};

fn pos(x: u32, y: u32) -> Position {
    Position { x, y }
}

#[test]
fn field_without_opponents_stays_at_the_maximum() {
    let mut state = State::default();
    state.apply_game_start(pos(3, 3), PlayerId(1));
    state.apply_position_update(PlayerId(1), pos(1, 1));
    let field = taint_fields_near_heads(&state);
    assert_eq!(field.len(), 9);
    for v in field {
        assert_eq!(v, 1024);
    }
}

#[test]
fn field_values_stay_within_the_unit_interval() {
    let mut state = State::default();
    state.apply_game_start(pos(4, 4), PlayerId(1));
    state.apply_position_update(PlayerId(2), pos(1, 1));
    state.apply_position_update(PlayerId(3), pos(3, 3));
    let field = taint_fields_near_heads(&state);
    for v in field {
        assert!(1 <= v && v <= 1024);
    }
}

#[test]
fn cells_beside_an_opponent_head_are_attenuated_exactly() {
    let mut state = State::default();
    state.apply_game_start(pos(5, 5), PlayerId(1));
    state.apply_position_update(PlayerId(2), pos(1, 1));
    let field = taint_fields_near_heads(&state);
    // A free neighbour of the head sits at depth 1: its factor is
    // 1024 - 410 = 614, and 1024 * 614 / 1024 rounded up is 614.
    let neighbour = (2 * 5 + 1) as usize;
    assert_eq!(field[neighbour], 614);
    // Two hops out, the decay is 410^2 / 1024 = 164, so the factor is
    // 1024 - 164 = 860.
    let two_out = (3 * 5 + 1) as usize;
    assert_eq!(field[two_out], 860);
}

#[test]
fn occupied_cells_keep_the_maximum() {
    let mut state = State::default();
    state.apply_game_start(pos(4, 4), PlayerId(1));
    state.apply_position_update(PlayerId(2), pos(1, 1));
    state.apply_position_update(PlayerId(2), pos(1, 2));
    let field = taint_fields_near_heads(&state);
    // The trail cells themselves are never attenuated.
    assert_eq!(field[(1 * 4 + 1) as usize], 1024);
    assert_eq!(field[(1 * 4 + 2) as usize], 1024);
}

#[test]
fn two_opponents_compound_more_than_one() {
    let mut state1 = State::default();
    state1.apply_game_start(pos(5, 5), PlayerId(1));
    state1.apply_position_update(PlayerId(2), pos(1, 1));
    let f1 = taint_fields_near_heads(&state1);

    let mut state2 = State::default();
    state2.apply_game_start(pos(5, 5), PlayerId(1));
    state2.apply_position_update(PlayerId(2), pos(1, 1));
    state2.apply_position_update(PlayerId(3), pos(3, 1));
    let f2 = taint_fields_near_heads(&state2);

    // (2, 1) sits between the two heads; the second opponent can only make
    // it more contested.
    let idx = (2 * 5 + 1) as usize;
    assert!(f2[idx] < f1[idx]);
}
