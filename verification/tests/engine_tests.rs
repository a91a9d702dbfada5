use gpn21_tron::engine::{decide_action, ranking_less, DirectionRanking};
use gpn21_tron::grid::State;
use gpn21_tron::protocol::Command;
use gpn21_tron::{move_by_direction, MoveDirection, PlayerId, Position};

fn pos(x: u32, y: u32) -> Position {
    Position { x, y }
}

fn chosen_direction(r: &Option<Command<'static>>) -> Option<MoveDirection> {
    match r {
        Some(Command::Move(d)) => Some(*d),
        _ => None,
    }
}

#[test]
fn no_decision_before_the_first_game_start() {
    let state = State::default();
    assert!(decide_action(&state, 42).is_none());
}

#[test]
fn no_legal_direction_means_no_command() {
    let mut state = State::default();
    state.apply_game_start(pos(3, 3), PlayerId(1));
    state.apply_position_update(PlayerId(1), pos(1, 1));
    state.apply_position_update(PlayerId(2), pos(1, 0));
    state.apply_position_update(PlayerId(2), pos(1, 2));
    state.apply_position_update(PlayerId(2), pos(0, 1));
    state.apply_position_update(PlayerId(2), pos(2, 1));
    assert!(decide_action(&state, 1).is_none());
}

#[test]
fn a_sole_legal_direction_is_always_chosen() {
    let mut state = State::default();
    state.apply_game_start(pos(3, 3), PlayerId(1));
    state.apply_position_update(PlayerId(1), pos(1, 1));
    state.apply_position_update(PlayerId(2), pos(1, 0));
    state.apply_position_update(PlayerId(2), pos(1, 2));
    state.apply_position_update(PlayerId(2), pos(2, 1));
    let r = decide_action(&state, 99);
    assert_eq!(chosen_direction(&r), Some(MoveDirection::Left));
}

#[test]
fn the_chosen_destination_is_never_occupied() {
    let mut state = State::default();
    state.apply_game_start(pos(5, 5), PlayerId(1));
    state.apply_position_update(PlayerId(1), pos(2, 2));
    state.apply_position_update(PlayerId(2), pos(2, 1));
    state.apply_position_update(PlayerId(2), pos(1, 2));
    for seed in 0..8u64 {
        let r = decide_action(&state, seed);
        let d = chosen_direction(&r).expect("a legal move exists");
        let dest = move_by_direction(&pos(2, 2), &d, &pos(5, 5));
        assert!(!state.is_occupied(dest));
    }
}

#[test]
fn a_fixed_seed_fixes_the_decision() {
    let build = || {
        let mut state = State::default();
        state.apply_game_start(pos(6, 6), PlayerId(1));
        state.apply_position_update(PlayerId(1), pos(3, 3));
        state.apply_position_update(PlayerId(2), pos(1, 1));
        state.apply_position_update(PlayerId(2), pos(1, 2));
        state
    };
    let s1 = build();
    let s2 = build();
    for seed in [0u64, 1, 7, 123456789] {
        let r1 = chosen_direction(&decide_action(&s1, seed));
        let r2 = chosen_direction(&decide_action(&s2, seed));
        assert_eq!(r1, r2);
    }
}

#[test]
fn head_adjacent_destinations_lose_to_safe_ones() {
    // 3-by-3 board, agent at the centre, one opponent head at (1, 0) and
    // nothing else: up is illegal (the head cell itself), down is
    // head-adjacent through the wrap-around, so left or right must win.
    let mut state = State::default();
    state.apply_game_start(pos(3, 3), PlayerId(1));
    state.apply_position_update(PlayerId(1), pos(1, 1));
    state.apply_position_update(PlayerId(2), pos(1, 0));
    for seed in 0..16u64 {
        let d = chosen_direction(&decide_action(&state, seed)).expect("legal moves exist");
        assert!(d == MoveDirection::Left || d == MoveDirection::Right);
    }
}

#[test]
fn ranking_orders_its_keys_lexicographically() {
    let base = DirectionRanking {
        has_neighbour_head: false,
        best_empty_space_score_after_step: -100,
        wall_follow: false,
        direction_score: 5,
        random: 10,
    };
    let beside_head = DirectionRanking { has_neighbour_head: true, ..base };
    assert!(ranking_less(&base, &beside_head));
    assert!(!ranking_less(&beside_head, &base));
    let better_room = DirectionRanking { best_empty_space_score_after_step: -200, ..base };
    assert!(ranking_less(&better_room, &base));
    let hugging = DirectionRanking { wall_follow: true, ..base };
    assert!(ranking_less(&base, &hugging));
    let better_direct = DirectionRanking { direction_score: -5, ..base };
    assert!(ranking_less(&better_direct, &base));
    let other_noise = DirectionRanking { random: 11, ..base };
    assert!(ranking_less(&base, &other_noise));
    assert!(!ranking_less(&base, &base));
}
