use gpn21_tron::grid::State;
use gpn21_tron::protocol::{Answer, Command};
use gpn21_tron::session::handle_answer;
use gpn21_tron::{PlayerId, Position};

fn pos(x: u32, y: u32) -> Position {
    Position { x, y }
}

#[test]
fn a_kicked_error_terminates_the_session() {
    let mut state = State::default();
    let r = handle_answer(&mut state, &Answer::Error(b"you were kicked".to_vec()), 0);
    assert!(r.terminate);
    assert!(r.command.is_none());
}

#[test]
fn other_errors_keep_the_session_alive() {
    let mut state = State::default();
    let r = handle_answer(&mut state, &Answer::Error(b"lag spike".to_vec()), 0);
    assert!(!r.terminate);
}

#[test]
fn a_tick_before_game_start_issues_no_command() {
    let mut state = State::default();
    let r = handle_answer(&mut state, &Answer::Tick, 0);
    assert!(r.command.is_none());
    assert!(!r.terminate);
    assert!(!r.rejected);
}

#[test]
fn a_tick_with_room_to_move_issues_a_move_command() {
    let mut state = State::default();
    handle_answer(&mut state, &Answer::Game(pos(5, 5), PlayerId(1)), 0);
    handle_answer(&mut state, &Answer::Pos(PlayerId(1), pos(2, 2)), 0);
    let r = handle_answer(&mut state, &Answer::Tick, 3);
    assert!(matches!(r.command, Some(Command::Move(_))));
}

#[test]
fn a_tick_with_no_room_issues_no_command() {
    let mut state = State::default();
    handle_answer(&mut state, &Answer::Game(pos(3, 3), PlayerId(1)), 0);
    handle_answer(&mut state, &Answer::Pos(PlayerId(1), pos(1, 1)), 0);
    for p in [pos(1, 0), pos(1, 2), pos(0, 1), pos(2, 1)] {
        handle_answer(&mut state, &Answer::Pos(PlayerId(2), p), 0);
    }
    let r = handle_answer(&mut state, &Answer::Tick, 3);
    assert!(r.command.is_none());
    assert!(!r.terminate);
}

#[test]
fn an_off_grid_position_update_is_rejected() {
    let mut state = State::default();
    handle_answer(&mut state, &Answer::Game(pos(3, 3), PlayerId(1)), 0);
    let r = handle_answer(&mut state, &Answer::Pos(PlayerId(2), pos(9, 0)), 0);
    assert!(r.rejected);
}

#[test]
fn an_oversized_game_start_is_rejected() {
    let mut state = State::default();
    let r = handle_answer(
        &mut state,
        &Answer::Game(pos(70000, 70000), PlayerId(1)),
        0,
    );
    assert!(r.rejected);
    assert!(!state.is_initialized());
}

#[test]
fn a_death_event_clears_the_dead_players_trail() {
    let mut state = State::default();
    handle_answer(&mut state, &Answer::Game(pos(4, 4), PlayerId(1)), 0);
    handle_answer(&mut state, &Answer::Pos(PlayerId(2), pos(0, 0)), 0);
    handle_answer(&mut state, &Answer::Die(vec![PlayerId(2)]), 0);
    assert!(!state.is_occupied(pos(0, 0)));
}

#[test]
fn ignored_messages_change_nothing() {
    let mut state = State::default();
    handle_answer(&mut state, &Answer::Game(pos(4, 4), PlayerId(1)), 0);
    let r = handle_answer(&mut state, &Answer::Motd(b"welcome".to_vec()), 0);
    assert!(!r.terminate && r.command.is_none() && !r.rejected);
    let r2 = handle_answer(&mut state, &Answer::Win(1, 2), 0);
    assert!(!r2.terminate && r2.command.is_none() && !r2.rejected);
    assert!(state.is_initialized());
}
