use gpn21_tron::protocol::{
    contains_kicked, encode_command, parse_answer, parse_u32, Answer, Command, ProtocolError,
};
use gpn21_tron::{MoveDirection, PlayerId, Position};

#[test]
fn parses_a_position_update() {
    let r = parse_answer(b"pos|2|3|4\n");
    match r {
        Ok(Some(Answer::Pos(p, q))) => {
            assert_eq!(p, PlayerId(2));
            assert_eq!(q, Position { x: 3, y: 4 });
        }
        _ => panic!("expected a position update"),
    }
}

#[test]
fn parses_a_game_start() {
    let r = parse_answer(b"game|40|30|7\n");
    match r {
        Ok(Some(Answer::Game(size, id))) => {
            assert_eq!(size, Position { x: 40, y: 30 });
            assert_eq!(id, PlayerId(7));
        }
        _ => panic!("expected a game start"),
    }
}

#[test]
fn parses_a_tick() {
    assert!(matches!(parse_answer(b"tick\n"), Ok(Some(Answer::Tick))));
}

#[test]
fn parses_a_death_batch() {
    let r = parse_answer(b"die|3|5|8\n");
    match r {
        Ok(Some(Answer::Die(ids))) => {
            assert_eq!(ids, vec![PlayerId(3), PlayerId(5), PlayerId(8)]);
        }
        _ => panic!("expected a death batch"),
    }
}

#[test]
fn parses_motd_and_error_payloads() {
    match parse_answer(b"motd|hello world\n") {
        Ok(Some(Answer::Motd(m))) => assert_eq!(m, b"hello world".to_vec()),
        _ => panic!("expected a motd"),
    }
    match parse_answer(b"error|you were kicked\n") {
        Ok(Some(Answer::Error(m))) => assert_eq!(m, b"you were kicked".to_vec()),
        _ => panic!("expected an error"),
    }
}

#[test]
fn parses_win_lose_message_and_player() {
    assert!(matches!(parse_answer(b"win|3|4\n"), Ok(Some(Answer::Win(3, 4)))));
    assert!(matches!(parse_answer(b"lose|1|9\n"), Ok(Some(Answer::Lose(1, 9)))));
    match parse_answer(b"message|4|hi\n") {
        Ok(Some(Answer::Message(p, m))) => {
            assert_eq!(p, PlayerId(4));
            assert_eq!(m, b"hi".to_vec());
        }
        _ => panic!("expected a chat message"),
    }
    match parse_answer(b"player|6|ada\n") {
        Ok(Some(Answer::Player(p, name))) => {
            assert_eq!(p, PlayerId(6));
            assert_eq!(name, b"ada".to_vec());
        }
        _ => panic!("expected a player record"),
    }
}

#[test]
fn missing_fields_read_as_zero_or_empty() {
    match parse_answer(b"pos|2\n") {
        Ok(Some(Answer::Pos(p, q))) => {
            assert_eq!(p, PlayerId(2));
            assert_eq!(q, Position { x: 0, y: 0 });
        }
        _ => panic!("expected a position update"),
    }
    match parse_answer(b"motd\n") {
        Ok(Some(Answer::Motd(m))) => assert_eq!(m, Vec::<u8>::new()),
        _ => panic!("expected a motd"),
    }
}

#[test]
fn unknown_tags_are_ignored() {
    assert!(matches!(parse_answer(b"frobnicate|1|2\n"), Ok(None)));
}

#[test]
fn an_empty_line_is_a_protocol_error() {
    assert!(matches!(parse_answer(b"\n"), Err(ProtocolError::EmptyAnswer)));
    assert!(matches!(parse_answer(b""), Err(ProtocolError::EmptyAnswer)));
    assert!(matches!(parse_answer(b"|x\n"), Err(ProtocolError::EmptyAnswer)));
}

#[test]
fn windows_line_endings_are_trimmed() {
    assert!(matches!(parse_answer(b"tick\r\n"), Ok(Some(Answer::Tick))));
}

#[test]
fn numeric_fields_parse_like_the_standard_parser() {
    assert_eq!(parse_u32(b"123"), 123);
    assert_eq!(parse_u32(b"+7"), 7);
    assert_eq!(parse_u32(b"0"), 0);
    assert_eq!(parse_u32(b""), 0);
    assert_eq!(parse_u32(b"abc"), 0);
    assert_eq!(parse_u32(b"12a"), 0);
    assert_eq!(parse_u32(b"-3"), 0);
    assert_eq!(parse_u32(b"4294967295"), 4294967295);
    assert_eq!(parse_u32(b"4294967296"), 0);
    assert_eq!(parse_u32(b"99999999999999999999"), 0);
}

#[test]
fn encodes_every_move_word() {
    assert_eq!(encode_command(&Command::Move(MoveDirection::Up)), b"move|up\n".to_vec());
    assert_eq!(
        encode_command(&Command::Move(MoveDirection::Right)),
        b"move|right\n".to_vec()
    );
    assert_eq!(
        encode_command(&Command::Move(MoveDirection::Down)),
        b"move|down\n".to_vec()
    );
    assert_eq!(
        encode_command(&Command::Move(MoveDirection::Left)),
        b"move|left\n".to_vec()
    );
}

#[test]
fn encodes_join_and_chat() {
    assert_eq!(
        encode_command(&Command::Join(b"user", b"SECRET-REDACTED")),
        b"join|user|SECRET-REDACTED\n".to_vec()
    );
    assert_eq!(encode_command(&Command::Chat(b"glhf")), b"chat|glhf\n".to_vec());
}

#[test]
fn kicked_is_found_anywhere_in_the_message() {
    assert!(contains_kicked(b"you were kicked from the game"));
    assert!(contains_kicked(b"kicked"));
    assert!(!contains_kicked(b"kick"));
    assert!(!contains_kicked(b"nothing to see"));
    assert!(!contains_kicked(b""));
}
