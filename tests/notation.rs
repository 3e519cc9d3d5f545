use armada_chess::command_input::{
    format_file_and_rank, is_valid_file, parse_position, CommandInput, MoveCommand,
};

#[test]
fn format_first_square() {
    assert_eq!(format_file_and_rank([0, 0]), "a1");
    assert_eq!(format_file_and_rank([7, 7]), "h8");
    assert_eq!(format_file_and_rank([41, 3]), "d42");
    assert_eq!(format_file_and_rank([-1, 2]), "c0");
    assert_eq!(format_file_and_rank([-12, 4]), "e-11");
}

#[test]
fn parse_first_square() {
    assert_eq!(parse_position("a1"), Some([0, 0]));
    assert_eq!(parse_position("h8"), Some([7, 7]));
    assert_eq!(parse_position("e-11"), Some([-12, 4]));
    assert_eq!(parse_position("b+3"), Some([2, 1]));
    assert_eq!(parse_position("c007"), Some([6, 2]));
}

#[test]
fn parse_rejects_malformed() {
    assert_eq!(parse_position(""), None);
    assert_eq!(parse_position("a"), None);
    assert_eq!(parse_position("i1"), None);
    assert_eq!(parse_position("A1"), None);
    assert_eq!(parse_position("a1x"), None);
    assert_eq!(parse_position("a-"), None);
    assert_eq!(parse_position("a99999999999999999999"), None);
    assert_eq!(parse_position("\u{e9}1"), None);
}

#[test]
fn notation_round_trip() {
    for c in [[0, 0], [7, 7], [-1, 3], [1000, 5], [isize::MIN, 0], [isize::MAX - 1, 7], [-99, 6]] {
        assert_eq!(parse_position(&format_file_and_rank(c)), Some(c));
    }
}

#[test]
fn valid_files() {
    assert!(is_valid_file('a'));
    assert!(is_valid_file('h'));
    assert!(!is_valid_file('i'));
    assert!(!is_valid_file('`'));
}

#[test]
fn move_command() {
    assert_eq!(
        MoveCommand::from_command("e2 e4"),
        Some(MoveCommand::MovePiece { start: [1, 4], end: [3, 4] })
    );
    assert_eq!(
        MoveCommand::from_command("  a1\t a3 "),
        Some(MoveCommand::MovePiece { start: [0, 0], end: [2, 0] })
    );
    assert_eq!(MoveCommand::from_command("e2"), None);
    assert_eq!(MoveCommand::from_command("e2 e4 e5"), None);
    assert_eq!(MoveCommand::from_command("e2 z4"), None);
    assert_eq!(MoveCommand::from_command(""), None);
}

#[test]
fn view_command() {
    assert_eq!(MoveCommand::from_command(":"), Some(MoveCommand::Home));
    assert_eq!(MoveCommand::from_command(":5"), Some(MoveCommand::MoveView { rank: 4 }));
    assert_eq!(MoveCommand::from_command(":-3"), Some(MoveCommand::MoveView { rank: -4 }));
    assert_eq!(MoveCommand::from_command(":x"), None);
    assert_eq!(MoveCommand::from_command(": 5"), None);
    assert_eq!(MoveCommand::from_command(":-9223372036854775808"), None);
}

#[test]
fn next_character_rules() {
    let mut input = CommandInput::default();
    assert_eq!(input.last_character(), None);
    assert!(input.is_next_character_valid(':'));
    assert!(input.is_next_character_valid('c'));
    assert!(!input.is_next_character_valid('1'));
    input.command = String::from("e");
    assert_eq!(input.last_character(), Some('e'));
    assert!(input.is_next_character_valid('2'));
    assert!(input.is_next_character_valid('-'));
    assert!(!input.is_next_character_valid('f'));
    input.command = String::from("e2");
    assert!(input.is_next_character_valid(' '));
    assert!(input.is_next_character_valid('3'));
    input.command = String::from("e2 ");
    assert!(input.is_next_character_valid('f'));
    assert!(!input.is_next_character_valid('4'));
    input.command = String::from("e2 e4");
    assert!(!input.is_next_character_valid(' '));
    input.command = String::from(":4");
    assert!(!input.is_next_character_valid(' '));
    assert!(input.is_next_character_valid('0'));
}

#[test]
fn typing_builds_command() {
    let mut input = CommandInput::default();
    for c in "E2 E4".chars() {
        input.type_character(c);
    }
    assert_eq!(input.command, "e2 e4");
    input.type_character('\u{8}');
    assert_eq!(input.command, "e2 e");
    input.type_character('x');
    assert_eq!(input.command, "e2 e");
    let mut empty = CommandInput::default();
    empty.type_character('\u{8}');
    assert_eq!(empty.command, "");
}

#[test]
fn typing_stops_at_length_limit() {
    let mut input = CommandInput::default();
    input.type_character(':');
    for _ in 0..40 {
        input.type_character('9');
    }
    assert_eq!(input.command.len(), CommandInput::MAX_COMMAND_LENGTH);
}
