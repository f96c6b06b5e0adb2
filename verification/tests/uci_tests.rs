use aquarii::chess::board::Board;
use aquarii::text::{chars_eq, parse_i32, str_to_chars};
use aquarii::types::Color;
use aquarii::uci::{go_limits, position_command, PositionSource};

fn words(s: &str) -> Vec<Vec<char>> {
    s.split_whitespace().map(|w| w.chars().collect()).collect()
}

fn text(v: &[char]) -> String {
    v.iter().collect()
}

#[test]
fn integers() {
    assert_eq!(parse_i32(&str_to_chars("0")), Some(0));
    assert_eq!(parse_i32(&str_to_chars("-17")), Some(-17));
    assert_eq!(parse_i32(&str_to_chars("+42")), Some(42));
    assert_eq!(parse_i32(&str_to_chars("2147483647")), Some(i32::MAX));
    assert_eq!(parse_i32(&str_to_chars("-2147483648")), Some(i32::MIN));
    assert_eq!(parse_i32(&str_to_chars("2147483648")), None);
    assert_eq!(parse_i32(&str_to_chars("-2147483649")), None);
    assert_eq!(parse_i32(&str_to_chars("99999999999999999999")), None);
    assert_eq!(parse_i32(&str_to_chars("-")), None);
    assert_eq!(parse_i32(&str_to_chars("")), None);
    assert_eq!(parse_i32(&str_to_chars("12a")), None);
    assert!(chars_eq(&str_to_chars("nodes"), "nodes"));
    assert!(!chars_eq(&str_to_chars("node"), "nodes"));
}

#[test]
fn go_commands() {
    let l = go_limits(&words("nodes 5000 movetime 300 depth 7"), Color::White);
    assert_eq!((l.max_nodes, l.max_time, l.max_depth, l.use_clock), (5000, 300, 7, false));

    // the other side's word is passed over alone, so its number ends the command
    let l = go_limits(&words("wtime 60000 btime 50000 winc 1000 binc 500"), Color::White);
    assert_eq!((l.use_clock, l.time, l.inc), (true, 60000, -1));
    let l = go_limits(&words("wtime 60000 winc 1000 btime 50000 binc 500"), Color::White);
    assert_eq!((l.use_clock, l.time, l.inc), (true, 60000, 1000));
    let l = go_limits(&words("wtime 60000 btime 50000 winc 1000 binc 500"), Color::Black);
    assert_eq!((l.use_clock, l.time, l.inc), (false, -1, -1));
    let l = go_limits(&words("btime 50000 binc 500"), Color::Black);
    assert_eq!((l.use_clock, l.time, l.inc), (true, 50000, 500));

    let l = go_limits(&words("nodes 100 infinite depth 3"), Color::White);
    assert_eq!((l.max_nodes, l.max_depth), (-1, -1));
    let l = go_limits(&words("nodes abc depth 3"), Color::White);
    assert_eq!((l.max_nodes, l.max_depth), (-1, 3));
    let l = go_limits(&words("depth"), Color::White);
    assert_eq!(l.max_depth, -1);
    let l = go_limits(&words("ponder depth 3"), Color::White);
    assert_eq!(l.max_depth, -1);
}

#[test]
fn position_commands() {
    let c = position_command(&words("startpos moves e2e4 e7e5"));
    assert!(matches!(c.source, PositionSource::StartPos));
    assert_eq!(c.moves.iter().map(|m| text(m)).collect::<Vec<_>>(), vec!["e2e4", "e7e5"]);

    let c = position_command(&words("fen 4k3/8/8/8/8/8/8/4K3 w - - 0 1 moves e1e2"));
    match &c.source {
        PositionSource::Fen(f) => assert_eq!(text(f), "4k3/8/8/8/8/8/8/4K3 w - - 0 1"),
        _ => panic!("expected a FEN"),
    }
    assert_eq!(c.moves.len(), 1);

    let c = position_command(&words("fen 4k3/8/8/8/8/8/8/4K3 w -"));
    match &c.source {
        PositionSource::Fen(f) => assert_eq!(text(f), "4k3/8/8/8/8/8/8/4K3 w -"),
        _ => panic!("expected a FEN"),
    }
    assert!(c.moves.is_empty());

    let c = position_command(&words("startpos e2e4"));
    assert!(c.moves.is_empty());
    let c = position_command(&words("nonsense moves e2e4"));
    assert!(matches!(c.source, PositionSource::Invalid));
    assert_eq!(c.moves.len(), 1);
    let c = position_command(&words(""));
    assert!(matches!(c.source, PositionSource::Invalid));
}

#[test]
fn fen_reader_failures() {
    assert!(!Board::fen_reader_fails("rnbqkbnr/pppppppp/8/8/8/8/PPPPPPPP/RNBQKBNR w KQkq - 0 1"));
    // a piece beyond h8 falls off the board
    assert!(Board::fen_reader_fails("8/8/8/8/8/8/8/8k w - - 0 1") || Board::from_fen("8/8/8/8/8/8/8/8k w - - 0 1").is_none());
    assert!(Board::fen_reader_fails("9k/8/8/8/8/8/8/4K3 w - - 0 1"));
    // a two-byte character where the en passant square goes
    assert!(Board::fen_reader_fails("4k3/8/8/8/8/8/8/4K3 w - é 0 1"));
    // no king for the side to move
    assert!(Board::fen_reader_fails("4k3/8/8/8/8/8/8/8 w - - 0 1"));
    // rejected, not failing
    assert!(!Board::fen_reader_fails("4k3/8/8/8/8/8/8/4K3 x - - 0 1"));
    assert!(!Board::fen_reader_fails("4k3/8/8/8/8/8/8/4K3 w - - 0"));
}
