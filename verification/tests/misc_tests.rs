use aquarii::chess::board::Board;
use aquarii::chess::castle_rights::CastleRights;
use aquarii::chess::castling_rooks::{CastlingRooks, RookPair};
use aquarii::chess::chess_move::Move;
use aquarii::history::History;
use aquarii::search::{game_result, mate_score, prove_mate_loss, prove_mate_win, GameResult, MateScore, SearchLimits};
use aquarii::text::{chars_to_string, parse_u8, split_whitespace, str_to_chars, trim_bounds};
use aquarii::tune::{EvalFeature, PolicyFeature};
use aquarii::types::{Color, Square};

#[test]
fn history_gravity() {
    let board = Board::startpos();
    let mv = Move::normal(Square::E2, Square::E4);
    let other = Move::normal(Square::D2, Square::D4);
    let mut hist = History::new();
    assert_eq!(hist.get(&board, mv), 0);
    hist.update_with_bonus(&board, mv, 100);
    assert_eq!(hist.get(&board, mv), 100);
    hist.update_with_bonus(&board, mv, 100);
    // 100 + (100 - 100 * 100 / 8192) = 100 + (100 - 1)
    assert_eq!(hist.get(&board, mv), 199);
    hist.update_with_bonus(&board, mv, -50);
    // 199 + (-50 - 50 * 199 / 8192) = 199 - 50 - 1
    assert_eq!(hist.get(&board, mv), 148);
    assert_eq!(hist.get(&board, other), 0);
    let mut black = board;
    black.make_move(other);
    assert_eq!(hist.get(&black, mv), 0);
    hist.clear();
    assert_eq!(hist.get(&board, mv), 0);
}

#[test]
fn mate_scores() {
    assert_eq!(mate_score(GameResult::Mated, None), Some(MateScore::Loss(0)));
    assert_eq!(mate_score(GameResult::NonTerminal, Some(3)), Some(MateScore::Win(3)));
    assert_eq!(mate_score(GameResult::NonTerminal, Some(-4)), Some(MateScore::Loss(4)));
    assert_eq!(mate_score(GameResult::Drawn, None), None);
}

#[test]
fn mate_proofs() {
    assert_eq!(prove_mate_win(None, 0), (Some(1), Some(1)));
    assert_eq!(prove_mate_win(Some(MateScore::Win(5)), -2), (Some(3), Some(3)));
    assert_eq!(prove_mate_win(Some(MateScore::Win(3)), -4), (None, None));
    assert_eq!(prove_mate_win(Some(MateScore::Loss(2)), -6), (Some(7), Some(7)));

    let all_win = vec![Some(MateScore::Win(1)), Some(MateScore::Win(5)), Some(MateScore::Win(3))];
    assert_eq!(prove_mate_loss(&all_win, None), (Some(-6), Some(-6)));
    assert_eq!(prove_mate_loss(&all_win, Some(MateScore::Loss(4))), (None, None));
    assert_eq!(prove_mate_loss(&all_win, Some(MateScore::Loss(9))), (Some(-6), Some(-6)));
    let open = vec![Some(MateScore::Win(1)), None];
    assert_eq!(prove_mate_loss(&open, None), (None, None));
}

#[test]
fn search_limits() {
    let mut limits = SearchLimits::new();
    assert!(limits.more_iterations(1_000_000));
    assert!(!limits.depth_reached(100));
    assert!(!limits.time_up(1_000_000));
    limits.max_nodes = 10;
    assert!(limits.more_iterations(10));
    assert!(!limits.more_iterations(11));
    limits.max_depth = 5;
    assert!(limits.depth_reached(5));
    assert!(!limits.depth_reached(4));
    limits.use_clock = true;
    limits.time = 10000;
    limits.inc = 100;
    assert!(!limits.time_up(549));
    assert!(limits.time_up(550));
    limits.max_time = 300;
    assert!(limits.time_up(300));
}

#[test]
fn feature_layout() {
    assert_eq!(EvalFeature::total_fts(), 1317);
    assert_eq!(PolicyFeature::total_fts(), 848);
    assert_eq!(EvalFeature::Material.ft_offset(), 0);
    assert_eq!(EvalFeature::Material.ft_cnt(), 12);
    assert_eq!(EvalFeature::Psqt.ft_offset(), 12);
    assert_eq!(EvalFeature::Tempo.ft_offset() + EvalFeature::Tempo.ft_cnt(), 1317);
    assert_eq!(EvalFeature::TOTAL_FEATURES, 19);
    assert_eq!(PolicyFeature::CapBonus.ft_offset(), 0);
    assert_eq!(PolicyFeature::CheckBonus.ft_offset() + PolicyFeature::CheckBonus.ft_cnt(), 848);
    assert_eq!(PolicyFeature::TOTAL_FEATURES, 9);
}

#[test]
fn castle_rights_text() {
    let r = CastleRights::white_king_side().bit_or(CastleRights::black_queen_side());
    assert_eq!(r.to_string(), "Kq");
    assert!(r.has(CastleRights::white_king_side()));
    assert!(!r.has(CastleRights::white_queen_side()));
    assert_eq!(CastleRights::none().to_string(), "");
    assert_eq!(r.bit_and(CastleRights::black_queen_side()), CastleRights::black_queen_side());
}

#[test]
fn castling_rooks() {
    let mut rooks = CastlingRooks::new(Square::H1, Square::A1, Square::H8, Square::A8, false);
    assert_eq!(rooks.to_string(), "KQkq");
    rooks.color_mut(Color::White).remove(Square::H1);
    assert_eq!(rooks.to_string(), "Qkq");
    rooks.color_mut(Color::Black).remove_both();
    assert_eq!(rooks.to_string(), "Q");
    assert_eq!(CastlingRooks::empty().to_string(), "-");
    assert_eq!(CastlingRooks::king_to(true, Color::White), Square::G1);
    assert_eq!(CastlingRooks::king_to(false, Color::Black), Square::C8);
    assert_eq!(CastlingRooks::rook_to(true, Color::Black), Square::F8);
    assert_eq!(CastlingRooks::rook_to(false, Color::White), Square::D1);
    let pair = RookPair { king_side: None, queen_side: Some(Square::A8) };
    rooks.set_color(Color::Black, pair);
    assert_eq!(*rooks.color(Color::Black), pair);
    assert_eq!(Board::startpos().castling_rooks().to_string(), "KQkq");
}

#[test]
fn text_helpers() {
    let chars = str_to_chars("  12 ab\tc ");
    assert_eq!(trim_bounds(&chars), (2, 9));
    let parts = split_whitespace(&chars);
    assert_eq!(parts.len(), 3);
    assert_eq!(chars_to_string(&parts[1]), "ab");
    assert_eq!(parse_u8(&parts[0]), Some(12));
    assert_eq!(parse_u8(&str_to_chars("255")), Some(255));
    assert_eq!(parse_u8(&str_to_chars("256")), None);
    assert_eq!(parse_u8(&str_to_chars("1x")), None);
    assert_eq!(parse_u8(&str_to_chars("")), None);
}

#[test]
fn game_results() {
    // black's king and pawns are boxed in and have no move at all
    let mated = Board::from_fen("K7/8/8/8/8/8/5Npp/6pk b - - 0 1").unwrap();
    assert_eq!(game_result(&mated, false), GameResult::Mated);
    let stalemate = Board::from_fen("K7/8/8/8/8/8/6pp/6pk b - - 0 1").unwrap();
    assert_eq!(game_result(&stalemate, false), GameResult::Drawn);
    let start = Board::startpos();
    assert_eq!(game_result(&start, false), GameResult::NonTerminal);
    assert_eq!(game_result(&start, true), GameResult::Drawn);
}
