use chess_engine::bot::{accepts_challenge, BotAction, BotSession, GameEvent};
use chess_engine::castle_sides::CastleSides;
use chess_engine::chess_game::ChessGame;
use chess_engine::chess_move::Move;
use chess_engine::color::Color;
use chess_engine::coord::Coord;
use chess_engine::fen::fen_is_readable;
use chess_engine::search::keep_deepening;
use chess_engine::helpers::str_coord_to_square;
use chess_engine::piece_type::PieceType;
use chess_engine::runtime_calculated_constants::{
    dynamic_bishop_attacks, dynamic_rook_attacks, mask_bishop_attacks, mask_rook_attacks, Constants,
};

const START: &str = "rnbqkbnr/pppppppp/8/8/8/8/PPPPPPPP/RNBQKBNR w KQkq - 0 1";

fn game_from<'a>(c: &'a Constants, fen: &str) -> ChessGame<'a> {
    let mut g = ChessGame::new(c);
    g.import_fen(fen).expect("valid FEN");
    g.set_legal_moves(None);
    g
}

fn find<'a>(moves: &'a [Move], text: &str) -> Option<&'a Move> {
    moves.iter().find(|m| m.move_to_str() == text)
}

#[test]
fn start_position_has_twenty_moves() {
    let c = Constants::new();
    let g = game_from(&c, START);
    assert_eq!(g.legal_moves.len(), 20);
}

#[test]
fn reply_to_first_move_has_twenty_moves() {
    let c = Constants::new();
    let mut g = game_from(&c, START);
    let m = *find(&g.legal_moves, "e2e4").expect("e2e4 is legal");
    g.make_move(&m, true);
    assert!(!g.white_to_move);
    assert_eq!(g.legal_moves.len(), 20);
    assert_eq!(g.en_passant_target, Some(44));
}

#[test]
fn export_of_start_position() {
    let c = Constants::new();
    let g = game_from(&c, START);
    assert_eq!(g.export_fen(), "rnbqkbnr/pppppppp/8/8/8/8/PPPPPPPP/RNBQKBNR w KQkq -");
}

#[test]
fn export_after_import_round_trip() {
    let c = Constants::new();
    let fens = [
        "r3k2r/8/8/8/8/8/8/R3K2R w KQkq -",
        "rnbqkbnr/ppp1p1pp/8/3pPp2/8/8/PPPP1PPP/RNBQKBNR w KQkq f6",
        "8/P7/8/8/8/8/8/k6K w - -",
        "7k/5Q2/6K1/8/8/8/8/8 b - -",
    ];
    for fen in fens.iter() {
        let g = game_from(&c, fen);
        assert_eq!(&g.export_fen(), fen);
    }
}

#[test]
fn make_then_unmake_restores_every_position() {
    let c = Constants::new();
    let fens = [
        START,
        "r3k2r/8/8/8/8/8/8/R3K2R w KQkq - 0 1",
        "rnbqkbnr/ppp1p1pp/8/3pPp2/8/8/PPPP1PPP/RNBQKBNR w KQkq f6 0 3",
        "r3k2r/1P6/8/8/8/8/6p1/R3K2R b KQkq - 0 1",
    ];
    for fen in fens.iter() {
        let mut g = game_from(&c, fen);
        let before_fen = g.export_fen();
        let before_hash = g.zobrist_hash;
        let before_boards = g.piece_bitboards;
        let before_occ = g.occupancy_bitboards;
        let moves = g.legal_moves.clone();
        for m in moves.iter() {
            g.make_move(m, false);
            g.unmake_move(m);
            assert_eq!(g.export_fen(), before_fen);
            assert_eq!(g.zobrist_hash, before_hash);
            assert_eq!(g.piece_bitboards, before_boards);
            assert_eq!(g.occupancy_bitboards, before_occ);
        }
    }
}

#[test]
fn castling_moves_are_offered_and_move_the_rook() {
    let c = Constants::new();
    let mut g = game_from(&c, "r3k2r/8/8/8/8/8/8/R3K2R w KQkq - 0 1");
    let short = *find(&g.legal_moves, "e1g1").expect("short castling");
    assert_eq!(short.castle_side, Some(CastleSides::Short));
    assert!(find(&g.legal_moves, "e1c1").is_some());
    g.make_move(&short, true);
    assert_eq!(g.export_fen(), "r3k2r/8/8/8/8/8/8/R4RK1 b kq -");
}

#[test]
fn castling_through_attack_is_not_offered() {
    let c = Constants::new();
    let g = game_from(&c, "r3k2r/8/8/8/8/8/5r2/R3K2R w KQkq - 0 1");
    assert!(find(&g.legal_moves, "e1g1").is_none());
}

#[test]
fn en_passant_capture_is_generated_and_made() {
    let c = Constants::new();
    let mut g = game_from(&c, "rnbqkbnr/ppp1p1pp/8/3pPp2/8/8/PPPP1PPP/RNBQKBNR w KQkq f6 0 3");
    let ep = *find(&g.legal_moves, "e5f6").expect("en passant");
    assert!(ep.is_en_passant_capture);
    assert_eq!(ep.to_piece_type, Some(PieceType::Pawn));
    g.make_move(&ep, true);
    assert_eq!(g.export_fen(), "rnbqkbnr/ppp1p1pp/5P2/3p4/8/8/PPPP1PPP/RNBQKBNR b KQkq -");
}

#[test]
fn promotions_offer_four_pieces() {
    let c = Constants::new();
    let g = game_from(&c, "8/P7/8/8/8/8/8/k6K w - - 0 1");
    for promo in ["a7a8q", "a7a8r", "a7a8b", "a7a8n"].iter() {
        assert!(find(&g.legal_moves, promo).is_some(), "missing {promo}");
    }
    assert!(find(&g.legal_moves, "a7a8").is_none());
}

#[test]
fn fools_mate_is_checkmate() {
    let c = Constants::new();
    let g = game_from(&c, "rnb1kbnr/pppp1ppp/8/4p3/6Pq/5P2/PPPPP2P/RNBQKBNR w KQkq - 1 3");
    assert_eq!(g.legal_moves.len(), 0);
    assert!(g.is_checkmate());
    assert!(!g.is_stalemate());
    assert!(g.is_king_attacked(&Color::White));
}

#[test]
fn cornered_king_is_stalemated() {
    let c = Constants::new();
    let g = game_from(&c, "7k/5Q2/6K1/8/8/8/8/8 b - - 0 1");
    assert_eq!(g.legal_moves.len(), 0);
    assert!(g.is_stalemate());
    assert!(!g.is_checkmate());
}

#[test]
fn pinned_piece_cannot_move() {
    let c = Constants::new();
    let g = game_from(&c, "4r1k1/8/8/8/8/8/4N3/4K3 w - - 0 1");
    assert!(g.legal_moves.iter().all(|m| m.from_square != 52));
}

#[test]
fn checking_moves_are_marked_and_sorted_first() {
    let c = Constants::new();
    let g = game_from(&c, "6k1/5ppp/8/8/8/8/8/R5K1 w - - 0 1");
    let mate = find(&g.legal_moves, "a1a8").expect("a1a8");
    assert_eq!(mate.is_check, Some(true));
    assert_eq!(g.legal_moves[0].is_check, Some(true));
}

#[test]
fn minimax_finds_mate_in_one() {
    let c = Constants::new();
    let mut g = game_from(&c, "6k1/5ppp/8/8/8/8/8/R5K1 w - - 0 1");
    let moves_before = g.legal_moves.clone();
    let fen_before = g.export_fen();
    let (value, best) = g.minimax(2, i64::MIN, i64::MAX);
    assert_eq!(value, i64::MAX);
    assert_eq!(best.expect("a move").move_to_str(), "a1a8");
    assert_eq!(g.export_fen(), fen_before);
    assert_eq!(g.legal_moves.len(), moves_before.len());
    assert!(g.transposition_table.len() > 0);
}

#[test]
fn minimax_at_depth_zero_is_the_evaluation() {
    let c = Constants::new();
    let mut g = game_from(&c, "k7/8/8/8/3Q4/8/8/7K w - - 0 1");
    assert_eq!(g.minimax(0, i64::MIN, i64::MAX), (955, None));
}

#[test]
fn minimax_debug_agrees_on_mate_in_one() {
    let c = Constants::new();
    let mut g = game_from(&c, "6k1/5ppp/8/8/8/8/8/R5K1 w - - 0 1");
    let (value, best) = g.minimax_debug(2, i64::MIN, i64::MAX);
    assert_eq!(value, i64::MAX);
    assert_eq!(best.expect("a move").move_to_str(), "a1a8");
    assert!(g.debug_mimimax_moves_made.is_empty());
}

#[test]
fn evaluation_counts_material_and_squares() {
    let c = Constants::new();
    assert_eq!(game_from(&c, "k7/8/8/8/8/8/8/7K w - - 0 1").evaluate_board(), 50);
    assert_eq!(game_from(&c, "k7/8/8/8/3Q4/8/8/7K w - - 0 1").evaluate_board(), 955);
    assert_eq!(game_from(&c, "k7/4p3/8/8/8/8/8/7K w - - 0 1").evaluate_board(), 50 - 80);
}

#[test]
fn choose_move_fills_in_the_details() {
    let c = Constants::new();
    let mut g = game_from(&c, "rnbqkbnr/ppp1p1pp/8/3pPp2/8/8/PPPP1PPP/RNBQKBNR w KQkq f6 0 3");
    let raw = Move::str_to_move("e5f6").unwrap();
    let chosen = g.choose_move_from_legal_move(&raw).expect("legal");
    assert!(chosen.is_en_passant_capture);
    assert_eq!(chosen.from_piece_type, Some(PieceType::Pawn));
    assert!(g.choose_move_from_legal_move(&Move::str_to_move("e5e7").unwrap()).is_none());
}

#[test]
fn sorted_moves_have_increasing_keys() {
    let c = Constants::new();
    let mut g = game_from(&c, "r3k2r/1P6/8/8/8/8/6p1/R3K2R w KQkq - 0 1");
    let mut moves = g.get_psuedo_legal_moves();
    let n = moves.len();
    g.sort_moves(&mut moves);
    assert_eq!(moves.len(), n);
    let key = |m: &Move| {
        let mut k = 0i64;
        if m.is_check == Some(true) { k -= 10; }
        if m.to_piece_type.is_some() { k -= 5; }
        if g.is_square_attacked(m.to_square, &Color::White) { k -= 2; }
        if g.is_square_attacked(m.to_square, &Color::Black) { k += 2; }
        if g.is_square_attacked(m.from_square, &Color::Black) { k -= 2; }
        k
    };
    for w in moves.windows(2) {
        assert!(key(&w[0]) <= key(&w[1]));
    }
}

#[test]
fn import_fen_reports_errors() {
    let c = Constants::new();
    let mut g = ChessGame::new(&c);
    assert!(g.import_fen("rnbqkbnr/pppppppp/9/8/8/8/PPPPPPPP/RNBQKBNR w").is_err());
    assert!(g.import_fen("rnbqkbnr/pppppppp/8/8/8/8/PPPPPPPP/RNBQKBNX w").is_err());
    assert!(g.import_fen("rnbqkbnr/ppppppp/8/8/8/8/PPPPPPPP/RNBQKBNR w").is_err());
    assert!(g.import_fen("rnbqkbnr/pppppppp/8/8/8/8/PPPPPPPP w").is_err());
    assert!(g.import_fen("rnbqkbnr/pppppppp/8/8/8/8/PPPPPPPP/RNBQKBNR").is_err());
    assert!(g.import_fen("rnbqkbnr/pppppppp/8/8/8/8/PPPPPPPP/RNBQKBNR x").is_err());
    assert!(g.import_fen("  rnbqkbnr/pppppppp/8/8/8/8/PPPPPPPP/RNBQKBNR B  ").is_ok());
    assert!(!g.white_to_move);
}

#[test]
fn import_fen_keeps_rights_when_the_text_stops() {
    let c = Constants::new();
    let mut g = ChessGame::new(&c);
    g.import_fen("4k3/8/8/8/8/8/8/4K3 w").unwrap();
    assert!(g.can_white_castle_short && g.can_black_castle_long);
    g.import_fen("4k3/8/8/8/8/8/8/4K3 w Kq e3").unwrap();
    assert!(g.can_white_castle_short && !g.can_white_castle_long);
    assert!(!g.can_black_castle_short && g.can_black_castle_long);
    assert_eq!(g.en_passant_target, Some(44));
}

#[test]
fn hash_depends_on_side_to_move_and_rights() {
    let c = Constants::new();
    let a = game_from(&c, "4k3/8/8/8/8/8/8/4K3 w - - 0 1");
    let b = game_from(&c, "4k3/8/8/8/8/8/8/4K3 b - - 0 1");
    assert_eq!(a.zobrist_hash ^ b.zobrist_hash, c.zobrist_to_move);
    let d = game_from(&c, "4k3/8/8/8/8/8/8/4K3 w K - 0 1");
    assert_eq!(a.zobrist_hash ^ d.zobrist_hash, c.zobrist_castling_rights[0]);
}

fn play_and_compare_hashes(fen: &str, line: &[&str]) {
    let c = Constants::new();
    let mut g = game_from(&c, fen);
    for text in line {
        let m = *find(&g.legal_moves, text).expect("move is legal");
        g.make_move(&m, true);
        let fresh = game_from(&c, &g.export_fen());
        assert_eq!(g.zobrist_hash, fresh.zobrist_hash, "hash differs after {text}");
    }
}

#[test]
fn hash_after_moves_matches_hash_of_fresh_import() {
    play_and_compare_hashes(
        START,
        &["e2e4", "d7d5", "e4d5", "c7c5", "d5c6", "g8f6", "g1f3", "e7e6", "f1c4", "f8e7", "e1g1", "e8g8"],
    );
    play_and_compare_hashes("r3k2r/6P1/8/8/8/8/8/R3K2R w KQkq - 0 1", &["g7h8n", "e8c8", "e1g1"]);
}

#[test]
fn parse_errors_name_the_problem() {
    assert_eq!(str_coord_to_square("e44"), Err("Invalid input detected. Expected 2 chars. Got: `3`.".to_string()));
    assert_eq!(str_coord_to_square("Z1"), Err("Invalid file letter: z".to_string()));
    assert_eq!(str_coord_to_square("a9"), Err("Invalid rank digit: 9".to_string()));
    assert_eq!(str_coord_to_square("ax"), Err("Unable to convert `x` to a digit.".to_string()));
    assert_eq!(Move::str_to_move("e2"), Err("Invalid input detected. Expected 4 or 5 chars. Got: `2`.".to_string()));
    assert_eq!(Move::str_to_move("e2i4"), Err("Invalid file letter: i".to_string()));
    assert_eq!(
        Move::str_to_move("e7e8x"),
        Err("Unexpected character. Cannot convert character `x` to piece type.".to_string())
    );
}

#[test]
fn imported_hash_is_the_hash_from_scratch() {
    let c = Constants::new();
    let g = game_from(&c, "4k3/8/8/8/8/8/8/4K3 b Kq e3 0 1");
    let expected = c.zobrist_table[5][60]
        ^ c.zobrist_table[11][4]
        ^ c.zobrist_to_move
        ^ c.zobrist_castling_rights[0]
        ^ c.zobrist_castling_rights[3]
        ^ c.zobrist_en_passant[4];
    assert_eq!(g.zobrist_hash, expected);
}

#[test]
fn coordinates_read_and_print() {
    let c = Coord::str_to_coord("E4").unwrap();
    assert_eq!((c.x, c.y), (4, 4));
    assert_eq!(c.coord_str(), "e4");
    assert_eq!(Coord { x: 0, y: 0 }.coord_str(), "a8");
    assert_eq!(Coord::str_to_coord("e"), Err("Invalid input detected. Expected 2 chars. Got: `1`.".to_string()));
    assert_eq!(Coord::str_to_coord("j4"), Err("Invalid file letter: j".to_string()));
    assert_eq!(Coord::str_to_coord("ex"), Err("Unable to convert `x` to a digit.".to_string()));
    assert_eq!(Coord::str_to_coord("e9"), Err("Digit referenced `9` is outside board size 8.".to_string()));
}

#[test]
fn import_errors_name_the_problem() {
    let c = Constants::new();
    let mut g = ChessGame::new(&c);
    let cases = [
        ("rnbqkbnr/pppppppp/8/8/8/8/PPPPPPPP/RNBQKBNX w", "Unexpected piece letter X"),
        ("rnbqkbnr/ppppppp/8/8/8/8/PPPPPPPP/RNBQKBNR w", "Board must have exactly 8 columns. We parsed: 7"),
        ("rnbqkbnr/pppppppp/8/8/8/8/PPPPPPPP w", "Board must have exactly 8 rows. We parsed: 7"),
        ("rnbqkbnr/pppppppp/9/8/8/8/PPPPPPPP/RNBQKBNR w", "Invalid number of empty spaces: 9"),
        ("rnbqkbnr/pppppppp/8/8/8/8/PPPPPPPP/RNBQKBNR", "Unsure whose turn it is. Cannot proceed."),
        (
            "rnbqkbnr/pppppppp/8/8/8/8/PPPPPPPP/RNBQKBNR x",
            "Unexpected character for whose turn it is: x. Should be 'w' or 'b'.",
        ),
    ];
    for (fen, message) in cases.iter() {
        assert_eq!(g.import_fen(fen), Err(message.to_string()), "reading {fen}");
    }
}

#[test]
fn failed_import_keeps_the_board_read_so_far() {
    let c = Constants::new();
    let mut g = ChessGame::new(&c);
    assert!(g.import_fen("4k3/8/8/8/8/8/8/4K3").is_err());
    assert_eq!(g.export_fen(), "4k3/8/8/8/8/8/8/4K3 w KQkq -");
    assert_eq!(g.zobrist_hash, c.zobrist_table[5][60] ^ c.zobrist_table[11][4]);
}

#[test]
fn whitelist_decides_challenges() {
    let list = vec!["alice".to_string(), "bob".to_string()];
    assert!(accepts_challenge("bob", &list));
    assert!(!accepts_challenge("carol", &list));
    assert!(!accepts_challenge("Bob", &list));
    assert!(!accepts_challenge("bob", &Vec::new()));
}

#[test]
fn playability_is_checked_at_run_time() {
    let c = Constants::new();
    assert!(c.tables_are_correct());
    let g = game_from(&c, START);
    assert!(g.is_playable() && g.occupancy_is_consistent());
    let mut empty = ChessGame::new(&c);
    assert!(!empty.is_playable());
    empty.import_fen("4k3/8/8/8/8/8/8/4K3 w KQkq - 0 1").unwrap();
    assert!(!empty.is_playable());
    empty.import_fen("4k3/8/8/8/8/8/8/4K3 w - - 0 1").unwrap();
    assert!(empty.is_playable());
    empty.import_fen("4k3/8/8/8/8/8/8/4K3 b - - 0 1").unwrap();
    assert!(empty.is_playable());
    empty.import_fen("4k3/8/8/8/8/8/4R3/4K3 w - - 0 1").unwrap();
    assert!(!empty.is_playable());
    assert!(fen_is_readable(START));
    assert!(!fen_is_readable("rnbqkbnr/pppppppp/8/8/8/8/PPPPPPPP/RNBQKBNR/p w"));
}

fn full(initial: &str, white: &str, status: &str) -> GameEvent {
    GameEvent::Full { initial_fen: initial.to_string(), white_id: white.to_string(), status: status.to_string() }
}

fn state(moves: &str, status: &str) -> GameEvent {
    GameEvent::State { moves: moves.to_string(), status: status.to_string() }
}

#[test]
fn bot_follows_a_game() {
    let c = Constants::new();
    let mut g = ChessGame::new(&c);
    let mut s = BotSession { is_bot_white: true, status: String::new() };
    assert!(matches!(g.next_action(&mut s, "bot", START, GameEvent::KeepAlive), BotAction::Wait));
    let chat = GameEvent::Chat { text: "debug".to_string() };
    assert!(matches!(g.next_action(&mut s, "bot", START, chat), BotAction::ReportDebug));
    assert!(matches!(g.next_action(&mut s, "bot", START, full("startpos", "human", "started")), BotAction::Wait));
    assert!(!s.is_bot_white);
    assert_eq!(g.export_fen(), "rnbqkbnr/pppppppp/8/8/8/8/PPPPPPPP/RNBQKBNR w KQkq -");
    assert!(matches!(g.next_action(&mut s, "bot", START, state("", "started")), BotAction::Wait));
    assert!(matches!(g.next_action(&mut s, "bot", START, state("e2e4", "resign")), BotAction::Stop));
    assert_eq!(s.status, "resign");
    assert_eq!(g.export_fen(), "rnbqkbnr/pppppppp/8/8/4P3/8/PPPP1PPP/RNBQKBNR b KQkq e3");
    assert!(matches!(g.next_action(&mut s, "bot", START, state("e2e4 e7e5 e1e3", "started")), BotAction::Stop));
}

#[test]
fn bot_leaves_games_it_cannot_play() {
    let c = Constants::new();
    let mut g = ChessGame::new(&c);
    let mut s = BotSession { is_bot_white: false, status: String::new() };
    let e = full("rnbqkbnr/8/8/8/8/8/8/RNBQKBNR w - - 0 1", "bot", "started");
    assert!(matches!(g.next_action(&mut s, "bot", START, e), BotAction::Stop));
    assert!(!s.is_bot_white);
    let e = full("startpos", "bot", "started");
    assert!(matches!(g.next_action(&mut s, "bot", "8/8/8/8/8/8/8/8 w", e), BotAction::Stop));
    assert!(s.is_bot_white);
}

#[test]
fn slider_attacks_depend_only_on_the_relevance_mask() {
    use_masks_on(27, 0x0000_2400_0024_0042);
    use_masks_on(0, 0xFFFF_0000_0000_FFFF);
    use_masks_on(63, 0x8142_2418_1824_4281);
}

fn use_masks_on(square: u64, occupancy: u64) {
    assert_eq!(
        dynamic_bishop_attacks(square, occupancy),
        dynamic_bishop_attacks(square, occupancy & mask_bishop_attacks(square))
    );
    assert_eq!(
        dynamic_rook_attacks(square, occupancy),
        dynamic_rook_attacks(square, occupancy & mask_rook_attacks(square))
    );
}

#[test]
fn parsers_count_lengths_in_bytes() {
    assert_eq!(str_coord_to_square("a\u{e9}"), Err("Invalid input detected. Expected 2 chars. Got: `3`.".to_string()));
    assert_eq!(
        Move::str_to_move("\u{e9}e2e4"),
        Err("Invalid input detected. Expected 4 or 5 chars. Got: `6`.".to_string())
    );
    assert_eq!(
        Coord::str_to_coord("\u{e9}1"),
        Err("Invalid input detected. Expected 2 chars. Got: `3`.".to_string())
    );
}

#[test]
fn deepening_stops_at_the_time_limit() {
    assert!(keep_deepening(0, 1));
    assert!(keep_deepening(4_999, 7));
    assert!(!keep_deepening(5_000, 7));
    assert!(!keep_deepening(10, u32::MAX));
}

#[test]
fn depth_one_search_is_the_best_evaluation_and_counts_its_calls() {
    let c = Constants::new();
    let mut g = game_from(&c, START);
    let moves = g.legal_moves.clone();
    let mut best = i64::MIN;
    for m in moves.iter() {
        g.make_move(m, false);
        let e = g.evaluate_board();
        if e > best {
            best = e;
        }
        g.unmake_move(m);
    }
    let before = g.debug_minimax_calls;
    let (value, chosen) = g.minimax(1, i64::MIN, i64::MAX);
    assert_eq!(value, best);
    assert!(chosen.is_some());
    assert_eq!(g.debug_minimax_calls, before + 21);
}

#[test]
fn depth_two_search_is_the_minimax_value() {
    let c = Constants::new();
    let fen = "4k3/8/8/3p4/4P3/8/8/4K3 w - - 0 1";
    let mut g = game_from(&c, fen);
    let moves = g.legal_moves.clone();
    let mut best = i64::MIN;
    for m in moves.iter() {
        g.make_move(m, true);
        let replies = g.legal_moves.clone();
        let mut worst = i64::MAX;
        for r in replies.iter() {
            g.make_move(r, false);
            let e = g.evaluate_board();
            if e < worst {
                worst = e;
            }
            g.unmake_move(r);
        }
        g.unmake_move(m);
        g.set_legal_moves(None);
        if worst > best {
            best = worst;
        }
    }
    let mut fresh = game_from(&c, fen);
    let (value, _) = fresh.minimax(2, i64::MIN, i64::MAX);
    assert_eq!(value, best);
}
