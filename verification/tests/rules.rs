use chess_engine::board_config::{BigVariant, RegularVariant};
use chess_engine::chess_board::{Chessboard, CurrentPlayer, GameStatus, MoveLegality};
use chess_engine::chess_move::{MoveFlag, MoveTrait, RegularMove};
use chess_engine::evaluator_name::{choose_evaluator, EvaluatorChoice, EvaluatorNameError};
use chess_engine::game_controller::{GameController, PerftError, PlayError};
use chess_engine::piece::{Piece, PieceType};
use chess_engine::queen::Queen;
use chess_engine::uci::{parse, parse_for, Command, GoVariant, ParseError, SearchLimits};

fn fen_error(fen: &str) -> String {
    match Chessboard::<RegularVariant>::from_fen(fen) {
        Ok(_) => panic!("expected {fen} to be refused"),
        Err(e) => e,
    }
}

#[test]
fn fen_errors_name_the_fault() {
    assert_eq!(fen_error("8/8/8 w -"), "Invalid FEN");
    assert_eq!(fen_error("8/8/8/8/8/8/8 w - -"), "Incorrect number of ranks");
    assert_eq!(fen_error("8p/8/8/8/8/8/8/8 w - -"), "Rank is too wide");
    assert_eq!(fen_error("x7/8/8/8/8/8/8/8 w - -"), "Invalid char");
    assert_eq!(fen_error("7/8/8/8/8/8/8/8 w - -"), "Rank has incorrect width");
    assert_eq!(fen_error("8/8/8/8/8/8/8/8 x - -"), "Invalid color");
    assert_eq!(fen_error("8/8/8/8/8/8/8/8 w - - many 1"), "Invalid halfmove clock");
}

#[test]
fn fen_reads_state_fields() {
    let board = Chessboard::<RegularVariant>::from_fen("4k3/8/8/3pP3/8/8/8/4K2R w K d6 12 30").unwrap();
    assert_eq!(board.current_player(), CurrentPlayer::White);
    assert_eq!(board.en_passant_square(), Some(19));
    assert_eq!(board.halfmove_clock(), 12);
    assert_eq!(board.castling_rights(), (1u128 << 60) | (1u128 << 63));
    assert_eq!(board.piece_at(63), Piece::White(PieceType::Rook(chess_engine::rook::Rook)));
    assert_eq!(board.piece_at(4), Piece::Black(PieceType::King(chess_engine::king::King)));
    assert_eq!(board.piece_at(0), Piece::Empty);
    assert_eq!(board.repetition_count(), 1);
}

#[test]
fn start_position_has_twenty_moves_and_each_is_legal() {
    let mut board = Chessboard::<RegularVariant>::regular_board();
    let before = board.clone();
    let moves = board.generate_moves().unwrap();
    assert_eq!(moves.len(), 20);
    for m in moves {
        assert_eq!(board.is_move_legal(m), MoveLegality::Legal);
        assert_eq!(board.apply_move_checked(m), MoveLegality::Legal);
        assert_eq!(board.current_player(), CurrentPlayer::Black);
        board.undo_move();
        assert_eq!(board, before);
    }
}

#[test]
fn pinned_piece_cannot_leave_the_pin() {
    // The White knight on e2 is pinned by the rook on e8.
    let mut board = Chessboard::<RegularVariant>::from_fen("4r2k/8/8/8/8/8/4N3/4K3 w - - 0 1").unwrap();
    let moves = board.generate_moves().unwrap();
    assert!(moves.iter().all(|m| m.from() != 52));
    let knight_move = RegularMove::new(52, 35, MoveFlag::Quiet, PieceType::Empty);
    assert_eq!(board.is_move_semilegal(knight_move), MoveLegality::SemiLegal);
    assert_eq!(board.is_move_legal(knight_move), MoveLegality::IllegalOther);
    assert_eq!(board.apply_move_checked(knight_move), MoveLegality::IllegalOther);
    let nowhere = RegularMove::new(52, 53, MoveFlag::Quiet, PieceType::Empty);
    assert_eq!(board.is_move_semilegal(nowhere), MoveLegality::IllegalOther);
}

#[test]
fn checkmate_and_stalemate_are_reported() {
    let mut mated = Chessboard::<RegularVariant>::from_fen("7k/6Q1/6K1/8/8/8/8/8 b - - 0 1").unwrap();
    assert_eq!(mated.generate_moves(), Err(GameStatus::Won(CurrentPlayer::White)));
    let mut stalemate = Chessboard::<RegularVariant>::from_fen("7k/5Q2/6K1/8/8/8/8/8 b - - 0 1").unwrap();
    assert_eq!(stalemate.generate_moves(), Err(GameStatus::DrawStalemate));
    let mut fifty = Chessboard::<RegularVariant>::from_fen("4k3/8/8/8/8/8/8/4K2R w - - 100 80").unwrap();
    assert_eq!(fifty.generate_moves(), Err(GameStatus::DrawStalemate));
}

#[test]
fn en_passant_capture_removes_the_passed_pawn() {
    let mut board = Chessboard::<RegularVariant>::from_fen("4k3/8/8/3pP3/8/8/8/4K3 w - d6 0 1").unwrap();
    let moves = board.generate_moves().unwrap();
    let ep = moves.into_iter().find(|m| m.flag() == MoveFlag::EnPassant).unwrap();
    assert_eq!((ep.from(), ep.to()), (28, 19));
    board.apply_move(ep).unwrap();
    assert_eq!(board.piece_at(27), Piece::Empty);
    assert_eq!(board.piece_at(19), Piece::White(PieceType::Pawn(chess_engine::pawn::Pawn)));
    assert_eq!(board.halfmove_clock(), 0);
}

#[test]
fn controller_reads_algebraic_notation() {
    let mut game = GameController::<RegularVariant>::new();
    let m = game.parse_chess_notation("e4").unwrap();
    assert_eq!((m.from(), m.to(), m.flag()), (52, 36, MoveFlag::Quiet));
    let m = game.parse_chess_notation("  Nf3 ").unwrap();
    assert_eq!((m.from(), m.to()), (62, 45));
    assert_eq!(
        game.parse_chess_notation("Qh5"),
        Err("No piece of that type can move to the destination square in 'Qh5'".to_string())
    );
    assert_eq!(game.parse_chess_notation("O-O"), Err("Castling move is illegal in this position".to_string()));
    assert_eq!(game.parse_chess_notation("e"), Err("Invalid chess notation: too short ('e')".to_string()));
    assert_eq!(
        game.parse_chess_notation("e9"),
        Err("Invalid chess notation: invalid destination square".to_string())
    );
    assert_eq!(
        game.parse_chess_notation("e8=K"),
        Err("Invalid promotion piece: K".to_string())
    );
}

#[test]
fn controller_reads_castling_promotion_and_disambiguation() {
    let mut game = GameController::<RegularVariant>::from_fen("r3k2r/8/8/8/8/8/8/R3K2R w KQkq - 0 1").unwrap();
    let m = game.parse_chess_notation("O-O").unwrap();
    assert_eq!((m.from(), m.to(), m.flag()), (60, 62, MoveFlag::Castling));
    let m = game.parse_chess_notation("O-O-O").unwrap();
    assert_eq!((m.from(), m.to(), m.flag()), (60, 58, MoveFlag::Castling));
    assert_eq!(
        game.parse_chess_notation("Rd1"),
        Ok(RegularMove::new(56, 59, MoveFlag::Quiet, PieceType::Empty))
    );
    assert_eq!(
        game.parse_chess_notation("Rf1"),
        Ok(RegularMove::new(63, 61, MoveFlag::Quiet, PieceType::Empty))
    );
    let mut game = GameController::<RegularVariant>::from_fen("k7/8/8/8/8/8/8/R3K2R w - - 0 1").unwrap();
    assert_eq!(
        game.parse_chess_notation("Rb1"),
        Ok(RegularMove::new(56, 57, MoveFlag::Quiet, PieceType::Empty))
    );
    let mut game = GameController::<RegularVariant>::from_fen("k7/8/8/8/8/8/8/R5RK w - - 0 1").unwrap();
    assert_eq!(
        game.parse_chess_notation("Rc1"),
        Err("Ambiguous move 'Rc1'. Multiple pieces can move there.".to_string())
    );
    assert_eq!(
        game.parse_chess_notation("Rac1"),
        Ok(RegularMove::new(56, 58, MoveFlag::Quiet, PieceType::Empty))
    );
    assert_eq!(
        game.parse_chess_notation("Rbc1"),
        Err("No valid move found matching the disambiguator 'b'".to_string())
    );
    let mut game = GameController::<RegularVariant>::from_fen("7k/P7/8/8/8/8/8/K7 w - - 0 1").unwrap();
    assert_eq!(
        game.parse_chess_notation("a8=Q"),
        Ok(RegularMove::new(8, 0, MoveFlag::Promotion, PieceType::Queen(Queen)))
    );
    assert_eq!(
        game.parse_chess_notation("a8N"),
        Ok(RegularMove::new(8, 0, MoveFlag::Promotion, PieceType::Knight(chess_engine::knight::Knight)))
    );
}

#[test]
fn controller_writes_coordinates() {
    let game = GameController::<RegularVariant>::new();
    assert_eq!(game.to_chess_notation(60u16), "e1");
    assert_eq!(game.to_chess_notation(0u16), "a8");
    assert_eq!(game.current_player(), "White");
    let m = RegularMove::new(12, 4, MoveFlag::Promotion, PieceType::Queen(Queen));
    assert_eq!(GameController::<RegularVariant>::move_to_uci(&m), "e7e8q");
    let m = RegularMove::new(52, 36, MoveFlag::DoublePawnPush, PieceType::Empty);
    assert_eq!(GameController::<RegularVariant>::move_to_uci(&m), "e2e4");
    assert_eq!(GameController::<BigVariant>::height(), 12);
    let board = Chessboard::<RegularVariant>::regular_board();
    // The board numbers rows from its top row upwards here.
    assert_eq!(board.to_chess_notation(63u8), "h8");
    assert_eq!(board.to_chess_notation(0u8), "a1");
}

#[test]
fn controller_plays_and_takes_back_uci_moves() {
    let mut game = GameController::<RegularVariant>::new();
    let before = game.chessboard().clone();
    let m = game.from_uci("e2e4").unwrap();
    assert_eq!((m.from(), m.to(), m.flag()), (52, 36, MoveFlag::DoublePawnPush));
    assert_eq!(game.move_piece(m), MoveLegality::Legal);
    assert_eq!(game.current_player(), "Black");
    assert_eq!(game.chessboard().en_passant_square(), Some(44));
    assert!(game.from_uci("e2e4").is_none());
    assert!(game.from_uci("e9e4").is_none());
    game.undo();
    assert_eq!(*game.chessboard(), before);
}

#[test]
fn uci_reports_errors_with_context() {
    assert_eq!(
        parse("go depth many"),
        Err(ParseError::InvalidArgument { argument: "many".to_string(), context: "go depth" })
    );
    assert_eq!(parse("go searchmoves"), Err(ParseError::MissingArgument("go searchmoves")));
    assert_eq!(
        parse("go depth many").unwrap_err().message(),
        "invalid argument 'many' for go depth"
    );
    assert_eq!(parse("go wtime").unwrap_err().message(), "missing argument for go wtime");
    assert_eq!(parse(""), Ok(None));
    assert_eq!(parse("uci"), Ok(Some(Command::Uci)));
    assert!(parse_for::<BigVariant>("position startpos moves a10a11").is_ok());
}

#[test]
fn go_defaults_to_regular_search() {
    let limits = SearchLimits::default();
    assert_eq!(limits.go_variant, GoVariant::Regular);
    assert!(limits.search_moves.is_empty());
    assert!(!limits.infinite);
    assert_eq!(parse("go infinite"), Ok(Some(Command::Go(SearchLimits { infinite: true, ..SearchLimits::default() }))));
}

#[test]
fn time_budget_shares_the_clock() {
    let limits = SearchLimits { wtime: Some(30_000), ..SearchLimits::default() };
    assert_eq!(limits.time_budget(CurrentPlayer::White), Some(1000));
    assert_eq!(limits.time_budget(CurrentPlayer::Black), None);
    let limits = SearchLimits { wtime: Some(30_000), winc: Some(1000), ..SearchLimits::default() };
    assert_eq!(limits.time_budget(CurrentPlayer::White), Some(1800));
    let limits = SearchLimits { btime: Some(30_000), moves_to_go: Some(0), ..SearchLimits::default() };
    assert_eq!(limits.time_budget(CurrentPlayer::Black), Some(29_950));
    let limits = SearchLimits { move_time: Some(500), wtime: Some(10), ..SearchLimits::default() };
    assert_eq!(limits.time_budget(CurrentPlayer::White), Some(500));
    let limits = SearchLimits { wtime: Some(30_000), infinite: true, ..SearchLimits::default() };
    assert_eq!(limits.time_budget(CurrentPlayer::White), None);
}

#[test]
fn written_moves_read_back() {
    for fen in [
        "rnbqkbnr/pppppppp/8/8/8/8/PPPPPPPP/RNBQKBNR w KQkq - 0 1",
        "7k/P7/8/8/8/8/8/K7 w - - 0 1",
        "r3k2r/8/8/8/8/8/8/R3K2R b KQkq - 0 1",
    ] {
        let mut game = GameController::<RegularVariant>::from_fen(fen).unwrap();
        let moves = game.chessboard_mut().generate_moves().unwrap();
        for m in moves {
            let text = GameController::<RegularVariant>::move_to_uci(&m);
            let u = chess_engine::uci::UciMove::parse(&text).unwrap();
            assert_eq!((u.from.0, u.to.0), (m.from(), m.to()));
            assert_eq!(game.from_uci(&text), Some(m));
        }
    }
    let mut big = GameController::<BigVariant>::new();
    let moves = big.chessboard_mut().generate_moves().unwrap();
    for m in moves {
        let text = GameController::<BigVariant>::move_to_uci(&m);
        assert_eq!(big.from_uci(&text), Some(m));
    }
}

#[test]
fn controller_reports_bad_destinations_and_missing_pieces() {
    let mut game = GameController::<RegularVariant>::from_fen("4k3/8/8/8/8/8/8/4K3 w - - 0 1").unwrap();
    assert_eq!(
        game.parse_chess_notation("Nf"),
        Err("Invalid chess notation: invalid destination rank".to_string())
    );
    assert_eq!(
        game.parse_chess_notation("44"),
        Err("Invalid chess notation: invalid destination file".to_string())
    );
    assert_eq!(
        game.parse_chess_notation("Qd4"),
        Err("No valid source piece found for move 'Qd4'".to_string())
    );
}

#[test]
fn counting_and_replaying_stop_where_the_engine_cannot_go_on() {
    let fen = "4k3/8/8/8/8/8/4r3/4K3 w - - 255 1";
    let mut game = GameController::<RegularVariant>::from_fen(fen).unwrap();
    assert_eq!(game.perf_mode(2), Err(PerftError::ClockFull));
    let moves = vec![chess_engine::uci::UciMove::parse("e1d1").unwrap()];
    assert_eq!(game.play_uci_moves(&moves), Err(PlayError::ClockFull));
    let mut kingless = GameController::<RegularVariant>::from_fen("8/8/8/8/8/8/8/R7 w - - 0 1").unwrap();
    assert_eq!(kingless.perf_mode(1), Err(PerftError::NoKing));
    let mut rookless = GameController::<RegularVariant>::from_fen("4k3/8/8/8/8/8/8/4K3 w K - 0 1").unwrap();
    assert_eq!(rookless.perf_mode(2), Err(PerftError::RookMissing));
    assert_eq!(rookless.perf_mode(1), Ok(6));
    let mut over = GameController::<RegularVariant>::from_fen("4k3/8/8/8/8/8/8/4K2R w K - 0 1").unwrap();
    let before = over.chessboard().clone();
    assert_eq!(over.perf_mode(3), Ok(over.perf_mode(3).unwrap()));
    assert_eq!(*over.chessboard(), before);
}

#[test]
fn rook_named_by_file_is_the_move_new_builds() {
    let mut gc = GameController::<RegularVariant>::from_fen("R6R/8/8/8/4k3/8/8/4K3 w - - 0 1").unwrap();
    let before = gc.chessboard().clone();
    assert_eq!(
        gc.parse_chess_notation("Rd8"),
        Err("Ambiguous move 'Rd8'. Multiple pieces can move there.".to_string())
    );
    assert_eq!(gc.parse_chess_notation("Rad8"), Ok(RegularMove::new(0, 3, MoveFlag::Quiet, PieceType::Empty)));
    assert_eq!(*gc.chessboard(), before);
}

#[test]
fn special_move_moves_pieces_even_from_an_empty_square() {
    // No king on e1: the castling move still moves an empty square and the h1 rook.
    let mut board = Chessboard::<RegularVariant>::from_fen("4k3/8/8/8/8/8/8/7R w - - 0 1").unwrap();
    let castle = RegularMove::new(60, 62, MoveFlag::Castling, PieceType::Empty);
    assert_eq!(board.handle_special_move(castle), Ok(PieceType::Empty));
    assert_eq!(board.piece_at(61), Piece::White(PieceType::Rook(chess_engine::rook::Rook)));
    assert_eq!(board.piece_at(63), Piece::Empty);
    assert_eq!(board.piece_at(62), Piece::White(PieceType::Empty));
    assert_eq!(board.current_player(), CurrentPlayer::Black);
    let quiet = RegularMove::new(4, 12, MoveFlag::Quiet, PieceType::Empty);
    let snapshot = board.clone();
    assert_eq!(board.handle_special_move(quiet), Err(()));
    assert_eq!(board, snapshot);
}

#[test]
fn castling_that_is_not_generated_is_refused() {
    // The rights name a rook on h1 that is not there, and f1 is taken: the move is not generated.
    let mut board = Chessboard::<RegularVariant>::from_fen("4k3/8/8/8/8/8/8/4KB2 w K - 0 1").unwrap();
    let before = board.clone();
    let castle = RegularMove::new(60, 62, MoveFlag::Castling, PieceType::Empty);
    assert_eq!(board.apply_move_checked(castle), MoveLegality::IllegalOther);
    assert_eq!(board, before);
    let promotion = RegularMove::new(52, 44, MoveFlag::Promotion, PieceType::Queen(Queen));
    assert_eq!(board.apply_move_checked(promotion), MoveLegality::IllegalOther);
}

#[test]
fn castling_moves_come_king_side_first() {
    let mut board = Chessboard::<RegularVariant>::from_fen("4k3/8/8/8/8/8/8/R3K2R w KQ - 0 1").unwrap();
    let moves = board.generate_moves().unwrap();
    let castles: Vec<RegularMove> = moves.into_iter().filter(|m| m.flag() == MoveFlag::Castling).collect();
    assert_eq!(
        castles,
        vec![
            RegularMove::new(60, 62, MoveFlag::Castling, PieceType::Empty),
            RegularMove::new(60, 58, MoveFlag::Castling, PieceType::Empty)
        ]
    );
}

#[test]
fn evaluator_names_are_read() {
    assert_eq!(choose_evaluator("simple"), Ok(EvaluatorChoice::Simple));
    assert_eq!(choose_evaluator("ml(w.json)"), Ok(EvaluatorChoice::Ml("w.json".to_string())));
    assert_eq!(choose_evaluator("ml()"), Ok(EvaluatorChoice::Ml(String::new())));
    assert_eq!(
        choose_evaluator("layeredml(models/a.json)"),
        Ok(EvaluatorChoice::LayeredMl("models/a.json".to_string()))
    );
    assert_eq!(choose_evaluator("ml"), Err(EvaluatorNameError::MlFormat));
    assert_eq!(choose_evaluator("mlp(x)"), Err(EvaluatorNameError::MlFormat));
    assert_eq!(choose_evaluator("layeredml(x"), Err(EvaluatorNameError::LayeredMlFormat));
    assert_eq!(choose_evaluator("Simple"), Err(EvaluatorNameError::Unknown));
    assert_eq!(choose_evaluator("simple2"), Err(EvaluatorNameError::Unknown));
}

#[test]
fn moves_come_by_origin_square_with_castling_last() {
    let mut board = Chessboard::<RegularVariant>::from_fen("r3k2r/8/8/8/8/8/PPP5/R3K2R w KQkq - 0 1").unwrap();
    let moves = board.generate_moves().unwrap();
    let castling_at = moves.iter().position(|m| m.flag() == MoveFlag::Castling).unwrap();
    assert!(moves[castling_at..].iter().all(|m| m.flag() == MoveFlag::Castling));
    assert!(moves[..castling_at].windows(2).all(|w| w[0].from() <= w[1].from()));
    assert_eq!(moves[castling_at].to(), 62);
    assert_eq!(moves[castling_at + 1].to(), 58);
    // Out of check the filtered list keeps the order.
    let mut checked = Chessboard::<RegularVariant>::from_fen("4k3/8/8/8/8/8/3PP3/r3K2N w - - 0 1").unwrap();
    let replies = checked.generate_moves().unwrap();
    assert!(replies.windows(2).all(|w| w[0].from() <= w[1].from()));
}

#[test]
fn pawn_reaching_the_last_row_gives_four_promotions() {
    let mut board = Chessboard::<RegularVariant>::from_fen("8/P3k3/8/8/8/8/8/4K3 w - - 0 1").unwrap();
    let moves = board.generate_moves().unwrap();
    let promotions: Vec<RegularMove> = moves.into_iter().filter(|m| m.from() == 8).collect();
    assert_eq!(
        promotions,
        vec![
            RegularMove::new(8, 0, MoveFlag::Promotion, PieceType::Queen(Queen)),
            RegularMove::new(8, 0, MoveFlag::Promotion, PieceType::Rook(chess_engine::rook::Rook)),
            RegularMove::new(8, 0, MoveFlag::Promotion, PieceType::Bishop(chess_engine::bishop::Bishop)),
            RegularMove::new(8, 0, MoveFlag::Promotion, PieceType::Knight(chess_engine::knight::Knight)),
        ]
    );
}

#[test]
fn legal_promotion_is_played_with_the_piece_it_carries() {
    let mut board = Chessboard::<BigVariant>::from_fen("4k5/P9/10/10/10/10/10/10/10/10/10/4K5 w - - 0 1").unwrap();
    let to_king = chess_engine::chess_move::BigMove {
        from: 10,
        to: 0,
        flag: MoveFlag::Promotion,
        promotion: PieceType::King(chess_engine::king::King),
    };
    assert_eq!(board.apply_move_checked(to_king), MoveLegality::Legal);
    assert_eq!(board.piece_at(0), Piece::White(PieceType::King(chess_engine::king::King)));
    assert_eq!(board.piece_at(10), Piece::Empty);
    assert_eq!(board.current_player(), CurrentPlayer::Black);
}

#[test]
fn move_constructor_normalises_what_it_cannot_hold() {
    let quiet = RegularMove::new(8, 0, MoveFlag::Promotion, PieceType::Empty);
    assert_eq!(quiet.flag(), MoveFlag::Quiet);
    assert_eq!(quiet.promotion(), PieceType::Empty);
    assert_eq!(quiet, RegularMove::new(8, 0, MoveFlag::Quiet, PieceType::Empty));
    let capture = RegularMove::new(8, 1, MoveFlag::Capture, PieceType::Queen(Queen));
    assert_eq!(capture.flag(), MoveFlag::Capture);
    assert_eq!(capture.promotion(), PieceType::Empty);
    let wide = RegularMove::new(70, 0, MoveFlag::Quiet, PieceType::Empty);
    assert_eq!(wide.0, 70);
    assert_eq!(wide.from(), 6);
    assert_eq!(wide.to(), 1);
    let big = chess_engine::chess_move::BigMove::new(200, 3, MoveFlag::Promotion, PieceType::Empty);
    assert_eq!(big.from(), 200);
    assert_eq!(big.flag(), MoveFlag::Promotion);
    assert_eq!(big.promotion(), PieceType::Empty);
}

#[test]
fn promotion_letter_is_read_at_the_byte_offset_of_the_equals_sign() {
    let mut game = GameController::<RegularVariant>::new();
    // 'é' takes two bytes, so the letter is read one character further on.
    assert_eq!(game.parse_chess_notation("é8=Qx"), Err("Invalid promotion piece: x".to_string()));
    assert_eq!(game.parse_chess_notation("é8=xQ"), Err("Invalid chess notation: invalid destination square".to_string()));
}

#[test]
fn start_positions_read_from_their_fen() {
    let board = Chessboard::<RegularVariant>::regular_board();
    assert_eq!(
        board,
        Chessboard::<RegularVariant>::from_fen("rnbqkbnr/pppppppp/8/8/8/8/PPPPPPPP/RNBQKBNR w KQkq - 0 1").unwrap()
    );
    let big = Chessboard::<BigVariant>::regular_board();
    assert_eq!(
        big,
        Chessboard::<BigVariant>::from_fen(
            "rnbqkbnbnr/pppppppppp/10/10/10/10/10/10/10/10/PPPPPPPPPP/RNBQKBNBNR w KQkq - 0 1"
        )
        .unwrap()
    );
}

#[test]
fn playing_a_move_updates_rights_clock_and_en_passant() {
    let mut board = Chessboard::<RegularVariant>::from_fen("r3k2r/8/8/8/8/8/4P3/R3K2R w KQkq - 7 20").unwrap();
    // Double pawn step e2-e4: the clock restarts and e3 opens to en passant.
    board.apply_move(RegularMove::new(52, 36, MoveFlag::DoublePawnPush, PieceType::Empty)).unwrap();
    assert_eq!(board.halfmove_clock(), 0);
    assert_eq!(board.en_passant_square(), Some(44));
    assert_eq!(board.current_player(), CurrentPlayer::Black);
    // A rook leaves a8: its castling right goes, the clock counts up, en passant closes.
    board.apply_move(RegularMove::new(0, 8, MoveFlag::Quiet, PieceType::Empty)).unwrap();
    assert_eq!(board.halfmove_clock(), 1);
    assert_eq!(board.en_passant_square(), None);
    assert_eq!(board.castling_rights() & 1, 0);
    assert_eq!(board.castling_rights() & (1u128 << 7), 1u128 << 7);
}
