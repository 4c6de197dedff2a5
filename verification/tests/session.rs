use chess_engine::board_config::RegularVariant;
use chess_engine::game_controller::{GameController, GameSettings, PlayError, UciAction};
use chess_engine::uci::{parse, Command, GoVariant, SearchLimits, UciMove};

fn run(game: &mut GameController<RegularVariant>, settings: &mut GameSettings, line: &str) -> UciAction {
    let command = parse(line).unwrap().unwrap();
    game.handle_command(settings, command)
}

#[test]
fn session_answers_simple_commands() {
    let mut game = GameController::<RegularVariant>::new();
    let mut settings = GameSettings::default();
    assert!(matches!(run(&mut game, &mut settings, "uci"), UciAction::Identify));
    assert!(matches!(run(&mut game, &mut settings, "isready"), UciAction::ReadyOk));
    assert!(matches!(run(&mut game, &mut settings, "stop"), UciAction::StopSearch));
    assert!(matches!(run(&mut game, &mut settings, "quit"), UciAction::Quit));
    assert!(matches!(run(&mut game, &mut settings, "ponderhit"), UciAction::Nothing));
    assert!(matches!(run(&mut game, &mut settings, "xyzzy"), UciAction::Nothing));
}

#[test]
fn session_sets_up_positions() {
    let mut game = GameController::<RegularVariant>::new();
    let mut settings = GameSettings::default();
    assert!(matches!(run(&mut game, &mut settings, "position startpos moves e2e4 e7e5"), UciAction::Nothing));
    assert_eq!(game.current_player(), "White");
    assert_eq!(game.chessboard().en_passant_square(), Some(20));
    let before = game.chessboard().clone();
    match run(&mut game, &mut settings, "position startpos moves e2e4 e2e4") {
        UciAction::Report(m) => assert_eq!(m, "UCI position error: illegal move"),
        other => panic!("unexpected {other:?}"),
    }
    assert_eq!(*game.chessboard(), before);
    match run(&mut game, &mut settings, "position fen 8/8/8 w - - 0 1") {
        UciAction::Report(m) => assert_eq!(m, "UCI position error: invalid FEN"),
        other => panic!("unexpected {other:?}"),
    }
    match run(&mut game, &mut settings, "position fen 8/8/8/8/8/8/8/R7 w - - 0 1 moves a1a2") {
        UciAction::Fail(m) => assert_eq!(m, "No king of color on the board"),
        other => panic!("unexpected {other:?}"),
    }
    assert!(matches!(
        run(&mut game, &mut settings, "position fen 4k3/8/8/8/8/8/8/R3K3 w Q - 0 1 moves e1c1"),
        UciAction::Nothing
    ));
    assert_eq!(game.chessboard().piece_at(59), chess_engine::piece::Piece::White(chess_engine::piece::PieceType::Rook(chess_engine::rook::Rook)));
    assert!(matches!(run(&mut game, &mut settings, "ucinewgame"), UciAction::Nothing));
    assert_eq!(*game.chessboard(), chess_engine::chess_board::Chessboard::<RegularVariant>::regular_board());
}

#[test]
fn session_fills_in_search_depth() {
    let mut game = GameController::<RegularVariant>::new();
    let mut settings = GameSettings::default();
    match run(&mut game, &mut settings, "go wtime 1000") {
        UciAction::Search(l) => {
            assert_eq!(l.depth, Some(5));
            assert_eq!(l.wtime, Some(1000));
        }
        other => panic!("unexpected {other:?}"),
    }
    match run(&mut game, &mut settings, "go depth 3") {
        UciAction::Search(l) => assert_eq!(l.depth, Some(3)),
        other => panic!("unexpected {other:?}"),
    }
    let perft = SearchLimits { go_variant: GoVariant::Perft, depth: Some(2), ..SearchLimits::default() };
    assert!(matches!(game.handle_command(&mut settings, Command::Go(perft)), UciAction::Perft(2)));
    let perft = SearchLimits { go_variant: GoVariant::Perft, ..SearchLimits::default() };
    match game.handle_command(&mut settings, Command::Go(perft)) {
        UciAction::Report(m) => assert_eq!(m, "UCI perft error: provide a depth (go perft depth N)"),
        other => panic!("unexpected {other:?}"),
    }
    assert!(matches!(run(&mut game, &mut settings, "go weights"), UciAction::PrintInputs));
}

#[test]
fn session_reads_options() {
    let mut game = GameController::<RegularVariant>::new();
    let mut settings = GameSettings::default();
    assert!(matches!(run(&mut game, &mut settings, "setoption name Depth value 7"), UciAction::Nothing));
    assert_eq!(settings.search_max_depth, 7);
    assert!(matches!(run(&mut game, &mut settings, "setoption name Depth value +8"), UciAction::Nothing));
    assert_eq!(settings.search_max_depth, 8);
    match run(&mut game, &mut settings, "setoption name Depth value 41") {
        UciAction::Report(m) => assert_eq!(m, "UCI option error: Depth must be between 1 and 40"),
        other => panic!("unexpected {other:?}"),
    }
    assert_eq!(settings.search_max_depth, 8);
    match run(&mut game, &mut settings, "setoption name Evaluator value simple") {
        UciAction::ChangeEvaluator(Some(v)) => assert_eq!(v, "simple"),
        other => panic!("unexpected {other:?}"),
    }
    assert_eq!(settings.evaluator_name, "simple");
    assert!(matches!(run(&mut game, &mut settings, "setoption name Hash value 16"), UciAction::Nothing));
}

#[test]
fn replaying_moves_reports_where_it_stops() {
    let mut game = GameController::<RegularVariant>::new();
    let moves = vec![UciMove::parse("g1f3").unwrap(), UciMove::parse("g8f6").unwrap()];
    assert_eq!(game.play_uci_moves(&moves), Ok(()));
    assert_eq!(game.chessboard().repetition_count(), 1);
    let moves = vec![UciMove::parse("f3g1").unwrap(), UciMove::parse("a1a8").unwrap()];
    assert_eq!(game.play_uci_moves(&moves), Err(PlayError::IllegalMove));
    assert_eq!(game.current_player(), "Black");
    let mut rookless = GameController::<RegularVariant>::from_fen("4k3/8/8/8/8/8/8/4K3 w K - 0 1").unwrap();
    assert_eq!(rookless.play_uci_moves(&vec![UciMove::parse("e1g1").unwrap()]), Err(PlayError::RookMissing));
}

#[test]
fn session_stops_on_a_full_clock_in_check() {
    let mut game = GameController::<RegularVariant>::new();
    let mut settings = GameSettings::default();
    match run(&mut game, &mut settings, "position fen 4k3/8/8/8/8/8/4r3/4K3 w - - 255 1 moves e1d1") {
        UciAction::Fail(m) => assert_eq!(m, "attempt to add with overflow"),
        other => panic!("unexpected {other:?}"),
    }
    match run(&mut game, &mut settings, "setoption name Evaluator") {
        UciAction::ChangeEvaluator(None) => {}
        other => panic!("unexpected {other:?}"),
    }
}
