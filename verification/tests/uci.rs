use chess_engine::board_config::BigVariant;
use chess_engine::uci::{parse, Command, Position, PositionBoard, SearchLimits, Square, UciMove};

#[test]
fn parses_position_with_moves() {
    let command = parse("position startpos moves e2e4 e7e5 g1f3").unwrap();
    assert_eq!(
        command,
        Some(Command::Position(Position {
            board: PositionBoard::StartPos,
            moves: vec![
                UciMove { from: Square(52), to: Square(36), promotion: None },
                UciMove { from: Square(12), to: Square(28), promotion: None },
                UciMove { from: Square(62), to: Square(45), promotion: None },
            ],
        }))
    );
}

#[test]
fn parses_fen_and_search_limits() {
    let position =
        parse("position fen rnbqkbnr/pppppppp/8/8/8/8/PPPPPPPP/RNBQKBNR w KQkq - 0 1 moves e2e4")
            .unwrap();
    assert_eq!(
        position,
        Some(Command::Position(Position {
            board: PositionBoard::Fen("rnbqkbnr/pppppppp/8/8/8/8/PPPPPPPP/RNBQKBNR w KQkq - 0 1".to_owned()),
            moves: vec![UciMove { from: Square(52), to: Square(36), promotion: None }],
        }))
    );

    let go = parse("go searchmoves e2e4 d2d4 wtime 30000 btime 25000 depth 12").unwrap();
    assert_eq!(
        go,
        Some(Command::Go(SearchLimits {
            search_moves: vec![
                UciMove { from: Square(52), to: Square(36), promotion: None },
                UciMove { from: Square(51), to: Square(35), promotion: None },
            ],
            wtime: Some(30_000),
            btime: Some(25_000),
            depth: Some(12),
            ..SearchLimits::default()
        }))
    );
}

#[test]
fn rejects_invalid_commands() {
    assert!(parse("position fen 8/8/8/8/8/8/8/8 w - - 0").is_err());
    assert!(parse("position startpos moves e2e9").is_err());
    assert!(parse("go depth many").is_err());
    assert!(parse("go searchmoves").is_err());
}

#[test]
fn validates_coordinates_against_the_selected_variant() {
    let move_ = UciMove::parse_for::<BigVariant>("a10j12").unwrap();
    assert_eq!(move_, UciMove { from: Square(20), to: Square(9), promotion: None });
    assert!(UciMove::parse("a10j12").is_err());
}
