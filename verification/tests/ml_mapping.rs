use chess_engine::board_config::{BigVariant, RegularVariant};
use chess_engine::chess_board::Chessboard;
use chess_engine::eval::DeadSimpleEvaluator;
use chess_engine::chess_move::{MoveFlag, MoveTrait};
use chess_engine::ml::{state_features, step_squares, FeatureMapping};

#[test]
fn color_separated_mapping_uses_distinct_planes_per_color() {
    let board = Chessboard::<RegularVariant>::from_fen("4k3/8/8/8/8/8/8/4K3 w - - 0 1").unwrap();
    let input = FeatureMapping::TwoColorsPerMapping.board_features(&board);
    let area = RegularVariant::AREA;

    assert_eq!(input.len(), 12 * area + 24);
    assert_eq!(input[5 * area + 60], 1);
    assert_eq!(input[11 * area + 4], 1);
    assert_eq!(input[5 * area + 4], 0);
    assert_eq!(input[11 * area + 60], 0);
}

#[test]
fn board_input_scales_with_board_area() {
    let board = Chessboard::<BigVariant>::new();
    let input = FeatureMapping::ColorPerMapping.board_features(&board);

    assert_eq!(input.len(), 6 * BigVariant::AREA + 24);
    assert_eq!(input[6 * BigVariant::AREA], 1);
}

#[test]
fn board_input_includes_position_state_features() {
    let board =
        Chessboard::<RegularVariant>::from_fen("4k3/8/8/8/8/8/4R3/R3K2R b KQkq e3 17 1").unwrap();
    let input = FeatureMapping::ColorPerMapping.board_features(&board);
    let state_start = 6 * RegularVariant::AREA + 1;

    assert_eq!(&input[state_start..state_start + 4], &[1i64; 4]);
    assert_eq!(input[state_start + 4 + 12], 1);
    assert_eq!(input[state_start + 20], 1);
    assert_eq!(input[state_start + 21], 1);
    assert_eq!(input[state_start + 22], 17);
}

#[test]
fn input_sizes_of_both_mappings() {
    assert_eq!(FeatureMapping::ColorPerMapping.input_size::<RegularVariant>(), 6 * 64 + 24);
    assert_eq!(FeatureMapping::TwoColorsPerMapping.input_size::<RegularVariant>(), 12 * 64 + 24);
    assert_eq!(FeatureMapping::ColorPerMapping.input_size::<BigVariant>(), 6 * 120 + 24);
    assert_eq!(FeatureMapping::default(), FeatureMapping::ColorPerMapping);
}

#[test]
fn mirrored_square_flips_rows() {
    assert_eq!(FeatureMapping::mirrored_square::<RegularVariant>(60), 4);
    assert_eq!(FeatureMapping::mirrored_square::<RegularVariant>(4), 60);
    assert_eq!(FeatureMapping::mirrored_square::<RegularVariant>(9), 49);
    assert_eq!(FeatureMapping::mirrored_square::<BigVariant>(0), 110);
}

#[test]
fn colour_per_mapping_counts_black_from_its_side() {
    let board = Chessboard::<RegularVariant>::from_fen("4k3/8/8/8/8/8/8/4K3 w - - 0 1").unwrap();
    let input = FeatureMapping::ColorPerMapping.board_features(&board);
    // Kings are the sixth kind: the White king on e1 (60) and the Black king on e8 (4),
    // seen from Black's side on 60, cancel out.
    assert_eq!(input[5 * 64 + 60], 0);
    assert_eq!(input[5 * 64 + 4], 0);
    let board = Chessboard::<RegularVariant>::from_fen("4k3/8/8/8/8/8/8/3K4 w - - 0 1").unwrap();
    let input = FeatureMapping::ColorPerMapping.board_features(&board);
    assert_eq!(input[5 * 64 + 59], 1);
    assert_eq!(input[5 * 64 + 60], -1);
}

#[test]
fn square_updates_agree_with_whole_position() {
    for mapping in [FeatureMapping::ColorPerMapping, FeatureMapping::TwoColorsPerMapping] {
        let board =
            Chessboard::<RegularVariant>::from_fen("r3k2r/p1ppqpb1/bn2pnp1/3PN3/1p2P3/2N2Q1p/PPPBBPPP/R3K2R w KQkq - 0 1")
                .unwrap();
        let all = mapping.board_features(&board);
        for square in 0..64 {
            let updates = mapping.square_updates(&board, square);
            assert_eq!(updates.len(), 12);
            for (index, value) in updates {
                assert_eq!(all[index], value as i64);
            }
        }
    }
}

#[test]
fn state_features_of_start_position() {
    let board = Chessboard::<RegularVariant>::regular_board();
    let state = state_features(&board);
    assert_eq!(state.len(), 23);
    assert_eq!(&state[0..4], &[1, 1, 1, 1]);
    assert!(state[4..20].iter().all(|&x| x == 0));
    assert_eq!(state[20], 1);
    assert_eq!(state[21], 0);
    assert_eq!(state[22], 0);
}

#[test]
fn material_counts_signed_values() {
    let evaluator = DeadSimpleEvaluator {};
    let start = Chessboard::<RegularVariant>::regular_board();
    assert_eq!(evaluator.evaluate(&start), 0);
    let board = Chessboard::<RegularVariant>::from_fen("4k3/8/8/8/8/8/4R3/4K3 w - - 0 1").unwrap();
    assert_eq!(evaluator.evaluate(&board), 500);
    let board = Chessboard::<RegularVariant>::from_fen("4k3/1q6/8/8/8/8/P7/4K3 w - - 0 1").unwrap();
    assert_eq!(evaluator.evaluate(&board), 100 - 1200);
}

fn squares_after(fen: &str, flag: MoveFlag) -> Vec<usize> {
    let mut board = Chessboard::<RegularVariant>::from_fen(fen).unwrap();
    let m = board.generate_moves().unwrap().into_iter().find(|m| m.flag() == flag).unwrap();
    board.apply_move(m).unwrap();
    step_squares(&board)
}

#[test]
fn step_squares_cover_what_a_move_changed() {
    assert_eq!(squares_after("4k3/8/8/8/8/8/8/4K2R w K - 0 1", MoveFlag::Castling), vec![60, 61, 62, 63]);
    assert_eq!(squares_after("4k3/8/8/3pP3/8/8/8/4K3 w - d6 0 1", MoveFlag::EnPassant), vec![19, 27, 28]);
    assert_eq!(squares_after("4k3/8/8/3p4/4P3/8/8/4K3 w - - 0 1", MoveFlag::Capture), vec![27, 36]);
    assert_eq!(squares_after("r3k3/8/8/8/8/8/8/4K3 b q - 0 1", MoveFlag::Castling), vec![0, 2, 3, 4]);
}
