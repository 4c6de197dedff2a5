use vstd::prelude::*;

pub mod bishop;
pub mod bitboard;
pub mod board_config;
pub mod chess_board;
pub mod chess_move;
pub mod eval;
pub mod evaluator_name;
pub mod game_controller;
pub mod king;
pub mod knight;
pub mod ml;
pub mod notation;
pub mod pawn;
pub mod piece;
pub mod queen;
pub mod rook;
pub mod text;
pub mod uci;

verus! {

} // verus!
