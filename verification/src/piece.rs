use vstd::prelude::*;

use core::marker::PhantomData;
use crate::bishop::Bishop;
use crate::bitboard::{group_bits, has_bit, single};
use crate::board_config::{
    area, file_of, lemma_coords_square, lemma_square_coords, on_board, rank_of, square_at,
    BoardConfig,
};
use crate::chess_board::CurrentPlayer;
use crate::king::King;
use crate::knight::Knight;
use crate::pawn::Pawn;
use crate::queen::Queen;
use crate::rook::Rook;

verus! {

broadcast use group_bits;

// ---------------------------------------------------------------------------
// Geometry of the moves
// ---------------------------------------------------------------------------
/// `t` is the square `dr` rows and `df` columns away from `s`, on the board.
pub open spec fn offset_target<C: BoardConfig>(s: nat, dr: int, df: int, t: nat) -> bool {
    &&& on_board::<C>(rank_of::<C>(s) + dr, file_of::<C>(s) + df)
    &&& t == square_at::<C>(rank_of::<C>(s) + dr, file_of::<C>(s) + df)
}

/// The squares a king attacks: its eight neighbours.
pub open spec fn king_target<C: BoardConfig>(s: nat, t: nat) -> bool {
    ||| offset_target::<C>(s, 1, 0, t)
    ||| offset_target::<C>(s, 1, -1, t)
    ||| offset_target::<C>(s, 1, 1, t)
    ||| offset_target::<C>(s, -1, 0, t)
    ||| offset_target::<C>(s, -1, -1, t)
    ||| offset_target::<C>(s, -1, 1, t)
    ||| offset_target::<C>(s, 0, -1, t)
    ||| offset_target::<C>(s, 0, 1, t)
}

/// The squares a knight attacks.
pub open spec fn knight_target<C: BoardConfig>(s: nat, t: nat) -> bool {
    ||| offset_target::<C>(s, -2, -1, t)
    ||| offset_target::<C>(s, -2, 1, t)
    ||| offset_target::<C>(s, -1, -2, t)
    ||| offset_target::<C>(s, -1, 2, t)
    ||| offset_target::<C>(s, 1, -2, t)
    ||| offset_target::<C>(s, 1, 2, t)
    ||| offset_target::<C>(s, 2, -1, t)
    ||| offset_target::<C>(s, 2, 1, t)
}

/// Row step of a pawn: white moves towards row 0, black away from it.
pub open spec fn pawn_dir(color: CurrentPlayer) -> int {
    match color {
        CurrentPlayer::White => -1,
        CurrentPlayer::Black => 1,
    }
}

/// The two squares diagonally in front of a pawn.
pub open spec fn pawn_attack_target<C: BoardConfig>(s: nat, color: CurrentPlayer, t: nat) -> bool {
    ||| offset_target::<C>(s, pawn_dir(color), -1, t)
    ||| offset_target::<C>(s, pawn_dir(color), 1, t)
}

/// A pawn may advance two rows from the second row of its side.
pub open spec fn pawn_on_start_row<C: BoardConfig>(s: nat, color: CurrentPlayer) -> bool {
    match color {
        CurrentPlayer::White => rank_of::<C>(s) == C::spec_height() - 2 && rank_of::<C>(s) >= 2,
        CurrentPlayer::Black => rank_of::<C>(s) == 1 && 3 < C::spec_height(),
    }
}

/// The squares a pawn advances to: one row forward when that square is empty, and two
/// rows from its start row when both squares are empty.
pub open spec fn pawn_push_target<C: BoardConfig>(
    s: nat,
    occ: u128,
    color: CurrentPlayer,
    t: nat,
) -> bool {
    let one = square_at::<C>(rank_of::<C>(s) + pawn_dir(color), file_of::<C>(s));
    &&& on_board::<C>(rank_of::<C>(s) + pawn_dir(color), file_of::<C>(s))
    &&& !has_bit(occ, one)
    &&& !has_bit(occ, t)
    &&& (offset_target::<C>(s, pawn_dir(color), 0, t) || (pawn_on_start_row::<C>(s, color)
        && offset_target::<C>(s, 2 * pawn_dir(color), 0, t)))
}

/// A direction of a sliding piece: one row step and one column step, not both zero.
pub open spec fn valid_direction(dr: int, df: int) -> bool {
    -1 <= dr <= 1 && -1 <= df <= 1 && (dr != 0 || df != 0)
}

/// The `j`-th square along the ray from `s` in direction (`dr`, `df`) is on the board.
pub open spec fn ray_on<C: BoardConfig>(s: nat, dr: int, df: int, j: int) -> bool {
    on_board::<C>(rank_of::<C>(s) + j * dr, file_of::<C>(s) + j * df)
}

/// The `j`-th square along the ray from `s` in direction (`dr`, `df`).
pub open spec fn ray_sq<C: BoardConfig>(s: nat, dr: int, df: int, j: int) -> nat {
    square_at::<C>(rank_of::<C>(s) + j * dr, file_of::<C>(s) + j * df)
}

/// The squares a slider reaches along one ray: each square up to and including the first
/// occupied one.
pub open spec fn slide_target<C: BoardConfig>(s: nat, occ: u128, dr: int, df: int, t: nat) -> bool {
    exists|k: int|
        #![trigger ray_sq::<C>(s, dr, df, k)]
        k >= 1 && t == ray_sq::<C>(s, dr, df, k) && (forall|j: int|
            1 <= j <= k ==> #[trigger] ray_on::<C>(s, dr, df, j)) && (forall|j: int|
            1 <= j < k ==> !has_bit(occ, #[trigger] ray_sq::<C>(s, dr, df, j)))
}

pub open spec fn rook_target<C: BoardConfig>(s: nat, occ: u128, t: nat) -> bool {
    ||| slide_target::<C>(s, occ, 1, 0, t)
    ||| slide_target::<C>(s, occ, -1, 0, t)
    ||| slide_target::<C>(s, occ, 0, 1, t)
    ||| slide_target::<C>(s, occ, 0, -1, t)
}

pub open spec fn bishop_target<C: BoardConfig>(s: nat, occ: u128, t: nat) -> bool {
    ||| slide_target::<C>(s, occ, 1, 1, t)
    ||| slide_target::<C>(s, occ, 1, -1, t)
    ||| slide_target::<C>(s, occ, -1, 1, t)
    ||| slide_target::<C>(s, occ, -1, -1, t)
}

pub open spec fn queen_target<C: BoardConfig>(s: nat, occ: u128, t: nat) -> bool {
    rook_target::<C>(s, occ, t) || bishop_target::<C>(s, occ, t)
}

/// The squares a piece standing on `s` attacks.
pub open spec fn attack_target<C: BoardConfig>(
    p: PieceType,
    s: nat,
    occ: u128,
    color: CurrentPlayer,
    t: nat,
) -> bool {
    match p {
        PieceType::Empty => false,
        PieceType::Pawn(_) => pawn_attack_target::<C>(s, color, t),
        PieceType::Rook(_) => rook_target::<C>(s, occ, t),
        PieceType::Bishop(_) => bishop_target::<C>(s, occ, t),
        PieceType::Knight(_) => knight_target::<C>(s, t),
        PieceType::Queen(_) => queen_target::<C>(s, occ, t),
        PieceType::King(_) => king_target::<C>(s, t),
    }
}

/// The squares a piece standing on `s` moves to without capturing.
pub open spec fn move_target<C: BoardConfig>(
    p: PieceType,
    s: nat,
    occ: u128,
    color: CurrentPlayer,
    t: nat,
) -> bool {
    match p {
        PieceType::Pawn(_) => pawn_push_target::<C>(s, occ, color, t),
        _ => attack_target::<C>(p, s, occ, color, t),
    }
}

// ---------------------------------------------------------------------------
// Executable building blocks
// ---------------------------------------------------------------------------
/// Sets bit `index` of a board.
pub fn add_bit(bitboard: u128, index: usize) -> (r: u128)
    requires
        index < 128,
    ensures
        forall|t: nat| #[trigger] has_bit(r, t) == (has_bit(bitboard, t) || t == index),
{
    let r = bitboard | (1u128 << (index as u128));
    assert(1u128 << (index as u128) == single(index as nat));
    r
}

/// Adds to `b` the square `dr` rows and `df` columns away from `pos`, if it is on the board.
pub fn add_offset<C: BoardConfig>(b: u128, pos: u8, dr: i8, df: i8) -> (r: u128)
    requires
        (pos as nat) < area::<C>(),
    ensures
        forall|t: nat| #[trigger]
            has_bit(r, t) == (has_bit(b, t) || offset_target::<C>(pos as nat, dr as int, df as int, t)),
{
    proof {
        C::lemma_dims();
        lemma_square_coords::<C>(pos as nat);
    }
    let w = C::width();
    let h = C::height();
    let rank = (pos as usize / w) as i32;
    let file = (pos as usize % w) as i32;
    let nr = rank + dr as i32;
    let nf = file + df as i32;
    if 0 <= nr && nr < h as i32 && 0 <= nf && nf < w as i32 {
        proof {
            lemma_coords_square::<C>(nr as int, nf as int);
        }
        let idx = nr as usize * w + nf as usize;
        add_bit(b, idx)
    } else {
        b
    }
}

/// The squares reached along one ray from `pos`, up to and including the first occupied one.
pub fn slide<C: BoardConfig>(pos: u8, occ: u128, dr: i8, df: i8) -> (r: u128)
    requires
        (pos as nat) < area::<C>(),
        valid_direction(dr as int, df as int),
    ensures
        forall|t: nat| #[trigger]
            has_bit(r, t) == slide_target::<C>(pos as nat, occ, dr as int, df as int, t),
{
    proof {
        C::lemma_dims();
        lemma_square_coords::<C>(pos as nat);
    }
    let ghost s = pos as nat;
    let ghost gdr = dr as int;
    let ghost gdf = df as int;
    let w = C::width();
    let h = C::height();
    let rank = (pos as usize / w) as i32;
    let file = (pos as usize % w) as i32;
    let mut b: u128 = 0;
    let mut cr = rank;
    let mut cf = file;
    let ghost mut k: int = 0;
    loop
        invariant
            w as nat == C::spec_width(),
            h as nat == C::spec_height(),
            crate::board_config::valid_dims(w as nat, h as nat),
            valid_direction(gdr, gdf),
            gdr == dr,
            gdf == df,
            s == pos as nat,
            rank == rank_of::<C>(s),
            file == file_of::<C>(s),
            0 <= k,
            cr == rank + k * gdr,
            cf == file + k * gdf,
            0 <= cr < h,
            0 <= cf < w,
            forall|j: int| 1 <= j <= k ==> #[trigger] ray_on::<C>(s, gdr, gdf, j),
            forall|j: int| 1 <= j <= k ==> !has_bit(occ, #[trigger] ray_sq::<C>(s, gdr, gdf, j)),
            forall|t: nat| #[trigger]
                has_bit(b, t) == exists|j: int|
                    #![trigger ray_sq::<C>(s, gdr, gdf, j)]
                    1 <= j <= k && t == ray_sq::<C>(s, gdr, gdf, j),
        decreases
                (if gdr > 0 {
                    h - 1 - cr
                } else if gdr < 0 {
                    cr as int
                } else {
                    0
                }) + (if gdf > 0 {
                    w - 1 - cf
                } else if gdf < 0 {
                    cf as int
                } else {
                    0
                }),
    {
        let nr = cr + dr as i32;
        let nf = cf + df as i32;
        assert(nr == rank + (k + 1) * gdr && nf == file + (k + 1) * gdf) by (nonlinear_arith)
            requires
                cr == rank + k * gdr,
                cf == file + k * gdf,
                nr == cr + gdr,
                nf == cf + gdf,
        ;
        if !(0 <= nr && nr < h as i32 && 0 <= nf && nf < w as i32) {
            assert(!ray_on::<C>(s, gdr, gdf, k + 1));
            assert forall|t: nat| #[trigger] has_bit(b, t) == slide_target::<C>(s, occ, gdr, gdf, t) by {
                if has_bit(b, t) {
                    let j = choose|j: int| 1 <= j <= k && t == ray_sq::<C>(s, gdr, gdf, j);
                    assert(forall|i: int| 1 <= i <= j ==> #[trigger] ray_on::<C>(s, gdr, gdf, i));
                }
                if slide_target::<C>(s, occ, gdr, gdf, t) {
                    let kk = choose|kk: int|
                        #![trigger ray_sq::<C>(s, gdr, gdf, kk)]
                        kk >= 1 && t == ray_sq::<C>(s, gdr, gdf, kk) && (forall|j: int|
                            1 <= j <= kk ==> #[trigger] ray_on::<C>(s, gdr, gdf, j)) && (forall|
                            j: int,
                        |
                            1 <= j < kk ==> !has_bit(occ, #[trigger] ray_sq::<C>(s, gdr, gdf, j)));
                    if kk > k {
                        assert(ray_on::<C>(s, gdr, gdf, k + 1));
                    }
                }
            }
            return b;
        }
        proof {
            lemma_coords_square::<C>(nr as int, nf as int);
        }
        let idx = nr as usize * w + nf as usize;
        let ghost old_b = b;
        b = add_bit(b, idx);
        proof {
            k = k + 1;
        }
        cr = nr;
        cf = nf;
        assert(ray_sq::<C>(s, gdr, gdf, k) == idx as nat);
        assert(ray_on::<C>(s, gdr, gdf, k));
        assert forall|t: nat| #[trigger]
            has_bit(b, t) == exists|j: int|
                #![trigger ray_sq::<C>(s, gdr, gdf, j)]
                1 <= j <= k && t == ray_sq::<C>(s, gdr, gdf, j) by {
            if t == idx as nat {
                assert(1 <= k <= k && t == ray_sq::<C>(s, gdr, gdf, k));
            }
            if has_bit(old_b, t) {
                let j = choose|j: int| 1 <= j <= k - 1 && t == ray_sq::<C>(s, gdr, gdf, j);
                assert(1 <= j <= k && t == ray_sq::<C>(s, gdr, gdf, j));
            }
        }
        if (occ & (1u128 << (idx as u128))) != 0 {
            proof {
                crate::bitboard::lemma_test_single(occ, idx as nat);
                assert forall|t: nat| #[trigger] has_bit(b, t) == slide_target::<C>(s, occ, gdr, gdf, t) by {
                    if has_bit(b, t) {
                        let j = choose|j: int| 1 <= j <= k && t == ray_sq::<C>(s, gdr, gdf, j);
                        assert(forall|i: int| 1 <= i <= j ==> #[trigger] ray_on::<C>(s, gdr, gdf, i));
                    }
                    if slide_target::<C>(s, occ, gdr, gdf, t) {
                        let kk = choose|kk: int|
                            #![trigger ray_sq::<C>(s, gdr, gdf, kk)]
                            kk >= 1 && t == ray_sq::<C>(s, gdr, gdf, kk) && (forall|j: int|
                                1 <= j <= kk ==> #[trigger] ray_on::<C>(s, gdr, gdf, j)) && (forall|
                                j: int,
                            |
                                1 <= j < kk ==> !has_bit(occ, #[trigger] ray_sq::<C>(s, gdr, gdf, j)));
                        if kk > k {
                            assert(!has_bit(occ, ray_sq::<C>(s, gdr, gdf, k)));
                        }
                    }
                }
            }
            return b;
        }
        proof {
            crate::bitboard::lemma_test_single(occ, idx as nat);
        }
    }
}

/// The eight directions of the sliding pieces, as (row step, column step).
pub fn slider_direction(d: usize) -> (r: (i8, i8))
    requires
        d < 8,
    ensures
        valid_direction(r.0 as int, r.1 as int),
        r == direction_spec(d as int),
{
    match d {
        0 => (1, 0),
        1 => (-1, 0),
        2 => (0, 1),
        3 => (0, -1),
        4 => (1, 1),
        5 => (1, -1),
        6 => (-1, 1),
        _ => (-1, -1),
    }
}

pub open spec fn direction_spec(d: int) -> (i8, i8) {
    if d == 0 {
        (1i8, 0i8)
    } else if d == 1 {
        (-1i8, 0i8)
    } else if d == 2 {
        (0i8, 1i8)
    } else if d == 3 {
        (0i8, -1i8)
    } else if d == 4 {
        (1i8, 1i8)
    } else if d == 5 {
        (1i8, -1i8)
    } else if d == 6 {
        (-1i8, 1i8)
    } else {
        (-1i8, -1i8)
    }
}

/// The moves of the eight 8x8 sliding directions as square-index offsets.
pub fn get_all_possible_attack_vectors() -> (r: [i8; 8])
    ensures
        r@ == seq![-8i8, 8i8, 1i8, -1i8, -9i8, -7i8, 9i8, 7i8],
{
    let r = [-8, 8, 1, -1, -9, -7, 9, 7];
    assert(r@ =~= seq![-8i8, 8i8, 1i8, -1i8, -9i8, -7i8, 9i8, 7i8]);
    r
}

// ---------------------------------------------------------------------------
// Piece types
// ---------------------------------------------------------------------------
/// The kind of piece on a square, or `Empty` for an empty square.
#[derive(Clone, Copy, Debug, PartialEq, Eq, Structural)]
pub enum PieceType {
    Empty,
    Pawn(Pawn),
    Rook(Rook),
    Bishop(Bishop),
    Knight(Knight),
    Queen(Queen),
    King(King),
}

/// Behaviour shared by the pieces: the squares they move to and attack.
pub trait PieceBehavior<C: BoardConfig> {
    spec fn spec_move_target(&self, pos: nat, occ: u128, color: CurrentPlayer, t: nat) -> bool;

    spec fn spec_attack_target(&self, pos: nat, occ: u128, color: CurrentPlayer, t: nat) -> bool;

    spec fn spec_is_slider(&self) -> bool;

    fn get_move_bit_board(&self, pos: u8, occupancy_bitboard: u128, color: CurrentPlayer) -> (r:
        u128)
        requires
            (pos as nat) < area::<C>(),
        ensures
            forall|t: nat| #[trigger]
                has_bit(r, t) == self.spec_move_target(pos as nat, occupancy_bitboard, color, t),
    ;

    fn get_attack_bitboard(&self, pos: u8, occupancy_bitboard: u128, color: CurrentPlayer) -> (r:
        u128)
        requires
            (pos as nat) < area::<C>(),
        ensures
            forall|t: nat| #[trigger]
                has_bit(r, t) == self.spec_attack_target(pos as nat, occupancy_bitboard, color, t),
    ;

    fn is_slider(&self) -> (r: bool)
        ensures
            r == self.spec_is_slider(),
    ;
}

pub open spec fn value_spec(p: PieceType) -> i32 {
    match p {
        PieceType::Empty => 0,
        PieceType::Pawn(_) => 100,
        PieceType::Queen(_) => 1200,
        PieceType::Rook(_) => 500,
        PieceType::Knight(_) => 300,
        PieceType::Bishop(_) => 333,
        PieceType::King(_) => 9999999,
    }
}

pub open spec fn notation_spec(p: PieceType) -> char {
    match p {
        PieceType::Empty => '.',
        PieceType::Pawn(_) => 'p',
        PieceType::Rook(_) => 'r',
        PieceType::Knight(_) => 'n',
        PieceType::Bishop(_) => 'b',
        PieceType::Queen(_) => 'q',
        PieceType::King(_) => 'k',
    }
}

pub open spec fn index_spec(p: PieceType) -> i32 {
    match p {
        PieceType::Empty => 0,
        PieceType::Pawn(_) => 1,
        PieceType::Rook(_) => 2,
        PieceType::Knight(_) => 3,
        PieceType::Bishop(_) => 4,
        PieceType::Queen(_) => 5,
        PieceType::King(_) => 6,
    }
}

impl PieceType {
    /// Material value in centipawns.
    pub fn value(&self) -> (r: i32)
        ensures
            r == value_spec(*self),
    {
        match self {
            Self::Empty => 0,
            Self::Pawn(_) => 100,
            Self::Queen(_) => 1200,
            Self::Rook(_) => 500,
            Self::Knight(_) => 300,
            Self::Bishop(_) => 333,
            Self::King(_) => 9999999,
        }
    }

    /// Lower-case letter of the piece, `.` for no piece.
    pub fn to_notation(&self) -> (r: char)
        ensures
            r == notation_spec(*self),
    {
        match self {
            Self::Empty => '.',
            Self::Pawn(_) => 'p',
            Self::Rook(_) => 'r',
            Self::Knight(_) => 'n',
            Self::Bishop(_) => 'b',
            Self::Queen(_) => 'q',
            Self::King(_) => 'k',
        }
    }

    pub fn to_index(&self) -> (r: i32)
        ensures
            r == index_spec(*self),
    {
        match self {
            Self::Empty => 0,
            Self::Pawn(_) => 1,
            Self::Rook(_) => 2,
            Self::Knight(_) => 3,
            Self::Bishop(_) => 4,
            Self::Queen(_) => 5,
            Self::King(_) => 6,
        }
    }

    /// The squares this piece, standing on `at`, moves to without capturing.
    pub fn get_move_bitboard<C: BoardConfig>(
        &self,
        at: u8,
        occupancy: u128,
        color: CurrentPlayer,
    ) -> (r: u128)
        requires
            (at as nat) < area::<C>(),
        ensures
            forall|t: nat| #[trigger] has_bit(r, t) == move_target::<C>(*self, at as nat, occupancy, color, t),
    {
        match self {
            Self::Empty => 0,
            Self::Pawn(pawn) => <Pawn as PieceBehavior<C>>::get_move_bit_board(pawn, at, occupancy, color),
            Self::Rook(rook) => <Rook as PieceBehavior<C>>::get_move_bit_board(rook, at, occupancy, color),
            Self::Bishop(bishop) => <Bishop as PieceBehavior<C>>::get_move_bit_board(bishop, at, occupancy, color),
            Self::Knight(knight) => <Knight as PieceBehavior<C>>::get_move_bit_board(knight, at, occupancy, color),
            Self::Queen(queen) => <Queen as PieceBehavior<C>>::get_move_bit_board(queen, at, occupancy, color),
            Self::King(king) => <King as PieceBehavior<C>>::get_move_bit_board(king, at, occupancy, color),
        }
    }

    /// The squares this piece, standing on `at`, attacks.
    pub fn get_attack_bitboard<C: BoardConfig>(
        &self,
        at: u8,
        occupancy: u128,
        color: CurrentPlayer,
    ) -> (r: u128)
        requires
            (at as nat) < area::<C>(),
        ensures
            forall|t: nat| #[trigger] has_bit(r, t) == attack_target::<C>(*self, at as nat, occupancy, color, t),
    {
        match self {
            Self::Empty => 0,
            Self::Pawn(pawn) => <Pawn as PieceBehavior<C>>::get_attack_bitboard(pawn, at, occupancy, color),
            Self::Rook(rook) => <Rook as PieceBehavior<C>>::get_attack_bitboard(rook, at, occupancy, color),
            Self::Bishop(bishop) => <Bishop as PieceBehavior<C>>::get_attack_bitboard(bishop, at, occupancy, color),
            Self::Knight(knight) => <Knight as PieceBehavior<C>>::get_attack_bitboard(knight, at, occupancy, color),
            Self::Queen(queen) => <Queen as PieceBehavior<C>>::get_attack_bitboard(queen, at, occupancy, color),
            Self::King(king) => <King as PieceBehavior<C>>::get_attack_bitboard(king, at, occupancy, color),
        }
    }

    /// Whether a slider of this kind moves opposite to `vector` (only rooks, bishops and
    /// queens do).
    pub fn has_opposite_vector<C: BoardConfig>(&self, vector: i8) -> (r: bool)
        requires
            vector > i8::MIN,
        ensures
            r == match *self {
                PieceType::Rook(_) => rook_vectors::<C>().contains((-vector) as i8),
                PieceType::Bishop(_) => bishop_vectors::<C>().contains((-vector) as i8),
                PieceType::Queen(_) => queen_vectors::<C>().contains((-vector) as i8),
                _ => false,
            },
    {
        match self {
            Self::Rook(_) => Rook::has_opposite_vector::<C>(vector),
            Self::Bishop(_) => Bishop::has_opposite_vector::<C>(vector),
            Self::Queen(_) => Queen::has_opposite_vector::<C>(vector),
            _ => false,
        }
    }
}

/// Square offsets of the rook's directions: up, down, right, left.
pub open spec fn rook_vectors<C: BoardConfig>() -> Seq<i8> {
    let w = C::spec_width() as i8;
    seq![(-w) as i8, w, 1i8, -1i8]
}

/// Square offsets of the bishop's diagonals.
pub open spec fn bishop_vectors<C: BoardConfig>() -> Seq<i8> {
    let w = C::spec_width() as i8;
    seq![(-(w + 1)) as i8, (-(w - 1)) as i8, (w + 1) as i8, (w - 1) as i8]
}

/// Square offsets of the queen's eight directions.
pub open spec fn queen_vectors<C: BoardConfig>() -> Seq<i8> {
    let w = C::spec_width() as i8;
    seq![(-w) as i8, w, 1i8, -1i8, (-(w + 1)) as i8, (-(w - 1)) as i8, (w + 1) as i8, (w - 1) as i8]
}

/// Whether `v` holds `x`.
pub fn vectors_contain(v: &[i8], x: i8) -> (r: bool)
    ensures
        r == v@.contains(x),
{
    let mut i: usize = 0;
    while i < v.len()
        invariant
            i <= v.len(),
            forall|j: int| 0 <= j < i ==> v@[j] != x,
        decreases v.len() - i,
    {
        if v[i] == x {
            return true;
        }
        i = i + 1;
    }
    false
}

/// A square's content: a piece of a colour, or nothing.
#[derive(Clone, Copy, Debug, PartialEq, Eq, Structural)]
pub enum Piece {
    White(PieceType),
    Black(PieceType),
    Empty,
}

impl Piece {
    pub fn get_piece(&self) -> (r: PieceType)
        ensures
            r == match *self {
                Piece::White(p) => p,
                Piece::Black(p) => p,
                Piece::Empty => PieceType::Empty,
            },
    {
        match self {
            Piece::White(ptype) => *ptype,
            Piece::Black(ptype) => *ptype,
            _ => PieceType::Empty,
        }
    }
}

/// Ray tables and attacks of the sliding pieces.
pub struct SliderMoves<C: BoardConfig> {
    _phantom_data: PhantomData<C>,
}

impl<C: BoardConfig> SliderMoves<C> {
    /// For each square and each of the eight directions, the whole ray to the edge of the board.
    pub fn generate_rays() -> (rays: Vec<[u128; 8]>)
        ensures
            rays@.len() == area::<C>(),
            forall|s: int, d: int, t: nat|
                0 <= s < area::<C>() && 0 <= d < 8 ==> #[trigger] has_bit(rays@[s][d], t)
                    == slide_target::<C>(
                    s as nat,
                    0,
                    direction_spec(d).0 as int,
                    direction_spec(d).1 as int,
                    t,
                ),
    {
        let n = C::area();
        proof {
            C::lemma_dims();
        }
        let mut rays: Vec<[u128; 8]> = Vec::new();
        let mut square: usize = 0;
        while square < n
            invariant
                n as nat == area::<C>(),
                n <= 128,
                square <= n,
                rays@.len() == square,
                forall|s: int, d: int, t: nat|
                    0 <= s < square && 0 <= d < 8 ==> #[trigger] has_bit(rays@[s][d], t)
                        == slide_target::<C>(
                        s as nat,
                        0,
                        direction_spec(d).0 as int,
                        direction_spec(d).1 as int,
                        t,
                    ),
            decreases n - square,
        {
            let mut row: [u128; 8] = [0; 8];
            let mut d: usize = 0;
            while d < 8
                invariant
                    n as nat == area::<C>(),
                    square < n,
                    n <= 128,
                    d <= 8,
                    forall|dd: int, t: nat|
                        0 <= dd < d ==> #[trigger] has_bit(row@[dd], t) == slide_target::<C>(
                            square as nat,
                            0,
                            direction_spec(dd).0 as int,
                            direction_spec(dd).1 as int,
                            t,
                        ),
                decreases 8 - d,
            {
                let (dr, df) = slider_direction(d);
                let ray = slide::<C>(square as u8, 0, dr, df);
                row[d] = ray;
                d = d + 1;
            }
            rays.push(row);
            square = square + 1;
        }
        rays
    }

    /// Union of the slider attacks along the given range of directions (indices into the
    /// eight directions).
    pub fn slider_attacks(pos: u8, occupancy: u128, directions: core::ops::Range<usize>) -> (r:
        u128)
        requires
            (pos as nat) < area::<C>(),
            directions.end <= 8,
        ensures
            forall|t: nat| #[trigger]
                has_bit(r, t) == exists|d: int|
                    directions.start <= d < directions.end && slide_target::<C>(
                        pos as nat,
                        occupancy,
                        direction_spec(d).0 as int,
                        direction_spec(d).1 as int,
                        t,
                    ),
    {
        let mut attacks: u128 = 0;
        let mut d = directions.start;
        let end = directions.end;
        while d < end
            invariant
                end == directions.end,
                end <= 8,
                d >= directions.start,
                d <= end || d == directions.start,
                (pos as nat) < area::<C>(),
                forall|t: nat| #[trigger]
                    has_bit(attacks, t) == exists|dd: int|
                        directions.start <= dd < d && slide_target::<C>(
                            pos as nat,
                            occupancy,
                            direction_spec(dd).0 as int,
                            direction_spec(dd).1 as int,
                            t,
                        ),
            decreases end - d,
        {
            let (dr, df) = slider_direction(d);
            let ray = slide::<C>(pos, occupancy, dr, df);
            let ghost old_attacks = attacks;
            attacks = attacks | ray;
            assert forall|t: nat| #[trigger]
                has_bit(attacks, t) == exists|dd: int|
                    directions.start <= dd < d + 1 && slide_target::<C>(
                        pos as nat,
                        occupancy,
                        direction_spec(dd).0 as int,
                        direction_spec(dd).1 as int,
                        t,
                    ) by {
                if has_bit(ray, t) {
                    assert(directions.start <= d < d + 1);
                }
            }
            d = d + 1;
        }
        assert forall|t: nat| #[trigger]
            has_bit(attacks, t) == exists|dd: int|
                directions.start <= dd < directions.end && slide_target::<C>(
                    pos as nat,
                    occupancy,
                    direction_spec(dd).0 as int,
                    direction_spec(dd).1 as int,
                    t,
                ) by {
            if has_bit(attacks, t) {
                let dd = choose|dd: int|
                    directions.start <= dd < d && slide_target::<C>(
                        pos as nat,
                        occupancy,
                        direction_spec(dd).0 as int,
                        direction_spec(dd).1 as int,
                        t,
                    );
                assert(directions.start <= dd < directions.end);
            }
            if exists|dd: int|
                directions.start <= dd < directions.end && slide_target::<C>(
                    pos as nat,
                    occupancy,
                    direction_spec(dd).0 as int,
                    direction_spec(dd).1 as int,
                    t,
                ) {
                let dd = choose|dd: int|
                    directions.start <= dd < directions.end && slide_target::<C>(
                        pos as nat,
                        occupancy,
                        direction_spec(dd).0 as int,
                        direction_spec(dd).1 as int,
                        t,
                    );
                assert(directions.start <= dd < d);
            }
        }
        attacks
    }
}

} // verus!
