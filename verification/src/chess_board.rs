use vstd::prelude::*;

use crate::bitboard::{group_bits, has_bit, lemma_bits_ext, lemma_test_single, single};
use crate::board_config::{area, lemma_square_coords, BoardConfig};
use crate::chess_move::{is_promotion_piece, MoveFlag, MoveTrait};
use crate::pawn::Pawn;
use crate::piece::{attack_target, move_target, Piece, PieceType};

pub mod fen;
pub mod movegen;
pub mod zobrist;


verus! {

broadcast use group_bits;

/// The side to move.
#[derive(Clone, Copy, Debug, PartialEq, Eq, Structural)]
pub enum CurrentPlayer {
    White,
    Black,
}

impl CurrentPlayer {
    pub open spec fn other_spec(self) -> CurrentPlayer {
        match self {
            CurrentPlayer::White => CurrentPlayer::Black,
            CurrentPlayer::Black => CurrentPlayer::White,
        }
    }

    pub fn other(&self) -> (r: CurrentPlayer)
        ensures
            r == self.other_spec(),
    {
        match self {
            CurrentPlayer::White => CurrentPlayer::Black,
            CurrentPlayer::Black => CurrentPlayer::White,
        }
    }
}

/// How a game has ended.
#[derive(Clone, Copy, Debug, PartialEq, Eq, Structural)]
pub enum GameStatus {
    DrawRepetition,
    DrawStalemate,
    DrawInsufficientMaterial,
    Won(CurrentPlayer),
}

/// What a move changed, kept so that the move can be taken back.
#[derive(Clone, Copy, Debug, PartialEq, Eq)]
pub struct MoveHistoryData<C: BoardConfig> {
    pub moved: C::MoveType,
    pub last_castling_data: u128,
    pub captured: PieceType,
    pub en_passant: Option<u8>,
    pub halfmove_clock: u8,
    pub zobrist: u64,
}

impl<C: BoardConfig> MoveHistoryData<C> {
    pub fn moved(&self) -> (r: C::MoveType)
        ensures
            r == self.moved,
    {
        self.moved
    }
}

/// The answer to whether a move may be played.
#[derive(Clone, Copy, Debug, PartialEq, Eq, Structural)]
pub enum MoveLegality {
    Legal,
    SemiLegal,
    IllegalPieceTypePinnedToKing,
    IllegalKingStillInCheck,
    IllegalOther,
}

/// A position with the record of the moves that led to it.
///
/// Squares are numbered row by row from the top left: square `r * width + f` is on row
/// `r` (row 0 is Black's back row) and column `f`.
#[derive(Clone, Debug, PartialEq, Eq)]
pub struct Chessboard<C: BoardConfig> {
    pieces: Vec<PieceType>,
    occupancy_board: u128,
    black_pieces_bitboard: u128,
    white_pieces_bitboard: u128,
    castling_rights: u128,
    en_passant_square: Option<u8>,
    halfmove_clock: u8,
    turn: CurrentPlayer,
    zobrist: u64,
    move_history: Vec<MoveHistoryData<C>>,
}

/// The mathematical content of a board.
#[verifier::ext_equal]
pub struct BoardModel<C: BoardConfig> {
    pub pieces: Seq<PieceType>,
    pub occupancy: u128,
    pub white: u128,
    pub black: u128,
    pub castling: u128,
    pub en_passant: Option<u8>,
    pub halfmove_clock: u8,
    pub turn: CurrentPlayer,
    pub zobrist: u64,
    pub history: Seq<MoveHistoryData<C>>,
}

impl<C: BoardConfig> View for Chessboard<C> {
    type V = BoardModel<C>;

    closed spec fn view(&self) -> BoardModel<C> {
        BoardModel {
            pieces: self.pieces@,
            occupancy: self.occupancy_board,
            white: self.white_pieces_bitboard,
            black: self.black_pieces_bitboard,
            castling: self.castling_rights,
            en_passant: self.en_passant_square,
            halfmove_clock: self.halfmove_clock,
            turn: self.turn,
            zobrist: self.zobrist,
            history: self.move_history@,
        }
    }
}

// ---------------------------------------------------------------------------
// Hashing
// ---------------------------------------------------------------------------
pub const SIDE_SEED: u64 = 0xBB67_AE85_84CA_A73B;

pub const CASTLING_SEED: u64 = 0x3C6E_F372_FE94_F82B;

pub const EN_PASSANT_SEED: u64 = 0xA54F_F53A_5F1D_36F1;

pub const PIECE_SEED: u64 = 0x6A09_E667_F3BC_C909;

/// The mixing function that turns a seed into a hash key.
pub open spec fn zobrist_key_spec(value: u64) -> u64 {
    let v1 = value.wrapping_add(0x9E37_79B9_7F4A_7C15);
    let v2 = (v1 ^ (v1 >> 30u64)).wrapping_mul(0xBF58_476D_1CE4_E5B9);
    let v3 = (v2 ^ (v2 >> 27u64)).wrapping_mul(0x94D0_49BB_1331_11EB);
    v3 ^ (v3 >> 31u64)
}

pub open spec fn piece_index_spec(p: PieceType) -> Option<u64> {
    match p {
        PieceType::Pawn(_) => Some(0),
        PieceType::Rook(_) => Some(1),
        PieceType::Knight(_) => Some(2),
        PieceType::Bishop(_) => Some(3),
        PieceType::Queen(_) => Some(4),
        PieceType::King(_) => Some(5),
        PieceType::Empty => None,
    }
}

pub open spec fn color_index(c: CurrentPlayer) -> u64 {
    match c {
        CurrentPlayer::White => 0,
        CurrentPlayer::Black => 1,
    }
}

/// Hash key of a piece of a colour on a square (zero for no piece).
pub open spec fn piece_key_spec(p: PieceType, c: CurrentPlayer, square: nat) -> u64 {
    match piece_index_spec(p) {
        None => 0,
        Some(pi) => zobrist_key_spec(
            PIECE_SEED ^ (((color_index(c) * 6 + pi) * 128 + square) as u64),
        ),
    }
}

/// Hash key of what stands on square `s`.
pub open spec fn square_key(pieces: Seq<PieceType>, white: u128, black: u128, s: nat) -> u64 {
    if has_bit(white, s) {
        piece_key_spec(pieces[s as int], CurrentPlayer::White, s)
    } else if has_bit(black, s) {
        piece_key_spec(pieces[s as int], CurrentPlayer::Black, s)
    } else {
        0
    }
}

/// Hash of the pieces on the first `k` squares.
pub open spec fn hash_squares(pieces: Seq<PieceType>, white: u128, black: u128, k: nat) -> u64
    decreases k,
{
    if k == 0 {
        0
    } else {
        hash_squares(pieces, white, black, (k - 1) as nat) ^ square_key(
            pieces,
            white,
            black,
            (k - 1) as nat,
        )
    }
}

/// `acc` combined with the keys of the castling rights among the first `k` squares.
pub open spec fn hash_castling(castling: u128, acc: u64, k: nat) -> u64
    decreases k,
{
    if k == 0 {
        acc
    } else {
        let h = hash_castling(castling, acc, (k - 1) as nat);
        if has_bit(castling, (k - 1) as nat) {
            h ^ zobrist_key_spec(CASTLING_SEED ^ ((k - 1) as u64))
        } else {
            h
        }
    }
}

/// The hash of a position: pieces, side to move, castling rights and en-passant square.
pub open spec fn position_hash<C: BoardConfig>(
    pieces: Seq<PieceType>,
    white: u128,
    black: u128,
    castling: u128,
    turn: CurrentPlayer,
    en_passant: Option<u8>,
) -> u64 {
    let h1 = hash_squares(pieces, white, black, area::<C>());
    let h2 = if turn == CurrentPlayer::Black {
        h1 ^ zobrist_key_spec(SIDE_SEED)
    } else {
        h1
    };
    let h3 = hash_castling(castling, h2, area::<C>());
    match en_passant {
        Some(sq) => h3 ^ zobrist_key_spec(EN_PASSANT_SEED ^ (sq as u64)),
        None => h3,
    }
}

// ---------------------------------------------------------------------------
// The model of moves
// ---------------------------------------------------------------------------
pub open spec fn castling_rank_spec<C: BoardConfig>(player: CurrentPlayer) -> nat {
    match player {
        CurrentPlayer::White => (C::spec_height() - 1) as nat,
        CurrentPlayer::Black => 0,
    }
}

/// The castling-right bits of one side: its king's and its rook's starting squares.
pub open spec fn castling_right_bits_spec<C: BoardConfig>(player: CurrentPlayer, kingside: bool) -> u128 {
    let rank_start = castling_rank_spec::<C>(player) * C::spec_width();
    let king = rank_start + 4;
    let rook = if kingside {
        rank_start + C::spec_width() - 1
    } else {
        rank_start as int
    };
    single(king) | single(rook as nat)
}

pub open spec fn is_pawn(p: PieceType) -> bool {
    p is Pawn
}

/// The square of the pawn taken en passant by a move to `to`.
pub open spec fn ep_capture_square<C: BoardConfig>(mover: CurrentPlayer, to: nat) -> int {
    match mover {
        CurrentPlayer::White => (to + C::spec_width()) as int,
        CurrentPlayer::Black => to - C::spec_width(),
    }
}

/// The rook squares of a castling move of the king from `from` to `to`: where the rook
/// starts (the corner on the side the king moves to) and where it ends (next to the king's
/// start, on that side).
pub open spec fn castling_rook_from<C: BoardConfig>(from: nat, to: nat) -> int {
    let rank_start = (from / C::spec_width()) * C::spec_width();
    if to > from {
        rank_start + C::spec_width() - 1
    } else {
        rank_start as int
    }
}

pub open spec fn castling_rook_to<C: BoardConfig>(from: nat, to: nat) -> int {
    if to > from {
        (from + 1) as int
    } else {
        from - 1
    }
}

/// A pawn move of two rows.
pub open spec fn is_double_step<C: BoardConfig>(moved: PieceType, from: nat, to: nat) -> bool {
    is_pawn(moved) && (to - from == 2 * C::spec_width() || from - to == 2 * C::spec_width())
}

/// The en-passant square after an ordinary move: the square a pawn passed over.
pub open spec fn ep_after<C: BoardConfig>(mover: CurrentPlayer, moved: PieceType, from: nat, to: nat) -> Option<u8> {
    if is_double_step::<C>(moved, from, to) {
        match mover {
            CurrentPlayer::White => Some((from - C::spec_width()) as u8),
            CurrentPlayer::Black => Some((from + C::spec_width()) as u8),
        }
    } else {
        None
    }
}

pub open spec fn is_special(flag: MoveFlag) -> bool {
    flag == MoveFlag::EnPassant || flag == MoveFlag::Castling
}

impl<C: BoardConfig> BoardModel<C> {
    /// The squares of a colour.
    pub open spec fn bits_of(self, p: CurrentPlayer) -> u128 {
        match p {
            CurrentPlayer::White => self.white,
            CurrentPlayer::Black => self.black,
        }
    }

    pub open spec fn hash(self) -> u64 {
        position_hash::<C>(
            self.pieces,
            self.white,
            self.black,
            self.castling,
            self.turn,
            self.en_passant,
        )
    }

    /// The board is consistent: the piece array, the colour boards and the occupancy
    /// board agree, the en-passant square is on the board, and the hash matches.
    pub open spec fn wf(self) -> bool {
        &&& self.pieces.len() == area::<C>()
        &&& forall|i: nat|
            i < area::<C>() ==> (self.pieces[i as int] != PieceType::Empty) == #[trigger] has_bit(
                self.occupancy,
                i,
            )
        &&& forall|i: nat| #[trigger]
            has_bit(self.occupancy, i) == (has_bit(self.white, i) || has_bit(self.black, i))
        &&& forall|i: nat| !(#[trigger] has_bit(self.white, i) && has_bit(self.black, i))
        &&& forall|i: nat| #[trigger] has_bit(self.occupancy, i) ==> i < area::<C>()
        &&& self.en_passant matches Some(e) ==> (e as nat) < area::<C>()
        &&& self.zobrist == self.hash()
    }

    /// The squares that an en-passant or castling move `m` reads and writes lie on the
    /// board, and a castling move leaves room on the halfmove clock: what moving its pieces
    /// needs, whether or not the pieces are where the move expects them.
    pub open spec fn special_in_range(self, m: C::MoveType) -> bool {
        let from = m.from_spec() as nat;
        let to = m.to_spec() as nat;
        &&& self.pieces.len() == area::<C>()
        &&& from < area::<C>()
        &&& to < area::<C>()
        &&& match m.flag_spec() {
            MoveFlag::EnPassant => 0 <= ep_capture_square::<C>(self.turn, to) < area::<C>(),
            MoveFlag::Castling => 0 <= castling_rook_to::<C>(from, to) < area::<C>()
                && self.halfmove_clock < 255,
            _ => true,
        }
    }

    /// `m` can be played: it moves a piece of the side to move to a square not held by
    /// that side, and the squares a special move touches are as the move needs them.
    pub open spec fn applicable(self, m: C::MoveType) -> bool {
        let from = m.from_spec() as nat;
        let to = m.to_spec() as nat;
        let own = self.bits_of(self.turn);
        let moved = self.pieces[from as int];
        &&& from < area::<C>()
        &&& to < area::<C>()
        &&& from != to
        &&& has_bit(own, from)
        &&& !has_bit(own, to)
        &&& (self.halfmove_clock < 255 || self.resets_clock(m))
        &&& match m.flag_spec() {
            MoveFlag::EnPassant => {
                let cap = ep_capture_square::<C>(self.turn, to);
                &&& 0 <= cap < area::<C>()
                &&& has_bit(self.bits_of(self.turn.other_spec()), cap as nat)
                &&& !has_bit(self.occupancy, to)
            },
            MoveFlag::Castling => {
                let rf = castling_rook_from::<C>(from, to);
                let rt = castling_rook_to::<C>(from, to);
                &&& 0 <= rf < area::<C>()
                &&& 0 <= rt < area::<C>()
                &&& rf != from && rf != to && rt != from && rt != to && rf != rt
                &&& has_bit(own, rf as nat)
                &&& !has_bit(self.occupancy, to)
                &&& !has_bit(self.occupancy, rt as nat)
            },
            _ => {
                &&& (m.flag_spec() == MoveFlag::Promotion ==> is_pawn(moved) && m.promotion_spec()
                    != PieceType::Empty)
                &&& (is_double_step::<C>(moved, from, to) ==> match self.turn {
                    CurrentPlayer::White => from >= C::spec_width(),
                    CurrentPlayer::Black => from + C::spec_width() < area::<C>(),
                })
            },
        }
    }

    /// Playing `m` sets the halfmove clock back to zero: an en-passant capture, or an
    /// ordinary move that takes a piece or moves a pawn.
    pub open spec fn resets_clock(self, m: C::MoveType) -> bool {
        match m.flag_spec() {
            MoveFlag::EnPassant => true,
            MoveFlag::Castling => false,
            _ => self.pieces[m.to_spec() as int] != PieceType::Empty || is_pawn(
                self.pieces[m.from_spec() as int],
            ),
        }
    }

    /// The piece taken by `m` (none for a castling move).
    pub open spec fn captured_by(self, m: C::MoveType) -> PieceType {
        let to = m.to_spec() as nat;
        match m.flag_spec() {
            MoveFlag::EnPassant => self.pieces[ep_capture_square::<C>(self.turn, to)],
            MoveFlag::Castling => PieceType::Empty,
            _ => self.pieces[to as int],
        }
    }

    /// The position after the pieces of `m` have moved; history and hash are left as they are.
    #[verifier::opaque]
    pub open spec fn moved_position(self, m: C::MoveType) -> BoardModel<C> {
        let from = m.from_spec() as nat;
        let to = m.to_spec() as nat;
        let fb = single(from);
        let tb = single(to);
        let moved = self.pieces[from as int];
        let white_moves = self.turn == CurrentPlayer::White;
        match m.flag_spec() {
            MoveFlag::EnPassant => {
                let cap = ep_capture_square::<C>(self.turn, to) as nat;
                let cb = single(cap);
                BoardModel {
                    pieces: self.pieces.update(to as int, moved).update(
                        from as int,
                        PieceType::Empty,
                    ).update(cap as int, PieceType::Empty),
                    occupancy: ((self.occupancy & !fb) | tb) & !cb,
                    white: if white_moves {
                        (self.white & !fb) | tb
                    } else {
                        self.white & !cb
                    },
                    black: if white_moves {
                        self.black & !cb
                    } else {
                        (self.black & !fb) | tb
                    },
                    castling: (self.castling & !fb) & !tb,
                    en_passant: None,
                    halfmove_clock: 0,
                    turn: self.turn.other_spec(),
                    ..self
                }
            },
            MoveFlag::Castling => {
                let rf = castling_rook_from::<C>(from, to) as nat;
                let rt = castling_rook_to::<C>(from, to) as nat;
                let clear = !(fb | single(rf));
                let set = tb | single(rt);
                let rook = self.pieces.update(to as int, moved).update(
                    from as int,
                    PieceType::Empty,
                )[rf as int];
                BoardModel {
                    pieces: self.pieces.update(to as int, moved).update(
                        from as int,
                        PieceType::Empty,
                    ).update(rt as int, rook).update(rf as int, PieceType::Empty),
                    occupancy: (self.occupancy & clear) | set,
                    white: if white_moves {
                        (self.white & clear) | set
                    } else {
                        self.white
                    },
                    black: if white_moves {
                        self.black
                    } else {
                        (self.black & clear) | set
                    },
                    castling: self.castling & !(castling_right_bits_spec::<C>(self.turn, true)
                        | castling_right_bits_spec::<C>(self.turn, false)),
                    en_passant: None,
                    halfmove_clock: (self.halfmove_clock + 1) as u8,
                    turn: self.turn.other_spec(),
                    ..self
                }
            },
            _ => {
                let captured = self.pieces[to as int];
                BoardModel {
                    pieces: if m.flag_spec() == MoveFlag::Promotion {
                        self.pieces.update(to as int, m.promotion_spec()).update(
                            from as int,
                            PieceType::Empty,
                        )
                    } else {
                        self.pieces.update(to as int, moved).update(from as int, PieceType::Empty)
                    },
                    occupancy: (self.occupancy ^ fb) | tb,
                    white: if white_moves {
                        (self.white & !fb) | tb
                    } else {
                        self.white & !tb
                    },
                    black: if white_moves {
                        self.black & !tb
                    } else {
                        (self.black & !fb) | tb
                    },
                    castling: (self.castling & !fb) & !tb,
                    en_passant: ep_after::<C>(self.turn, moved, from, to),
                    halfmove_clock: if captured != PieceType::Empty || is_pawn(moved) {
                        0
                    } else {
                        (self.halfmove_clock + 1) as u8
                    },
                    turn: self.turn.other_spec(),
                    ..self
                }
            },
        }
    }

    /// The record that playing `m` adds to the history.
    pub open spec fn history_entry(self, m: C::MoveType) -> MoveHistoryData<C> {
        MoveHistoryData {
            moved: m,
            last_castling_data: self.castling,
            captured: self.captured_by(m),
            en_passant: self.en_passant,
            halfmove_clock: self.halfmove_clock,
            zobrist: self.zobrist,
        }
    }

    /// The board after playing `m`: pieces moved, the move recorded, the hash recomputed.
    pub open spec fn applied(self, m: C::MoveType) -> BoardModel<C> {
        let p = self.moved_position(m);
        BoardModel {
            zobrist: p.hash(),
            history: self.history.push(self.history_entry(m)),
            ..p
        }
    }

    /// The pieces put back as they were before the move recorded in `e`.
    #[verifier::opaque]
    pub open spec fn unmoved_position(self, e: MoveHistoryData<C>) -> BoardModel<C> {
        let m = e.moved;
        let from = m.from_spec() as nat;
        let to = m.to_spec() as nat;
        let fb = single(from);
        let tb = single(to);
        let white_moved = self.turn == CurrentPlayer::Black;
        match m.flag_spec() {
            MoveFlag::EnPassant => {
                let cap = (if self.turn == CurrentPlayer::White {
                    to - C::spec_width()
                } else {
                    (to + C::spec_width()) as int
                }) as nat;
                let cb = single(cap);
                BoardModel {
                    pieces: self.pieces.update(from as int, self.pieces[to as int]).update(
                        to as int,
                        PieceType::Empty,
                    ).update(cap as int, e.captured),
                    occupancy: ((self.occupancy | fb) & !tb) | cb,
                    white: if white_moved {
                        (self.white | fb) & !tb
                    } else {
                        self.white | cb
                    },
                    black: if white_moved {
                        self.black | cb
                    } else {
                        (self.black | fb) & !tb
                    },
                    turn: self.turn.other_spec(),
                    ..self
                }
            },
            MoveFlag::Castling => {
                let rf = castling_rook_from::<C>(from, to) as nat;
                let rt = castling_rook_to::<C>(from, to) as nat;
                let clear = tb | single(rt);
                let set = fb | single(rf);
                let p1 = self.pieces.update(from as int, self.pieces[to as int]).update(
                    to as int,
                    PieceType::Empty,
                );
                BoardModel {
                    pieces: p1.update(rf as int, p1[rt as int]).update(rt as int, PieceType::Empty),
                    occupancy: (self.occupancy & !clear) | set,
                    white: if white_moved {
                        (self.white & !clear) | set
                    } else {
                        self.white
                    },
                    black: if white_moved {
                        self.black
                    } else {
                        (self.black & !clear) | set
                    },
                    turn: self.turn.other_spec(),
                    ..self
                }
            },
            _ => {
                let p1 = self.pieces.update(from as int, self.pieces[to as int]).update(
                    to as int,
                    e.captured,
                );
                let captured = e.captured != PieceType::Empty;
                BoardModel {
                    pieces: if m.flag_spec() == MoveFlag::Promotion {
                        p1.update(from as int, PieceType::Pawn(Pawn))
                    } else {
                        p1
                    },
                    occupancy: if captured {
                        (self.occupancy | fb) | tb
                    } else {
                        (self.occupancy | fb) & !tb
                    },
                    white: if white_moved {
                        (self.white | fb) & !tb
                    } else if captured {
                        (self.white & !tb) | tb
                    } else {
                        self.white & !tb
                    },
                    black: if white_moved {
                        if captured {
                            (self.black & !tb) | tb
                        } else {
                            self.black & !tb
                        }
                    } else {
                        (self.black | fb) & !tb
                    },
                    turn: self.turn.other_spec(),
                    ..self
                }
            },
        }
    }

    /// The board with its last move taken back.
    pub open spec fn undone(self) -> BoardModel<C> {
        let e = self.history.last();
        let p = self.unmoved_position(e);
        BoardModel {
            castling: e.last_castling_data,
            halfmove_clock: e.halfmove_clock,
            en_passant: e.en_passant,
            zobrist: e.zobrist,
            history: self.history.drop_last(),
            ..p
        }
    }

    /// The board is consistent, and its history is the record of moves that were played
    /// from consistent boards and lead to it.
    pub open spec fn valid(self) -> bool {
        self.wf() && self.history_ok()
    }

    /// Each record of the history is that of a move played from a consistent board, and
    /// taking it back gives that board.
    #[verifier::opaque]
    pub open spec fn history_ok(self) -> bool
        decreases self.history.len(),
    {
        self.history.len() > 0 ==> {
            let e = self.history.last();
            let prev = self.undone();
            &&& prev.applicable(e.moved)
            &&& prev.applied(e.moved) == self
            &&& prev.wf()
            &&& prev.history_ok()
        }
    }
}

// ---------------------------------------------------------------------------
// Laws of moves
// ---------------------------------------------------------------------------
/// Taking back a move that was just played gives back the board as it was before.
pub proof fn lemma_undo_applied<C: BoardConfig>(b: BoardModel<C>, m: C::MoveType)
    requires
        b.wf(),
        b.applicable(m),
    ensures
        b.applied(m).undone() == b,
{
    reveal(BoardModel::moved_position);
    reveal(BoardModel::unmoved_position);
    C::lemma_dims();
    let a = b.applied(m);
    let e = b.history_entry(m);
    assert(a.history.last() == e);
    assert(a.history.drop_last() =~= b.history);
    let u = a.undone();
    let from = m.from_spec() as nat;
    let to = m.to_spec() as nat;
    let white_moves = b.turn == CurrentPlayer::White;
    assert(has_bit(b.occupancy, to) == (b.pieces[to as int] != PieceType::Empty));
    assert(has_bit(b.occupancy, to) == (has_bit(b.white, to) || has_bit(b.black, to)));
    assert(has_bit(b.occupancy, from) == (has_bit(b.white, from) || has_bit(b.black, from)));
    assert(!(has_bit(b.white, to) && has_bit(b.black, to)));
    assert(!(has_bit(b.white, from) && has_bit(b.black, from)));
    match m.flag_spec() {
        MoveFlag::EnPassant => {
            let cap = ep_capture_square::<C>(b.turn, to) as nat;
            assert(cap != to && cap != from);
            assert(u.pieces =~= b.pieces);
        },
        MoveFlag::Castling => {
            assert(u.pieces =~= b.pieces);
        },
        _ => {
            assert(u.pieces =~= b.pieces);
        },
    }
    assert forall|i: nat| i < 128 implies has_bit(u.white, i) == has_bit(b.white, i) by {
        if white_moves {
        } else {
        }
    }
    assert forall|i: nat| i < 128 implies has_bit(u.black, i) == has_bit(b.black, i) by {
        if white_moves {
        } else {
        }
    }
    assert forall|i: nat| i < 128 implies has_bit(u.occupancy, i) == has_bit(b.occupancy, i) by {}
    lemma_bits_ext(u.white, b.white);
    lemma_bits_ext(u.black, b.black);
    lemma_bits_ext(u.occupancy, b.occupancy);
    assert(u =~= b);
}

/// Playing an applicable move keeps a board consistent.
pub proof fn lemma_applied_wf<C: BoardConfig>(b: BoardModel<C>, m: C::MoveType)
    requires
        b.wf(),
        b.applicable(m),
    ensures
        b.applied(m).wf(),
{
    reveal(BoardModel::moved_position);
    C::lemma_dims();
    let a = b.applied(m);
    let from = m.from_spec() as nat;
    let to = m.to_spec() as nat;
    let n = area::<C>();
    let white_moves = b.turn == CurrentPlayer::White;
    assert(has_bit(b.occupancy, to) == (b.pieces[to as int] != PieceType::Empty));
    assert(has_bit(b.occupancy, from) == (b.pieces[from as int] != PieceType::Empty));
    assert(has_bit(b.occupancy, to) == (has_bit(b.white, to) || has_bit(b.black, to)));
    assert(has_bit(b.occupancy, from) == (has_bit(b.white, from) || has_bit(b.black, from)));
    assert(!(has_bit(b.white, to) && has_bit(b.black, to)));
    assert(!(has_bit(b.white, from) && has_bit(b.black, from)));
    match m.flag_spec() {
        MoveFlag::EnPassant => {
            let cap = ep_capture_square::<C>(b.turn, to) as nat;
            assert(has_bit(b.occupancy, cap) == (b.pieces[cap as int] != PieceType::Empty));
            assert(has_bit(b.occupancy, cap) == (has_bit(b.white, cap) || has_bit(b.black, cap)));
            assert(!(has_bit(b.white, cap) && has_bit(b.black, cap)));
            assert forall|i: nat| i < n implies (a.pieces[i as int] != PieceType::Empty)
                == #[trigger] has_bit(a.occupancy, i) by {
                assert(has_bit(b.occupancy, i) == (b.pieces[i as int] != PieceType::Empty));
            }
        },
        MoveFlag::Castling => {
            let rf = castling_rook_from::<C>(from, to) as nat;
            let rt = castling_rook_to::<C>(from, to) as nat;
            assert(has_bit(b.occupancy, rf) == (b.pieces[rf as int] != PieceType::Empty));
            assert(has_bit(b.occupancy, rf) == (has_bit(b.white, rf) || has_bit(b.black, rf)));
            assert(has_bit(b.occupancy, rt) == (has_bit(b.white, rt) || has_bit(b.black, rt)));
            assert(has_bit(b.occupancy, rt) == (b.pieces[rt as int] != PieceType::Empty));
            assert forall|i: nat| i < n implies (a.pieces[i as int] != PieceType::Empty)
                == #[trigger] has_bit(a.occupancy, i) by {
                assert(has_bit(b.occupancy, i) == (b.pieces[i as int] != PieceType::Empty));
            }
        },
        _ => {
            assert forall|i: nat| i < n implies (a.pieces[i as int] != PieceType::Empty)
                == #[trigger] has_bit(a.occupancy, i) by {
                assert(has_bit(b.occupancy, i) == (b.pieces[i as int] != PieceType::Empty));
            }
        },
    }
    assert forall|i: nat| #[trigger]
        has_bit(a.occupancy, i) == (has_bit(a.white, i) || has_bit(a.black, i)) by {
        assert(has_bit(b.occupancy, i) == (has_bit(b.white, i) || has_bit(b.black, i)));
    }
    assert forall|i: nat| !(#[trigger] has_bit(a.white, i) && has_bit(a.black, i)) by {
        assert(!(has_bit(b.white, i) && has_bit(b.black, i)));
    }
    assert forall|i: nat| #[trigger] has_bit(a.occupancy, i) implies i < n by {
        if has_bit(b.occupancy, i) {
        }
    }
}

/// Playing a move passes the turn, keeps the number of squares and records the move.
pub proof fn lemma_applied_basics<C: BoardConfig>(b: BoardModel<C>, m: C::MoveType)
    ensures
        b.applied(m).turn == b.turn.other_spec(),
        b.applied(m).history == b.history.push(b.history_entry(m)),
{
    reveal(BoardModel::moved_position);
}

/// Playing a move other than castling clears the castling rights of its two squares and
/// passes the turn. After an en-passant capture the halfmove clock is zero and no square
/// is open to en passant; after any other move the clock restarts on a capture or a pawn
/// move and counts up otherwise, and the square a pawn passes over on a double step
/// becomes the en-passant square.
#[verifier::spinoff_prover]
pub proof fn lemma_applied_state<C: BoardConfig>(b: BoardModel<C>, m: C::MoveType)
    requires
        m.flag_spec() != MoveFlag::Castling,
    ensures
        ({
            let a = b.applied(m);
            let f = m.from_spec() as nat;
            let t = m.to_spec() as nat;
            let moved = b.pieces[f as int];
            &&& a.castling == (b.castling & !single(f)) & !single(t)
            &&& a.turn == b.turn.other_spec()
            &&& m.flag_spec() == MoveFlag::EnPassant ==> a.halfmove_clock == 0 && a.en_passant
                is None
            &&& m.flag_spec() != MoveFlag::EnPassant ==> a.halfmove_clock == (if is_pawn(moved)
                || b.pieces[t as int] != PieceType::Empty {
                0
            } else {
                (b.halfmove_clock + 1) as u8
            }) && a.en_passant == ep_after::<C>(b.turn, moved, f, t)
        }),
{
    reveal(BoardModel::moved_position);
}

/// An ordinary move (neither en passant nor castling) that lands on an occupied square
/// restarts the halfmove clock, whichever piece moves; a move of a piece other than a
/// pawn to an empty square counts it up by one.
pub proof fn lemma_capture_restarts_clock<C: BoardConfig>(b: BoardModel<C>, m: C::MoveType)
    requires
        m.flag_spec() != MoveFlag::Castling,
        m.flag_spec() != MoveFlag::EnPassant,
        b.halfmove_clock < 255,
    ensures
        b.pieces[m.to_spec() as int] != PieceType::Empty ==> b.applied(m).halfmove_clock == 0,
        b.pieces[m.to_spec() as int] == PieceType::Empty && !(b.pieces[m.from_spec() as int] is Pawn)
            ==> b.applied(m).halfmove_clock == b.halfmove_clock + 1,
        b.pieces[m.from_spec() as int] is Pawn ==> b.applied(m).halfmove_clock == 0,
{
    lemma_applied_state::<C>(b, m);
}

/// Castling counts the halfmove clock up by one, closes en passant, takes away both
/// castling rights of the side that castles and keeps those of the other side, and passes
/// the turn.
pub proof fn lemma_castling_state<C: BoardConfig>(b: BoardModel<C>, m: C::MoveType)
    requires
        m.flag_spec() == MoveFlag::Castling,
        b.halfmove_clock < 255,
    ensures
        b.applied(m).halfmove_clock == b.halfmove_clock + 1,
        b.applied(m).en_passant is None,
        b.applied(m).turn == b.turn.other_spec(),
        b.applied(m).castling & castling_right_bits_spec::<C>(b.turn, true) == 0,
        b.applied(m).castling & castling_right_bits_spec::<C>(b.turn, false) == 0,
        b.applied(m).castling & castling_right_bits_spec::<C>(b.turn.other_spec(), true)
            == b.castling & castling_right_bits_spec::<C>(b.turn.other_spec(), true),
        b.applied(m).castling & castling_right_bits_spec::<C>(b.turn.other_spec(), false)
            == b.castling & castling_right_bits_spec::<C>(b.turn.other_spec(), false),
{
    reveal(BoardModel::moved_position);
    broadcast use crate::bitboard::group_bits;
    C::lemma_dims();
    let w = C::spec_width();
    let h = C::spec_height();
    assert((h - 1) * w >= 2 * w) by (nonlinear_arith)
        requires
            h >= 3,
            w >= 8,
    ;
    let c = b.castling;
    let k = castling_right_bits_spec::<C>(b.turn, true);
    let q = castling_right_bits_spec::<C>(b.turn, false);
    let ok = castling_right_bits_spec::<C>(b.turn.other_spec(), true);
    let oq = castling_right_bits_spec::<C>(b.turn.other_spec(), false);
    let a = b.applied(m).castling;
    assert(a == c & !(k | q));
    assert forall|i: nat| i < 128 implies !has_bit(a & k, i) && !has_bit(a & q, i) by {}
    crate::bitboard::lemma_zero_iff_empty(a & k);
    crate::bitboard::lemma_zero_iff_empty(a & q);
    assert forall|i: nat| i < 128 implies has_bit(a & ok, i) == has_bit(c & ok, i) by {
        if has_bit(ok, i) {
            assert(!has_bit(k, i) && !has_bit(q, i));
        }
    }
    crate::bitboard::lemma_bits_ext(a & ok, c & ok);
    assert forall|i: nat| i < 128 implies has_bit(a & oq, i) == has_bit(c & oq, i) by {
        if has_bit(oq, i) {
            assert(!has_bit(k, i) && !has_bit(q, i));
        }
    }
    crate::bitboard::lemma_bits_ext(a & oq, c & oq);
}

/// Playing an applicable move on a valid board gives a valid board.
pub proof fn lemma_applied_valid<C: BoardConfig>(b: BoardModel<C>, m: C::MoveType)
    requires
        b.valid(),
        b.applicable(m),
    ensures
        b.applied(m).valid(),
{
    reveal(BoardModel::history_ok);
    let a = b.applied(m);
    lemma_applied_wf(b, m);
    lemma_undo_applied(b, m);
    assert(a.history.last() == b.history_entry(m));
}

/// Number of history entries whose hash is `z`.
pub open spec fn count_hash<C: BoardConfig>(history: Seq<MoveHistoryData<C>>, z: u64) -> nat
    decreases history.len(),
{
    if history.len() == 0 {
        0
    } else {
        count_hash(history.drop_last(), z) + if history.last().zobrist == z {
            1nat
        } else {
            0nat
        }
    }
}

/// A position cannot have occurred more often than there are entries in the history.
pub proof fn lemma_count_hash_le<C: BoardConfig>(history: Seq<MoveHistoryData<C>>, z: u64)
    ensures
        count_hash(history, z) <= history.len(),
    decreases history.len(),
{
    if history.len() > 0 {
        lemma_count_hash_le(history.drop_last(), z);
    }
}

/// What stands on square `i`, with its colour.
pub open spec fn piece_at_spec<C: BoardConfig>(b: BoardModel<C>, i: nat) -> Piece {
    if has_bit(b.white, i) {
        Piece::White(b.pieces[i as int])
    } else if has_bit(b.black, i) {
        Piece::Black(b.pieces[i as int])
    } else {
        Piece::Empty
    }
}

/// Before the move recorded in `e` is taken back, the squares it touched are on the board.
pub open spec fn unmove_ok<C: BoardConfig>(b: BoardModel<C>, e: MoveHistoryData<C>) -> bool {
    let from = e.moved.from_spec() as nat;
    let to = e.moved.to_spec() as nat;
    &&& from < area::<C>()
    &&& to < area::<C>()
    &&& b.pieces.len() == area::<C>()
    &&& match e.moved.flag_spec() {
        MoveFlag::EnPassant => if b.turn == CurrentPlayer::White {
            to >= C::spec_width()
        } else {
            to + C::spec_width() < area::<C>()
        },
        MoveFlag::Castling => {
            let rf = castling_rook_from::<C>(from, to);
            let rt = castling_rook_to::<C>(from, to);
            0 <= rf < area::<C>() && 0 <= rt < area::<C>()
        },
        _ => true,
    }
}

/// The single-bit board of square `i`.
pub fn sq_bit(i: usize) -> (r: u128)
    requires
        i < 128,
    ensures
        r == single(i as nat),
{
    1u128 << (i as u128)
}

impl<C: BoardConfig> Chessboard<C> {
    pub fn height() -> (r: usize)
        ensures
            r as nat == C::spec_height(),
    {
        C::height()
    }

    fn castling_rank(player: CurrentPlayer) -> (r: usize)
        ensures
            r as nat == castling_rank_spec::<C>(player),
    {
        proof {
            C::lemma_dims();
        }
        match player {
            CurrentPlayer::White => C::height() - 1,
            CurrentPlayer::Black => 0,
        }
    }

    /// The castling-right bits of `player` on one side.
    pub fn castling_right_bits(player: CurrentPlayer, kingside: bool) -> (r: u128)
        ensures
            r == castling_right_bits_spec::<C>(player, kingside),
    {
        proof {
            C::lemma_dims();
            assert(castling_rank_spec::<C>(player) * C::spec_width() <= (C::spec_height() - 1)
                * C::spec_width()) by (nonlinear_arith)
                requires
                    castling_rank_spec::<C>(player) <= C::spec_height() - 1,
            ;
            assert((C::spec_height() - 1) * C::spec_width() + C::spec_width() == C::spec_height()
                * C::spec_width()) by (nonlinear_arith);
        }
        let w = C::width();
        let rank_start = Self::castling_rank(player) * w;
        let king = rank_start + 4;
        let rook = if kingside {
            rank_start + w - 1
        } else {
            rank_start
        };
        sq_bit(king) | sq_bit(rook)
    }

    /// An empty board, White to move.
    pub fn new() -> (r: Chessboard<C>)
        ensures
            r@.valid(),
            r@.pieces == Seq::new(area::<C>(), |i: int| PieceType::Empty),
            r@.occupancy == 0,
            r@.white == 0,
            r@.black == 0,
            r@.castling == 0,
            r@.en_passant == None::<u8>,
            r@.halfmove_clock == 0,
            r@.turn == CurrentPlayer::White,
            r@.history.len() == 0,
    {
        proof {
            C::lemma_dims();
        }
        let n = C::area();
        let mut pieces_vec: Vec<PieceType> = Vec::new();
        let mut i: usize = 0;
        while i < n
            invariant
                i <= n,
                pieces_vec@ == Seq::new(i as nat, |j: int| PieceType::Empty),
            decreases n - i,
        {
            pieces_vec.push(PieceType::Empty);
            i = i + 1;
            assert(pieces_vec@ =~= Seq::new(i as nat, |j: int| PieceType::Empty));
        }
        let r = Chessboard {
            pieces: pieces_vec,
            turn: CurrentPlayer::White,
            occupancy_board: 0,
            black_pieces_bitboard: 0,
            white_pieces_bitboard: 0,
            castling_rights: 0,
            en_passant_square: None,
            halfmove_clock: 0,
            zobrist: 0,
            move_history: Vec::new(),
        };
        proof {
            reveal(BoardModel::history_ok);
            lemma_hash_squares_empty(r@.pieces, area::<C>());
            lemma_hash_castling_empty(0, 0, area::<C>());
        }
        r
    }

    /// The hash-key mixing function.
    pub fn zobrist_key(value: u64) -> (r: u64)
        ensures
            r == zobrist_key_spec(value),
    {
        let mut value = value;
        value = value.wrapping_add(0x9E37_79B9_7F4A_7C15);
        value = (value ^ (value >> 30)).wrapping_mul(0xBF58_476D_1CE4_E5B9);
        value = (value ^ (value >> 27)).wrapping_mul(0x94D0_49BB_1331_11EB);
        value ^ (value >> 31)
    }

    fn piece_index(piece: &PieceType) -> (r: Option<u64>)
        ensures
            r == piece_index_spec(*piece),
    {
        match piece {
            PieceType::Pawn(_) => Some(0),
            PieceType::Rook(_) => Some(1),
            PieceType::Knight(_) => Some(2),
            PieceType::Bishop(_) => Some(3),
            PieceType::Queen(_) => Some(4),
            PieceType::King(_) => Some(5),
            PieceType::Empty => None,
        }
    }

    fn piece_zobrist_key(piece: &PieceType, color: CurrentPlayer, square: usize) -> (r: u64)
        requires
            square < 128,
        ensures
            r == piece_key_spec(*piece, color, square as nat),
    {
        let piece = match Self::piece_index(piece) {
            Some(p) => p,
            None => {
                return 0;
            },
        };
        let color: u64 = match color {
            CurrentPlayer::White => 0,
            CurrentPlayer::Black => 1,
        };
        Self::zobrist_key(0x6A09_E667_F3BC_C909 ^ ((color * 6 + piece) * 128 + square as u64))
    }

    /// The hash of the position, computed from scratch.
    fn calculate_zobrist_hash(&self) -> (r: u64)
        requires
            self.pieces@.len() == area::<C>(),
        ensures
            r == position_hash::<C>(
                self@.pieces,
                self@.white,
                self@.black,
                self@.castling,
                self@.turn,
                self@.en_passant,
            ),
    {
        proof {
            C::lemma_dims();
        }
        let n = C::area();
        let mut hash: u64 = 0;
        let mut square: usize = 0;
        while square < n
            invariant
                n as nat == area::<C>(),
                n <= 128,
                square <= n,
                self.pieces@.len() == n,
                hash == hash_squares(
                    self.pieces@,
                    self.white_pieces_bitboard,
                    self.black_pieces_bitboard,
                    square as nat,
                ),
            decreases n - square,
        {
            proof {
                lemma_test_single(self.white_pieces_bitboard, square as nat);
                lemma_test_single(self.black_pieces_bitboard, square as nat);
            }
            if (self.white_pieces_bitboard & sq_bit(square)) != 0 {
                hash = hash ^ Self::piece_zobrist_key(&self.pieces[square], CurrentPlayer::White, square);
            } else if (self.black_pieces_bitboard & sq_bit(square)) != 0 {
                hash = hash ^ Self::piece_zobrist_key(&self.pieces[square], CurrentPlayer::Black, square);
            } else {
                assert(hash ^ 0u64 == hash) by (bit_vector);
            }
            square = square + 1;
        }
        if self.turn == CurrentPlayer::Black {
            hash = hash ^ Self::zobrist_key(0xBB67_AE85_84CA_A73B);
        }
        let ghost h2 = hash;
        let mut square: usize = 0;
        while square < n
            invariant
                n as nat == area::<C>(),
                n <= 128,
                square <= n,
                hash == hash_castling(self.castling_rights, h2, square as nat),
            decreases n - square,
        {
            proof {
                lemma_test_single(self.castling_rights, square as nat);
            }
            if (self.castling_rights & sq_bit(square)) != 0 {
                hash = hash ^ Self::zobrist_key(0x3C6E_F372_FE94_F82B ^ square as u64);
            }
            square = square + 1;
        }
        if let Some(square) = self.en_passant_square {
            hash = hash ^ Self::zobrist_key(0xA54F_F53A_5F1D_36F1 ^ square as u64);
        }
        hash
    }

    /// Plays `move_`; always succeeds on a move that can be played.
    pub fn apply_move(&mut self, move_: C::MoveType) -> (r: Result<(), ()>)
        requires
            old(self)@.valid(),
            old(self)@.applicable(move_),
        ensures
            r == Ok::<(), ()>(()),
            final(self)@ == old(self)@.applied(move_),
            final(self)@.valid(),
    {
        let ghost b = self@;
        proof {
            C::lemma_dims();
            reveal(BoardModel::moved_position);
        }
        let last_castling_rights = self.castling_rights;
        let last_halfmove_clock = self.halfmove_clock;
        let last_en_passant_square = self.en_passant_square;
        let last_zobrist = self.zobrist;
        let from = move_.from() as usize;
        let to = move_.to() as usize;
        let flag = move_.flag();
        let moved = self.pieces[from];
        let captured;
        if flag == MoveFlag::EnPassant || flag == MoveFlag::Castling {
            match self.handle_special_move(move_) {
                Ok(c) => {
                    captured = c;
                },
                Err(()) => {
                    return Err(());
                },
            }
        } else {
            captured = self.move_ordinary(move_);
        }
        assert(self@ == b.moved_position(move_));
        self.update_zobrist_after_move(
            move_,
            &moved,
            &captured,
            last_castling_rights,
            last_en_passant_square,
            Ghost(b),
        );
        self.move_history.push(
            MoveHistoryData {
                moved: move_,
                last_castling_data: last_castling_rights,
                captured,
                en_passant: last_en_passant_square,
                halfmove_clock: last_halfmove_clock,
                zobrist: last_zobrist,
            },
        );
        proof {
            assert(self@ =~= b.applied(move_));
            lemma_applied_valid(b, move_);
        }
        Ok(())
    }

    /// Moves the pieces of a move that is neither en passant nor castling; returns the piece taken.
    fn move_ordinary(&mut self, move_: C::MoveType) -> (captured: PieceType)
        requires
            old(self)@.wf(),
            old(self)@.applicable(move_),
            !is_special(move_.flag_spec()),
        ensures
            captured == old(self)@.captured_by(move_),
            final(self)@ == old(self)@.moved_position(move_),
    {
        proof {
            reveal(BoardModel::moved_position);
        }
        let ghost b = self@;
        proof {
            C::lemma_dims();
        }
        let w = C::width();
        let n = C::area();
        let from = move_.from() as usize;
        let to = move_.to() as usize;
        let moved = self.pieces[from];
        let captured = self.pieces[to];
        let is_double = matches!(moved, PieceType::Pawn(_)) && (to == from + 2 * w || from == to + 2
            * w);
        if is_double {
            if self.turn == CurrentPlayer::White {
                self.en_passant_square = Some((from - w) as u8);
            } else {
                self.en_passant_square = Some((from + w) as u8);
            }
        } else {
            self.en_passant_square = None;
        }
        self.pieces.set(to, moved);
        self.pieces.set(from, PieceType::Empty);
        let moved_bit = sq_bit(from);
        let changed_bit = sq_bit(to);
        self.occupancy_board = self.occupancy_board ^ moved_bit;
        self.occupancy_board = self.occupancy_board | changed_bit;
        self.castling_rights = self.castling_rights & !moved_bit;
        self.castling_rights = self.castling_rights & !changed_bit;
        if self.turn == CurrentPlayer::White {
            self.white_pieces_bitboard = self.white_pieces_bitboard & !moved_bit;
            self.white_pieces_bitboard = self.white_pieces_bitboard | changed_bit;
            self.black_pieces_bitboard = self.black_pieces_bitboard & !changed_bit;
            self.turn = CurrentPlayer::Black;
        } else {
            self.black_pieces_bitboard = self.black_pieces_bitboard & !moved_bit;
            self.black_pieces_bitboard = self.black_pieces_bitboard | changed_bit;
            self.white_pieces_bitboard = self.white_pieces_bitboard & !changed_bit;
            self.turn = CurrentPlayer::White;
        }
        if captured != PieceType::Empty || matches!(moved, PieceType::Pawn(_)) {
            self.halfmove_clock = 0;
        } else {
            self.halfmove_clock = self.halfmove_clock + 1;
        }
        if move_.flag() == MoveFlag::Promotion {
            self.pieces.set(to, move_.promotion());
        }
        proof {
            assert(self.pieces@ =~= b.moved_position(move_).pieces);
            assert(self@ =~= b.moved_position(move_));
        }
        captured
    }

    /// Moves the pieces of an en-passant or castling move and returns the piece taken; any
    /// other move is refused and leaves the board as it is. The pieces move as the move
    /// says whether or not they stand where it expects them (an empty origin moves an
    /// empty square).
    #[verifier::spinoff_prover]
    pub fn handle_special_move(&mut self, move_: C::MoveType) -> (r: Result<PieceType, ()>)
        requires
            is_special(move_.flag_spec()) ==> old(self)@.special_in_range(move_),
        ensures
            is_special(move_.flag_spec()) ==> r == Ok::<PieceType, ()>(old(self)@.captured_by(move_))
                && final(self)@ == old(self)@.moved_position(move_),
            !is_special(move_.flag_spec()) ==> r == Err::<PieceType, ()>(()) && final(self)@ == old(
                self,
            )@,
    {
        proof {
            reveal(BoardModel::moved_position);
        }
        let ghost b = self@;
        proof {
            C::lemma_dims();
        }
        let w = C::width();
        match move_.flag() {
            MoveFlag::EnPassant => {
                let from = move_.from() as usize;
                let to = move_.to() as usize;
                let captured_sq = if self.turn == CurrentPlayer::White {
                    to + w
                } else {
                    to - w
                };
                let captured_piece = self.pieces[captured_sq];
                let moving = self.pieces[from];
                self.pieces.set(to, moving);
                self.pieces.set(from, PieceType::Empty);
                self.pieces.set(captured_sq, PieceType::Empty);
                let moved_bit = sq_bit(from);
                let changed_bit = sq_bit(to);
                let captured_bit = sq_bit(captured_sq);
                self.occupancy_board = self.occupancy_board & !moved_bit;
                self.occupancy_board = self.occupancy_board | changed_bit;
                self.occupancy_board = self.occupancy_board & !captured_bit;
                if self.turn == CurrentPlayer::White {
                    self.white_pieces_bitboard = self.white_pieces_bitboard & !moved_bit;
                    self.white_pieces_bitboard = self.white_pieces_bitboard | changed_bit;
                    self.black_pieces_bitboard = self.black_pieces_bitboard & !captured_bit;
                    self.turn = CurrentPlayer::Black;
                } else {
                    self.black_pieces_bitboard = self.black_pieces_bitboard & !moved_bit;
                    self.black_pieces_bitboard = self.black_pieces_bitboard | changed_bit;
                    self.white_pieces_bitboard = self.white_pieces_bitboard & !captured_bit;
                    self.turn = CurrentPlayer::White;
                }
                self.castling_rights = self.castling_rights & !moved_bit;
                self.castling_rights = self.castling_rights & !changed_bit;
                self.halfmove_clock = 0;
                self.en_passant_square = None;
                proof {
                    assert(self.pieces@ =~= b.moved_position(move_).pieces);
                    assert(self@ =~= b.moved_position(move_));
                }
                Ok(captured_piece)
            },
            MoveFlag::Castling => {
                let from = move_.from() as usize;
                let to = move_.to() as usize;
                let moving = self.pieces[from];
                self.pieces.set(to, moving);
                self.pieces.set(from, PieceType::Empty);
                let is_kingside = to > from;
                proof {
                    let h = C::spec_height();
                    assert((from / w) * w <= from && (from / w) * w + w <= w * h) by (
                    nonlinear_arith)
                        requires
                            w > 0,
                            h > 0,
                            from < w * h,
                    {
                        vstd::arithmetic::div_mod::lemma_multiply_divide_lt(
                            from as int,
                            w as int,
                            h as int,
                        );
                    }
                }
                let rank_start = (from / w) * w;
                let rook_from = if is_kingside {
                    rank_start + w - 1
                } else {
                    rank_start
                };
                let rook_to = if is_kingside {
                    from + 1
                } else {
                    from - 1
                };
                let rook = self.pieces[rook_from];
                self.pieces.set(rook_to, rook);
                self.pieces.set(rook_from, PieceType::Empty);
                let k_from_bit = sq_bit(from);
                let k_to_bit = sq_bit(to);
                let r_from_bit = sq_bit(rook_from);
                let r_to_bit = sq_bit(rook_to);
                let clear_mask = !(k_from_bit | r_from_bit);
                let set_mask = k_to_bit | r_to_bit;
                self.occupancy_board = self.occupancy_board & clear_mask;
                self.occupancy_board = self.occupancy_board | set_mask;
                if self.turn == CurrentPlayer::White {
                    self.white_pieces_bitboard = self.white_pieces_bitboard & clear_mask;
                    self.white_pieces_bitboard = self.white_pieces_bitboard | set_mask;
                    self.turn = CurrentPlayer::Black;
                } else {
                    self.black_pieces_bitboard = self.black_pieces_bitboard & clear_mask;
                    self.black_pieces_bitboard = self.black_pieces_bitboard | set_mask;
                    self.turn = CurrentPlayer::White;
                }
                let player = self.turn.other();
                let rights_to_clear = Self::castling_right_bits(player, true)
                    | Self::castling_right_bits(player, false);
                self.castling_rights = self.castling_rights & !rights_to_clear;
                self.halfmove_clock = self.halfmove_clock + 1;
                self.en_passant_square = None;
                proof {
                    assert(self.pieces@ =~= b.moved_position(move_).pieces);
                    assert(self@ =~= b.moved_position(move_));
                }
                Ok(PieceType::Empty)
            },
            _ => Err(()),
        }
    }

    /// The record of the last move played.
    pub fn last_move(&self) -> (r: Option<&MoveHistoryData<C>>)
        ensures
            self@.history.len() == 0 ==> r is None,
            self@.history.len() > 0 ==> r == Some(&self@.history.last()),
    {
        let len = self.move_history.len();
        if len == 0 {
            None
        } else {
            Some(&self.move_history[len - 1])
        }
    }

    /// Takes back the last move played and returns it.
    pub fn undo_move(&mut self) -> (r: C::MoveType)
        requires
            old(self)@.valid(),
            old(self)@.history.len() > 0,
        ensures
            r == old(self)@.history.last().moved,
            final(self)@ == old(self)@.undone(),
            final(self)@.valid(),
    {
        let ghost b = self@;
        let ghost prev = b.undone();
        let last_move = self.move_history.pop().unwrap();
        proof {
            reveal(BoardModel::history_ok);
            reveal(BoardModel::unmoved_position);
            assert(last_move == b.history.last());
            assert(prev.applicable(last_move.moved));
            assert(prev.applied(last_move.moved) == b);
            C::lemma_dims();
        }
        let flag = last_move.moved.flag();
        if flag == MoveFlag::EnPassant || flag == MoveFlag::Castling {
            let _ = self.undo_special_move(&last_move);
        } else {
            self.unmove_ordinary(&last_move);
        }
        self.castling_rights = last_move.last_castling_data;
        self.halfmove_clock = last_move.halfmove_clock;
        self.en_passant_square = last_move.en_passant;
        self.zobrist = last_move.zobrist;
        proof {
            assert(self@ =~= b.undone());
        }
        last_move.moved
    }

    /// Puts back the pieces of an ordinary move recorded in `last_move`.
    fn unmove_ordinary(&mut self, last_move: &MoveHistoryData<C>)
        requires
            unmove_ok(old(self)@, *last_move),
            !is_special(last_move.moved.flag_spec()),
        ensures
            final(self)@ == old(self)@.unmoved_position(*last_move),
    {
        proof {
            reveal(BoardModel::unmoved_position);
        }
        let ghost b = self@;
        proof {
            C::lemma_dims();
        }
        let from = last_move.moved.from() as usize;
        let to = last_move.moved.to() as usize;
        let from_bit = sq_bit(from);
        let to_bit = sq_bit(to);
        let moving = self.pieces[to];
        self.pieces.set(from, moving);
        self.pieces.set(to, last_move.captured);
        if self.turn == CurrentPlayer::Black {
            self.white_pieces_bitboard = self.white_pieces_bitboard | from_bit;
            self.white_pieces_bitboard = self.white_pieces_bitboard & !to_bit;
            self.black_pieces_bitboard = self.black_pieces_bitboard & !to_bit;
            if last_move.captured != PieceType::Empty {
                self.black_pieces_bitboard = self.black_pieces_bitboard | to_bit;
            }
            self.turn = CurrentPlayer::White;
        } else {
            self.black_pieces_bitboard = self.black_pieces_bitboard | from_bit;
            self.black_pieces_bitboard = self.black_pieces_bitboard & !to_bit;
            self.white_pieces_bitboard = self.white_pieces_bitboard & !to_bit;
            if last_move.captured != PieceType::Empty {
                self.white_pieces_bitboard = self.white_pieces_bitboard | to_bit;
            }
            self.turn = CurrentPlayer::Black;
        }
        self.occupancy_board = self.occupancy_board | from_bit;
        if last_move.captured == PieceType::Empty {
            self.occupancy_board = self.occupancy_board & !to_bit;
        } else {
            self.occupancy_board = self.occupancy_board | to_bit;
        }
        if last_move.moved.flag() == MoveFlag::Promotion {
            self.pieces.set(from, PieceType::Pawn(Pawn));
        }
        proof {
            assert(self.pieces@ =~= b.unmoved_position(*last_move).pieces);
            assert(self@ =~= b.unmoved_position(*last_move));
        }
    }

    /// Puts back the pieces of an en-passant or castling move; any other move is refused
    /// and leaves the board as it is.
    pub fn undo_special_move(&mut self, last_move: &MoveHistoryData<C>) -> (r: Result<(), ()>)
        requires
            is_special(last_move.moved.flag_spec()) ==> unmove_ok(old(self)@, *last_move),
        ensures
            is_special(last_move.moved.flag_spec()) ==> r == Ok::<(), ()>(()) && final(self)@
                == old(self)@.unmoved_position(*last_move),
            !is_special(last_move.moved.flag_spec()) ==> r == Err::<(), ()>(()) && final(self)@
                == old(self)@,
    {
        proof {
            reveal(BoardModel::unmoved_position);
        }
        let ghost b = self@;
        proof {
            C::lemma_dims();
        }
        let w = C::width();
        let from = last_move.moved.from() as usize;
        let to = last_move.moved.to() as usize;
        match last_move.moved.flag() {
            MoveFlag::EnPassant => {
                let from_bit = sq_bit(from);
                let to_bit = sq_bit(to);
                let actual_captured_sq = if self.turn == CurrentPlayer::White {
                    to - w
                } else {
                    to + w
                };
                let captured_bit = sq_bit(actual_captured_sq);
                let moving = self.pieces[to];
                self.pieces.set(from, moving);
                self.pieces.set(to, PieceType::Empty);
                self.pieces.set(actual_captured_sq, last_move.captured);
                if self.turn == CurrentPlayer::Black {
                    self.white_pieces_bitboard = self.white_pieces_bitboard | from_bit;
                    self.white_pieces_bitboard = self.white_pieces_bitboard & !to_bit;
                    self.black_pieces_bitboard = self.black_pieces_bitboard | captured_bit;
                    self.turn = CurrentPlayer::White;
                } else {
                    self.black_pieces_bitboard = self.black_pieces_bitboard | from_bit;
                    self.black_pieces_bitboard = self.black_pieces_bitboard & !to_bit;
                    self.white_pieces_bitboard = self.white_pieces_bitboard | captured_bit;
                    self.turn = CurrentPlayer::Black;
                }
                self.occupancy_board = self.occupancy_board | from_bit;
                self.occupancy_board = self.occupancy_board & !to_bit;
                self.occupancy_board = self.occupancy_board | captured_bit;
                proof {
                    assert(self.pieces@ =~= b.unmoved_position(*last_move).pieces);
                    assert(self@ =~= b.unmoved_position(*last_move));
                }
                Ok(())
            },
            MoveFlag::Castling => {
                let from_bit = sq_bit(from);
                let to_bit = sq_bit(to);
                let moving = self.pieces[to];
                self.pieces.set(from, moving);
                self.pieces.set(to, PieceType::Empty);
                let is_kingside = to > from;
                proof {
                    let h = C::spec_height();
                    assert((from / w) * w <= from && (from / w) * w + w <= w * h) by (
                    nonlinear_arith)
                        requires
                            w > 0,
                            h > 0,
                            from < w * h,
                    {
                        vstd::arithmetic::div_mod::lemma_multiply_divide_lt(
                            from as int,
                            w as int,
                            h as int,
                        );
                    }
                }
                let rank_start = (from / w) * w;
                let rook_from = if is_kingside {
                    rank_start + w - 1
                } else {
                    rank_start
                };
                let rook_to = if is_kingside {
                    from + 1
                } else {
                    from - 1
                };
                let rook = self.pieces[rook_to];
                self.pieces.set(rook_from, rook);
                self.pieces.set(rook_to, PieceType::Empty);
                let r_from_bit = sq_bit(rook_from);
                let r_to_bit = sq_bit(rook_to);
                let clear_mask = to_bit | r_to_bit;
                let set_mask = from_bit | r_from_bit;
                self.occupancy_board = self.occupancy_board & !clear_mask;
                self.occupancy_board = self.occupancy_board | set_mask;
                if self.turn == CurrentPlayer::Black {
                    self.white_pieces_bitboard = self.white_pieces_bitboard & !clear_mask;
                    self.white_pieces_bitboard = self.white_pieces_bitboard | set_mask;
                    self.turn = CurrentPlayer::White;
                } else {
                    self.black_pieces_bitboard = self.black_pieces_bitboard & !clear_mask;
                    self.black_pieces_bitboard = self.black_pieces_bitboard | set_mask;
                    self.turn = CurrentPlayer::Black;
                }
                proof {
                    assert(self.pieces@ =~= b.unmoved_position(*last_move).pieces);
                    assert(self@ =~= b.unmoved_position(*last_move));
                }
                Ok(())
            },
            _ => Err(()),
        }
    }
}

/// The hash of a board without pieces is zero.
pub proof fn lemma_hash_squares_empty(pieces: Seq<PieceType>, k: nat)
    ensures
        hash_squares(pieces, 0, 0, k) == 0,
    decreases k,
{
    if k > 0 {
        lemma_hash_squares_empty(pieces, (k - 1) as nat);
        assert(0u64 ^ 0u64 == 0u64) by (bit_vector);
    }
}

/// No castling right adds nothing to the hash.
pub proof fn lemma_hash_castling_empty(castling: u128, acc: u64, k: nat)
    requires
        castling == 0,
    ensures
        hash_castling(castling, acc, k) == acc,
    decreases k,
{
    if k > 0 {
        lemma_hash_castling_empty(castling, acc, (k - 1) as nat);
    }
}

// ---------------------------------------------------------------------------
// The model of move generation
// ---------------------------------------------------------------------------
/// Some piece of `side` (a set of squares, of colour `player`) attacks `t`.
#[verifier::opaque]
pub open spec fn attacked_by<C: BoardConfig>(
    pieces: Seq<PieceType>,
    occ: u128,
    side: u128,
    player: CurrentPlayer,
    t: nat,
) -> bool {
    exists|s: nat|
        s < area::<C>() && #[trigger] has_bit(side, s) && attack_target::<C>(
            pieces[s as int],
            s,
            occ,
            player,
            t,
        )
}

/// A king of `side` stands on `s`.
pub open spec fn is_king_of<C: BoardConfig>(pieces: Seq<PieceType>, side: u128, s: nat) -> bool {
    s < area::<C>() && pieces[s as int] is King && has_bit(side, s)
}

pub open spec fn has_king<C: BoardConfig>(pieces: Seq<PieceType>, side: u128) -> bool {
    exists|s: nat| is_king_of::<C>(pieces, side, s)
}

/// The first square holding a king of `side`.
pub open spec fn king_square<C: BoardConfig>(pieces: Seq<PieceType>, side: u128) -> nat {
    choose|s: nat|
        is_king_of::<C>(pieces, side, s) && forall|j: nat| j < s ==> !is_king_of::<C>(pieces, side, j)
}

/// What a square-index ray meets: starting from `cur`, take up to `steps` steps of `v`
/// squares, stopping at the edge of the board (or when a step changes column by more than
/// one); the first occupied square reached, if any.
pub open spec fn raycast_spec<C: BoardConfig>(occ: u128, v: int, cur: int, steps: nat) -> Option<nat>
    decreases steps,
{
    if steps == 0 {
        None
    } else {
        let next = cur + v;
        if next < 0 || next >= area::<C>() {
            None
        } else if (cur % C::spec_width() as int) - (next % C::spec_width() as int) > 1 || (next
            % C::spec_width() as int) - (cur % C::spec_width() as int) > 1 {
            None
        } else if has_bit(occ, next as nat) {
            Some(next as nat)
        } else {
            raycast_spec::<C>(occ, v, next, (steps - 1) as nat)
        }
    }
}

/// The eight square offsets along which pins are searched.
pub open spec fn attack_vectors() -> Seq<i8> {
    seq![-8i8, 8i8, 1i8, -1i8, -9i8, -7i8, 9i8, 7i8]
}

/// A piece that slides opposite to `vector`: what `PieceType::has_opposite_vector` answers.
pub open spec fn opposite_vector_spec<C: BoardConfig>(p: PieceType, vector: i8) -> bool {
    match p {
        PieceType::Rook(_) => crate::piece::rook_vectors::<C>().contains((-vector) as i8),
        PieceType::Bishop(_) => crate::piece::bishop_vectors::<C>().contains((-vector) as i8),
        PieceType::Queen(_) => crate::piece::queen_vectors::<C>().contains((-vector) as i8),
        _ => false,
    }
}

/// Step sign, as `i16::signum` computes it.
pub open spec fn signum(x: int) -> int {
    if x > 0 {
        1
    } else if x < 0 {
        -1
    } else {
        0
    }
}

/// The square-index step from the king towards a pinned piece.
pub open spec fn pin_vector<C: BoardConfig>(king: nat, pinned: nat) -> int {
    let w = C::spec_width() as int;
    signum((pinned / C::spec_width()) as int - (king / C::spec_width()) as int) * w + signum(
        (pinned % C::spec_width()) as int - (king % C::spec_width()) as int,
    )
}

/// The `j`-th square index from `king` along `v`.
pub open spec fn lin_sq(king: int, v: int, j: int) -> int {
    king + j * v
}

/// The squares a pinned piece may move to: the line from the king through it, up to the
/// first other occupied square (included) or the end of the index range.
pub open spec fn pin_ray_target<C: BoardConfig>(occ: u128, king: nat, pinned: nat, t: nat) -> bool {
    let v = pin_vector::<C>(king, pinned);
    exists|k: int|
        #![trigger lin_sq(king as int, v, k)]
        k >= 1 && t == lin_sq(king as int, v, k) && (forall|j: int|
            1 <= j <= k ==> 0 <= #[trigger] lin_sq(king as int, v, j) < area::<C>()) && (forall|
            j: int,
        |
            1 <= j < k ==> !(has_bit(occ, #[trigger] lin_sq(king as int, v, j) as nat) && lin_sq(
                king as int,
                v,
                j,
            ) != pinned))
}

/// What one pawn double step or promotion rule sees: the move leaves a pawn on the last row
/// of its side.
pub open spec fn promotes<C: BoardConfig>(b: BoardModel<C>, s: nat, t: nat) -> bool {
    &&& b.pieces[s as int] is Pawn
    &&& ((b.turn == CurrentPlayer::Black && t / C::spec_width() == C::spec_height() - 1) || (b.turn
        == CurrentPlayer::White && t < C::spec_width()))
}

/// The kind of an ordinary move from `s` to `t` that is not a promotion.
pub open spec fn ordinary_flag<C: BoardConfig>(b: BoardModel<C>, s: nat, t: nat) -> MoveFlag {
    if has_bit(b.occupancy & !b.bits_of(b.turn), t) {
        MoveFlag::Capture
    } else if b.pieces[s as int] is Pawn && (t - s == 2 * C::spec_width() || s - t == 2
        * C::spec_width()) {
        MoveFlag::DoublePawnPush
    } else {
        MoveFlag::Quiet
    }
}

impl<C: BoardConfig> BoardModel<C> {
    /// A piece of `player` attacks `t`.
    pub open spec fn attacked(self, player: CurrentPlayer, t: nat) -> bool {
        attacked_by::<C>(self.pieces, self.occupancy, self.bits_of(player), player, t)
    }

    pub open spec fn king_of(self, player: CurrentPlayer) -> nat {
        king_square::<C>(self.pieces, self.bits_of(player))
    }

    pub open spec fn has_king_of(self, player: CurrentPlayer) -> bool {
        has_king::<C>(self.pieces, self.bits_of(player))
    }

    /// The king of `player` is attacked.
    pub open spec fn in_check(self, player: CurrentPlayer) -> bool {
        self.attacked(player.other_spec(), self.king_of(player))
    }

    /// `s` is a piece of `player` pinned to its king, or an opposing slider pinning one,
    /// as found along the eight ray directions from the king.
    #[verifier::opaque]
    pub open spec fn pinned(self, player: CurrentPlayer, s: nat) -> bool {
        exists|k: int| 0 <= k < 8 && #[trigger] self.pin_hit(player, k, s)
    }

    pub open spec fn pin_hit(self, player: CurrentPlayer, k: int, s: nat) -> bool {
        let v = attack_vectors()[k];
        let own = self.bits_of(player);
        let opp = self.bits_of(player.other_spec());
        match raycast_spec::<C>(self.occupancy, v as int, self.king_of(player) as int, area::<C>()) {
            Some(r) => has_bit(own, r) && match raycast_spec::<C>(
                self.occupancy,
                v as int,
                r as int,
                area::<C>(),
            ) {
                Some(p) => has_bit(opp, p) && opposite_vector_spec::<C>(self.pieces[p as int], v)
                    && (s == r || s == p),
                None => false,
            },
            None => false,
        }
    }

    /// The destinations of the piece of the side to move on `s`: its moves to empty squares
    /// and captures, without squares of its own side, kept on its pin line if pinned, and
    /// for a king without attacked squares.
    #[verifier::opaque]
    pub open spec fn destination(self, s: nat, t: nat) -> bool {
        let p = self.pieces[s as int];
        let own = self.bits_of(self.turn);
        let enemy = self.occupancy & !own;
        &&& (move_target::<C>(p, s, self.occupancy, self.turn, t) || (attack_target::<C>(
            p,
            s,
            self.occupancy,
            self.turn,
            t,
        ) && has_bit(enemy, t)))
        &&& !has_bit(own, t)
        &&& (self.pinned(self.turn, s) ==> pin_ray_target::<C>(
            self.occupancy,
            self.king_of(self.turn),
            s,
            t,
        ))
        &&& (p is King ==> !self.attacked(self.turn.other_spec(), t))
    }

    /// An ordinary move of the generator, in the form that `new` builds: a piece of the side
    /// to move to one of its destinations; a pawn reaching the last row promotes to a queen,
    /// rook, bishop or knight.
    #[verifier::opaque]
    pub open spec fn ordinary_move(self, m: C::MoveType) -> bool {
        let s = m.from_spec() as nat;
        let t = m.to_spec() as nat;
        &&& m.canonical()
        &&& s < area::<C>()
        &&& t < area::<C>()
        &&& has_bit(self.bits_of(self.turn), s)
        &&& self.destination(s, t)
        &&& if promotes(self, s, t) {
            m.flag_spec() == MoveFlag::Promotion && is_promotion_piece(m.promotion_spec())
        } else {
            m.flag_spec() == ordinary_flag(self, s, t) && m.promotion_spec() == PieceType::Empty
        }
    }

    /// After `m`, the king of the side that moved is attacked.
    #[verifier::opaque]
    pub open spec fn checked_after(self, m: C::MoveType) -> bool {
        self.moved_position(m).in_check(self.turn)
    }

    /// An en-passant capture, in the form that `new` builds, by a pawn of the side to move
    /// onto the en-passant square that does not leave its king attacked.
    #[verifier::opaque]
    pub open spec fn en_passant_move(self, m: C::MoveType) -> bool {
        let s = m.from_spec() as nat;
        let t = m.to_spec() as nat;
        &&& m.canonical()
        &&& s < area::<C>()
        &&& has_bit(self.bits_of(self.turn), s)
        &&& self.pieces[s as int] is Pawn
        &&& self.en_passant == Some(t as u8)
        &&& attack_target::<C>(self.pieces[s as int], s, self.occupancy, self.turn, t)
        &&& m.flag_spec() == MoveFlag::EnPassant
        &&& m.promotion_spec() == PieceType::Empty
        &&& self.applicable(m)
        &&& !self.checked_after(m)
    }

    /// The castling rights, empty squares and unattacked king path of one side of castling.
    pub open spec fn castling_allowed(self, kingside: bool) -> bool {
        let offset = castling_rank_spec::<C>(self.turn) * C::spec_width();
        let king = offset + 4;
        let rook = if kingside {
            offset + C::spec_width() - 1
        } else {
            offset as int
        };
        let rights = single(king) | single(rook as nat);
        let other = self.turn.other_spec();
        &&& self.castling & rights == rights
        &&& (forall|q: nat|
            (if kingside {
                king < q < rook
            } else {
                rook < q < king
            }) ==> !has_bit(self.occupancy, q))
        &&& !self.attacked(other, king)
        &&& !self.attacked(other, (if kingside { (king + 1) as int } else { king - 1 }) as nat)
        &&& !self.attacked(other, (if kingside { (king + 2) as int } else { king - 2 }) as nat)
    }

    /// A castling move, in the form that `new` builds: the piece on the king's starting
    /// square moves two squares towards a rook when that side of castling is allowed.
    #[verifier::opaque]
    pub open spec fn castling_move(self, m: C::MoveType) -> bool {
        let offset = castling_rank_spec::<C>(self.turn) * C::spec_width();
        let king = offset + 4;
        &&& m.canonical()
        &&& m.flag_spec() == MoveFlag::Castling
        &&& m.promotion_spec() == PieceType::Empty
        &&& m.from_spec() as nat == king
        &&& ((m.to_spec() as nat == king + 2 && self.castling_allowed(true)) || (m.to_spec() as int
            == king - 2 && self.castling_allowed(false)))
    }

    /// The moves the generator considers before the check filter.
    #[verifier::opaque]
    pub open spec fn semilegal(self, m: C::MoveType, checked: bool) -> bool {
        self.ordinary_move(m) || self.en_passant_move(m) || (!checked && self.castling_move(m))
    }

    /// The moves the generator returns: when the king is attacked, those that leave it safe.
    #[verifier::opaque]
    pub open spec fn generated(self, m: C::MoveType) -> bool {
        if self.in_check(self.turn) {
            self.semilegal(m, true) && !self.checked_after(m)
        } else {
            self.semilegal(m, false)
        }
    }
}

impl<C: BoardConfig> BoardModel<C> {
    /// The side to move has a move.
    pub open spec fn has_moves(self) -> bool {
        exists|m: C::MoveType| self.generated(m)
    }

    /// The position has occurred at least twice before (compared by hash).
    pub open spec fn repeated(self) -> bool {
        count_hash(self.history, self.zobrist) >= 2
    }

    /// How the game stands: over, with its result, or not (`None`). Without a move the
    /// side in check has lost and otherwise it is a draw; with moves, fifty moves without
    /// a capture or a pawn move draw, and so does the third occurrence of a position.
    pub open spec fn outcome(self) -> Option<GameStatus> {
        if !self.has_moves() {
            if self.in_check(self.turn) {
                Some(GameStatus::Won(self.turn.other_spec()))
            } else {
                Some(GameStatus::DrawStalemate)
            }
        } else if self.halfmove_clock >= 100 {
            Some(GameStatus::DrawStalemate)
        } else if self.repeated() {
            Some(GameStatus::DrawRepetition)
        } else {
            None
        }
    }

    /// The castling rights of the side to move on one side name squares that hold its own
    /// pieces: its king's and its rook's.
    pub open spec fn rights_backed(self, kingside: bool) -> bool {
        let rights = castling_right_bits_spec::<C>(self.turn, kingside);
        let offset = castling_rank_spec::<C>(self.turn) * C::spec_width();
        let rook = if kingside {
            offset + C::spec_width() - 1
        } else {
            offset as int
        };
        self.castling & rights == rights ==> has_bit(self.bits_of(self.turn), offset + 4) && has_bit(
            self.bits_of(self.turn),
            rook as nat,
        )
    }
}

/// Two moves with the same origin, destination, kind and promotion piece.
pub open spec fn same_move<C: BoardConfig>(a: C::MoveType, b: C::MoveType) -> bool {
    &&& a.from_spec() == b.from_spec()
    &&& a.to_spec() == b.to_spec()
    &&& a.flag_spec() == b.flag_spec()
    &&& a.promotion_spec() == b.promotion_spec()
}

/// The list holds exactly the moves that satisfy `pred`, each once.
pub open spec fn lists_exactly<C: BoardConfig>(
    moves: Seq<C::MoveType>,
    pred: spec_fn(C::MoveType) -> bool,
) -> bool {
    &&& forall|k: int| 0 <= k < moves.len() ==> pred(#[trigger] moves[k])
    &&& forall|m: C::MoveType| #[trigger]
        pred(m) ==> exists|k: int| 0 <= k < moves.len() && same_move::<C>(moves[k], m)
    &&& forall|i: int, j: int|
        0 <= i < j < moves.len() ==> !same_move::<C>(#[trigger] moves[i], #[trigger] moves[j])
}

impl<C: BoardConfig> Chessboard<C> {
    pub fn current_player(&self) -> (r: CurrentPlayer)
        ensures
            r == self@.turn,
    {
        self.turn
    }

    pub fn castling_rights(&self) -> (r: u128)
        ensures
            r == self@.castling,
    {
        self.castling_rights
    }

    pub fn en_passant_square(&self) -> (r: Option<u8>)
        ensures
            r == self@.en_passant,
    {
        self.en_passant_square
    }

    pub fn halfmove_clock(&self) -> (r: u8)
        ensures
            r == self@.halfmove_clock,
    {
        self.halfmove_clock
    }

    pub fn zobrist_hash(&self) -> (r: u64)
        ensures
            r == self@.zobrist,
    {
        self.zobrist
    }

    /// How often the current position has occurred: once now, plus each earlier
    /// occurrence recorded in the history (compared by hash).
    pub fn repetition_count(&self) -> (r: usize)
        requires
            self@.history.len() < usize::MAX,
        ensures
            r == 1 + count_hash(self@.history, self@.zobrist),
    {
        1 + self.count_current_hash()
    }

    fn count_current_hash(&self) -> (r: usize)
        ensures
            r == count_hash(self@.history, self@.zobrist),
            r <= self@.history.len(),
    {
        let mut count: usize = 0;
        let mut i: usize = 0;
        while i < self.move_history.len()
            invariant
                i <= self.move_history@.len(),
                count == count_hash(self.move_history@.subrange(0, i as int), self.zobrist),
                count <= i,
            decreases self.move_history@.len() - i,
        {
            proof {
                assert(self.move_history@.subrange(0, i as int + 1).drop_last()
                    =~= self.move_history@.subrange(0, i as int));
            }
            if self.move_history[i].zobrist == self.zobrist {
                count = count + 1;
            }
            i = i + 1;
        }
        proof {
            assert(self.move_history@.subrange(0, i as int) =~= self.move_history@);
        }
        count
    }

    /// What stands on `square`, with its colour.
    pub fn piece_at(&self, square: usize) -> (r: Piece)
        requires
            self@.pieces.len() == area::<C>(),
            (square as nat) < area::<C>(),
        ensures
            r == piece_at_spec(self@, square as nat),
    {
        proof {
            C::lemma_dims();
            lemma_test_single(self.white_pieces_bitboard, square as nat);
            lemma_test_single(self.black_pieces_bitboard, square as nat);
        }
        let piece = self.pieces[square];
        if (self.white_pieces_bitboard & sq_bit(square)) != 0 {
            Piece::White(piece)
        } else if (self.black_pieces_bitboard & sq_bit(square)) != 0 {
            Piece::Black(piece)
        } else {
            Piece::Empty
        }
    }

    /// The content of every square, in square order.
    pub fn get_pieces(&self) -> (r: Vec<Piece>)
        requires
            self@.pieces.len() == area::<C>(),
        ensures
            r@.len() == area::<C>(),
            forall|i: int| 0 <= i < area::<C>() ==> #[trigger] r@[i] == piece_at_spec(self@, i as nat),
    {
        let n = C::area();
        let mut out: Vec<Piece> = Vec::new();
        let mut i: usize = 0;
        while i < n
            invariant
                n as nat == area::<C>(),
                i <= n,
                self@.pieces.len() == area::<C>(),
                out@.len() == i,
                forall|j: int| 0 <= j < i ==> #[trigger] out@[j] == piece_at_spec(self@, j as nat),
            decreases n - i,
        {
            out.push(self.piece_at(i));
            i = i + 1;
        }
        out
    }
}

} // verus!
