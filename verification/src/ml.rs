use vstd::prelude::*;

use crate::board_config::{
    area, file_of, lemma_coords_square, lemma_square_coords, on_board, rank_of, square_at,
    BoardConfig,
};
use crate::bitboard::group_bits;
use crate::chess_board::{
    castling_rook_from, castling_right_bits_spec, count_hash, lemma_count_hash_le, piece_at_spec, BoardModel, Chessboard, CurrentPlayer,
};
use crate::chess_move::{MoveFlag, MoveTrait};
use crate::piece::{index_spec, Piece, PieceType};

verus! {

/// Number of inputs that describe the game state rather than the pieces.
pub const STATE_FEATURES: usize = 23;

/// How the pieces of a position are laid out as inputs of a model.
///
/// `ColorPerMapping` gives each kind of piece one plane, seen from the side of each
/// player (a White piece counts +1 on its square, a Black piece -1 on the mirrored
/// square); `TwoColorsPerMapping` gives each kind one plane per colour.
#[derive(Clone, Copy, Debug, PartialEq, Eq, Structural)]
pub enum FeatureMapping {
    ColorPerMapping,
    TwoColorsPerMapping,
}

impl Default for FeatureMapping {
    fn default() -> (r: FeatureMapping)
        ensures
            r == FeatureMapping::ColorPerMapping,
    {
        FeatureMapping::ColorPerMapping
    }
}

/// Number of piece planes of a mapping.
pub open spec fn planes(m: FeatureMapping) -> nat {
    match m {
        FeatureMapping::ColorPerMapping => 6,
        FeatureMapping::TwoColorsPerMapping => 12,
    }
}

/// Number of inputs of a mapping: the piece planes, the side to move, the state.
pub open spec fn input_len<C: BoardConfig>(m: FeatureMapping) -> nat {
    planes(m) * area::<C>() + 1 + STATE_FEATURES as nat
}

/// The square on the same column, seen from the other side of the board.
pub open spec fn mirror<C: BoardConfig>(s: nat) -> nat {
    square_at::<C>(C::spec_height() - 1 - rank_of::<C>(s), file_of::<C>(s))
}

/// Mirroring keeps a square on the board, and mirroring twice gives it back.
pub proof fn lemma_mirror<C: BoardConfig>(s: nat)
    requires
        s < area::<C>(),
    ensures
        mirror::<C>(s) < area::<C>(),
        mirror::<C>(mirror::<C>(s)) == s,
{
    lemma_square_coords::<C>(s);
    let r = rank_of::<C>(s);
    let f = file_of::<C>(s);
    let h = C::spec_height() as int;
    assert(on_board::<C>(h - 1 - r, f));
    lemma_coords_square::<C>(h - 1 - r, f);
    assert(on_board::<C>(h - 1 - (h - 1 - r), f));
    lemma_coords_square::<C>(r, f);
}

/// 1 when a White piece of kind `k` (counted from 0, in index order) stands on `s`.
pub open spec fn white_kind<C: BoardConfig>(b: BoardModel<C>, s: nat, k: int) -> int {
    match piece_at_spec(b, s) {
        Piece::White(p) => if index_spec(p) == k + 1 {
            1
        } else {
            0
        },
        _ => 0,
    }
}

/// 1 when a Black piece of kind `k` (counted from 0, in index order) stands on `s`.
pub open spec fn black_kind<C: BoardConfig>(b: BoardModel<C>, s: nat, k: int) -> int {
    match piece_at_spec(b, s) {
        Piece::Black(p) => if index_spec(p) == k + 1 {
            1
        } else {
            0
        },
        _ => 0,
    }
}

/// The input that the `i`-th of the twelve updates for square `s` writes.
pub open spec fn update_index<C: BoardConfig>(m: FeatureMapping, s: nat, i: int) -> int {
    match m {
        FeatureMapping::ColorPerMapping => if i < 6 {
            i * area::<C>() + s
        } else {
            (i - 6) * area::<C>() + mirror::<C>(s)
        },
        FeatureMapping::TwoColorsPerMapping => if i % 2 == 0 {
            (i / 2) * area::<C>() + s
        } else {
            (6 + i / 2) * area::<C>() + s
        },
    }
}

/// The value that the `i`-th of the twelve updates for square `s` writes.
pub open spec fn update_value<C: BoardConfig>(
    m: FeatureMapping,
    b: BoardModel<C>,
    s: nat,
    i: int,
) -> int {
    match m {
        FeatureMapping::ColorPerMapping => if i < 6 {
            white_kind(b, s, i) - black_kind(b, mirror::<C>(s), i)
        } else {
            white_kind(b, mirror::<C>(s), i - 6) - black_kind(b, s, i - 6)
        },
        FeatureMapping::TwoColorsPerMapping => if i % 2 == 0 {
            white_kind(b, s, i / 2)
        } else {
            black_kind(b, s, i / 2)
        },
    }
}

/// 1 when `p` is a White piece of kind `kind`.
fn white_of_kind(p: Piece, kind: usize) -> (r: i8)
    requires
        kind < 6,
    ensures
        r == match p {
            Piece::White(t) => if index_spec(t) == kind + 1 {
                1int
            } else {
                0int
            },
            _ => 0int,
        },
{
    match p {
        Piece::White(t) => if t.to_index() == (kind as i32) + 1 {
            1
        } else {
            0
        },
        _ => 0,
    }
}

/// 1 when `p` is a Black piece of kind `kind`.
fn black_of_kind(p: Piece, kind: usize) -> (r: i8)
    requires
        kind < 6,
    ensures
        r == match p {
            Piece::Black(t) => if index_spec(t) == kind + 1 {
                1int
            } else {
                0int
            },
            _ => 0int,
        },
{
    match p {
        Piece::Black(t) => if t.to_index() == (kind as i32) + 1 {
            1
        } else {
            0
        },
        _ => 0,
    }
}

/// A king of either colour stands on the board.
pub open spec fn any_king<C: BoardConfig>(b: BoardModel<C>) -> bool {
    exists|s: nat|
        s < area::<C>() && (#[trigger] piece_at_spec(b, s) matches Piece::White(PieceType::King(_))
            || piece_at_spec(b, s) matches Piece::Black(PieceType::King(_)))
}

/// 1 when the castling rights still hold a bit of `player`'s king or rook on that side.
pub open spec fn right_feature<C: BoardConfig>(
    b: BoardModel<C>,
    player: CurrentPlayer,
    kingside: bool,
) -> int {
    if b.castling & castling_right_bits_spec::<C>(player, kingside) != 0 {
        1
    } else {
        0
    }
}

/// Slot of the en-passant square among the sixteen en-passant inputs (standard board
/// only): the column on the third row from the top, or eight plus the column on the
/// sixth.
pub open spec fn en_passant_slot<C: BoardConfig>(b: BoardModel<C>) -> Option<int> {
    if C::spec_width() == 8 && C::spec_height() == 8 {
        match b.en_passant {
            Some(sq) => if sq / 8 == 2 {
                Some((sq % 8) as int)
            } else if sq / 8 == 5 {
                Some(8 + sq % 8)
            } else {
                None
            },
            None => None,
        }
    } else {
        None
    }
}

/// The `i`-th of the state inputs: four castling flags, sixteen en-passant flags, the
/// repetition count, whether the side to move is in check, the halfmove clock.
pub open spec fn state_feature<C: BoardConfig>(b: BoardModel<C>, i: int) -> int {
    if i == 0 {
        right_feature(b, CurrentPlayer::White, true)
    } else if i == 1 {
        right_feature(b, CurrentPlayer::White, false)
    } else if i == 2 {
        right_feature(b, CurrentPlayer::Black, true)
    } else if i == 3 {
        right_feature(b, CurrentPlayer::Black, false)
    } else if i < 20 {
        if en_passant_slot(b) == Some(i - 4) {
            1
        } else {
            0
        }
    } else if i == 20 {
        1 + count_hash(b.history, b.zobrist) as int
    } else if i == 21 {
        if any_king(b) && b.in_check(b.turn) {
            1
        } else {
            0
        }
    } else {
        b.halfmove_clock as int
    }
}

/// +1 when White is to move, -1 when Black is.
pub open spec fn turn_feature<C: BoardConfig>(b: BoardModel<C>) -> int {
    if b.turn == CurrentPlayer::White {
        1
    } else {
        -1
    }
}

/// The input `i` of a whole position under mapping `m`: the piece planes, then the
/// side to move, then the state inputs.
pub open spec fn feature<C: BoardConfig>(m: FeatureMapping, b: BoardModel<C>, i: int) -> int {
    let n = area::<C>() as int;
    let pieces_end = planes(m) * n;
    if i < pieces_end {
        let k = i / n;
        let t = (i % n) as nat;
        match m {
            FeatureMapping::ColorPerMapping => white_kind(b, t, k) - black_kind(
                b,
                mirror::<C>(t),
                k,
            ),
            FeatureMapping::TwoColorsPerMapping => if k < 6 {
                white_kind(b, t, k)
            } else {
                black_kind(b, t, k - 6)
            },
        }
    } else if i == pieces_end {
        turn_feature(b)
    } else {
        state_feature(b, i - pieces_end - 1)
    }
}

/// Whether a king of either colour stands on the board.
fn any_king_on<C: BoardConfig>(cb: &Chessboard<C>) -> (r: bool)
    requires
        cb@.wf(),
    ensures
        r == any_king(cb@),
{
    let n = C::area();
    let mut s: usize = 0;
    while s < n
        invariant
            n as nat == area::<C>(),
            s <= n,
            cb@.wf(),
            forall|t: nat|
                t < s ==> !(#[trigger] piece_at_spec(cb@, t) matches Piece::White(PieceType::King(_))
                    || piece_at_spec(cb@, t) matches Piece::Black(PieceType::King(_))),
        decreases n - s,
    {
        let found = match cb.piece_at(s) {
            Piece::White(PieceType::King(_)) => true,
            Piece::Black(PieceType::King(_)) => true,
            _ => false,
        };
        if found {
            proof {
                assert(piece_at_spec(cb@, s as nat) matches Piece::White(PieceType::King(_))
                    || piece_at_spec(cb@, s as nat) matches Piece::Black(PieceType::King(_)));
            }
            return true;
        }
        s = s + 1;
    }
    false
}

/// The state inputs of a position, in order (see `state_feature`).
pub fn state_features<C: BoardConfig>(cb: &Chessboard<C>) -> (r: Vec<usize>)
    requires
        cb@.wf(),
        cb@.history.len() < usize::MAX,
        any_king(cb@) ==> cb@.has_king_of(cb@.turn),
    ensures
        r@.len() == STATE_FEATURES,
        forall|i: int| 0 <= i < STATE_FEATURES ==> #[trigger] r@[i] as int == state_feature(cb@, i),
{
    let rights = cb.castling_rights();
    let mut out: Vec<usize> = Vec::new();
    let flags = [
        (CurrentPlayer::White, true),
        (CurrentPlayer::White, false),
        (CurrentPlayer::Black, true),
        (CurrentPlayer::Black, false),
    ];
    let mut j: usize = 0;
    while j < 4
        invariant
            j <= 4,
            rights == cb@.castling,
            flags@ == seq![
                (CurrentPlayer::White, true),
                (CurrentPlayer::White, false),
                (CurrentPlayer::Black, true),
                (CurrentPlayer::Black, false),
            ],
            out@.len() == j,
            forall|i: int| 0 <= i < j ==> #[trigger] out@[i] as int == state_feature(cb@, i),
        decreases 4 - j,
    {
        let (player, kingside) = flags[j];
        let bits = Chessboard::<C>::castling_right_bits(player, kingside);
        out.push(if rights & bits != 0 {
            1
        } else {
            0
        });
        j = j + 1;
    }
    let slot: Option<usize> = if C::width() == 8 && C::height() == 8 {
        match cb.en_passant_square() {
            Some(sq) => if sq / 8 == 2 {
                Some((sq % 8) as usize)
            } else if sq / 8 == 5 {
                Some(8 + (sq % 8) as usize)
            } else {
                None
            },
            None => None,
        }
    } else {
        None
    };
    proof {
        assert(slot matches Some(x) ==> en_passant_slot(cb@) == Some(x as int));
        assert(slot is None ==> en_passant_slot(cb@) is None);
    }
    let mut e: usize = 0;
    while e < 16
        invariant
            e <= 16,
            slot matches Some(x) ==> en_passant_slot(cb@) == Some(x as int),
            slot is None ==> en_passant_slot(cb@) is None,
            out@.len() == 4 + e,
            forall|i: int| 0 <= i < 4 + e ==> #[trigger] out@[i] as int == state_feature(cb@, i),
        decreases 16 - e,
    {
        out.push(if slot == Some(e) {
            1
        } else {
            0
        });
        e = e + 1;
    }
    out.push(cb.repetition_count());
    let king_exists = any_king_on(cb);
    let checked = king_exists && cb.is_king_checked(cb.current_player());
    out.push(if checked {
        1
    } else {
        0
    });
    out.push(cb.halfmove_clock() as usize);
    out
}

impl FeatureMapping {
    fn piece_planes(self) -> (r: usize)
        ensures
            r == planes(self),
    {
        match self {
            FeatureMapping::ColorPerMapping => 6,
            FeatureMapping::TwoColorsPerMapping => 12,
        }
    }

    /// Number of inputs that a model reading this mapping takes on boards of `C`.
    pub fn input_size<C: BoardConfig>(self) -> (r: usize)
        ensures
            r == input_len::<C>(self),
    {
        let planes = self.piece_planes();
        let n = C::area();
        proof {
            C::lemma_dims();
            assert(planes * n <= 12 * 128) by (nonlinear_arith)
                requires
                    planes <= 12,
                    n <= 128,
            ;
        }
        planes * n + 1 + STATE_FEATURES
    }

    /// The square on the same column, seen from the other side of the board.
    pub fn mirrored_square<C: BoardConfig>(square: usize) -> (r: usize)
        requires
            (square as nat) < area::<C>(),
        ensures
            r == mirror::<C>(square as nat),
            (r as nat) < area::<C>(),
    {
        proof {
            lemma_square_coords::<C>(square as nat);
            lemma_mirror::<C>(square as nat);
            C::lemma_dims();
        }
        let w = C::width();
        let rank = square / w;
        let file = square % w;
        (C::height() - 1 - rank) * w + file
    }

    /// The twelve writes that describe square `square`, in order: the index of an
    /// input and its new value.
    pub fn square_updates<C: BoardConfig>(self, cb: &Chessboard<C>, square: usize) -> (r: Vec<
        (usize, i8),
    >)
        requires
            cb@.wf(),
            (square as nat) < area::<C>(),
        ensures
            r@.len() == 12,
            forall|i: int|
                0 <= i < 12 ==> (#[trigger] r@[i]).0 == update_index::<C>(self, square as nat, i)
                    && r@[i].1 == update_value(self, cb@, square as nat, i),
    {
        proof {
            C::lemma_dims();
        }
        let n = C::area();
        let mirrored = Self::mirrored_square::<C>(square);
        let mut out: Vec<(usize, i8)> = Vec::new();
        match self {
            FeatureMapping::ColorPerMapping => {
                let here = cb.piece_at(square);
                let there = cb.piece_at(mirrored);
                let mut pass: usize = 0;
                while pass < 2
                    invariant
                        pass <= 2,
                        n as nat == area::<C>(),
                        n <= 128,
                        (square as nat) < area::<C>(),
                        (mirrored as nat) < area::<C>(),
                        mirrored == mirror::<C>(square as nat),
                        here == piece_at_spec(cb@, square as nat),
                        there == piece_at_spec(cb@, mirrored as nat),
                        self == FeatureMapping::ColorPerMapping,
                        out@.len() == 6 * pass,
                        forall|i: int|
                            0 <= i < out@.len() ==> (#[trigger] out@[i]).0 == update_index::<C>(
                                self,
                                square as nat,
                                i,
                            ) && out@[i].1 == update_value(self, cb@, square as nat, i),
                    decreases 2 - pass,
                {
                    let (target, white_piece, black_piece) = if pass == 0 {
                        (square, here, there)
                    } else {
                        (mirrored, there, here)
                    };
                    let mut kind: usize = 0;
                    while kind < 6
                        invariant
                            kind <= 6,
                            pass < 2,
                            n as nat == area::<C>(),
                            n <= 128,
                            (target as nat) < area::<C>(),
                            (mirrored as nat) < area::<C>(),
                            mirrored == mirror::<C>(square as nat),
                            target == if pass == 0 {
                                square
                            } else {
                                mirrored
                            },
                            white_piece == if pass == 0 {
                                here
                            } else {
                                there
                            },
                            black_piece == if pass == 0 {
                                there
                            } else {
                                here
                            },
                            here == piece_at_spec(cb@, square as nat),
                            there == piece_at_spec(cb@, mirrored as nat),
                            self == FeatureMapping::ColorPerMapping,
                            out@.len() == 6 * pass + kind,
                            forall|i: int|
                                0 <= i < out@.len() ==> (#[trigger] out@[i]).0
                                    == update_index::<C>(self, square as nat, i) && out@[i].1
                                    == update_value(self, cb@, square as nat, i),
                        decreases 6 - kind,
                    {
                        proof {
                            assert(kind * n + target < 6 * 128) by (nonlinear_arith)
                                requires
                                    kind < 6,
                                    n <= 128,
                                    target < n,
                            ;
                        }
                        let index = kind * n + target;
                        let value = white_of_kind(white_piece, kind) - black_of_kind(
                            black_piece,
                            kind,
                        );
                        out.push((index, value));
                        proof {
                            let i = 6 * pass + kind;
                            assert(out@[i as int].0 == update_index::<C>(
                                self,
                                square as nat,
                                i as int,
                            ));
                        }
                        kind = kind + 1;
                    }
                    pass = pass + 1;
                }
            },
            FeatureMapping::TwoColorsPerMapping => {
                let here = cb.piece_at(square);
                let mut kind: usize = 0;
                while kind < 6
                    invariant
                        kind <= 6,
                        n as nat == area::<C>(),
                        n <= 128,
                        (square as nat) < area::<C>(),
                        here == piece_at_spec(cb@, square as nat),
                        self == FeatureMapping::TwoColorsPerMapping,
                        out@.len() == 2 * kind,
                        forall|i: int|
                            0 <= i < out@.len() ==> (#[trigger] out@[i]).0 == update_index::<C>(
                                self,
                                square as nat,
                                i,
                            ) && out@[i].1 == update_value(self, cb@, square as nat, i),
                    decreases 6 - kind,
                {
                    proof {
                        assert((6 + kind) * n + square < 12 * 128) by (nonlinear_arith)
                            requires
                                kind < 6,
                                n <= 128,
                                square < n,
                        ;
                        assert(kind * n <= (6 + kind) * n) by (nonlinear_arith);
                    }
                    out.push((kind * n + square, white_of_kind(here, kind)));
                    out.push(((6 + kind) * n + square, black_of_kind(here, kind)));
                    proof {
                        let i = 2 * kind;
                        assert(i % 2 == 0 && i / 2 == kind);
                        assert((i + 1) % 2 == 1 && (i + 1) / 2 == kind);
                        assert(out@[i as int].0 == update_index::<C>(self, square as nat, i as int));
                        assert(out@[i + 1].0 == update_index::<C>(self, square as nat, i + 1));
                    }
                    kind = kind + 1;
                }
            },
        }
        out
    }
}


impl FeatureMapping {
    /// Every input of a position under this mapping, in order (see `feature`).
    pub fn board_features<C: BoardConfig>(self, cb: &Chessboard<C>) -> (r: Vec<i64>)
        requires
            cb@.wf(),
            cb@.history.len() < usize::MAX,
            cb@.history.len() < i64::MAX,
            any_king(cb@) ==> cb@.has_king_of(cb@.turn),
        ensures
            r@.len() == input_len::<C>(self),
            forall|i: int| 0 <= i < input_len::<C>(self) ==> #[trigger] r@[i] as int == feature(self, cb@, i),
    {
        let n = C::area();
        proof {
            C::lemma_dims();
            assert(n > 0) by (nonlinear_arith)
                requires
                    n == C::spec_width() * C::spec_height(),
                    C::spec_width() >= 8,
                    C::spec_height() >= 3,
            ;
        }
        let plane_count = self.piece_planes();
        let mut out: Vec<i64> = Vec::new();
        let mut k: usize = 0;
        while k < plane_count
            invariant
                n as nat == area::<C>(),
                0 < n <= 128,
                plane_count == planes(self),
                k <= plane_count,
                cb@.wf(),
                out@.len() == k * n,
                forall|i: int| 0 <= i < out@.len() ==> #[trigger] out@[i] as int == feature(self, cb@, i),
            decreases plane_count - k,
        {
            let mut t: usize = 0;
            while t < n
                invariant
                    n as nat == area::<C>(),
                    0 < n <= 128,
                    plane_count == planes(self),
                    k < plane_count,
                    t <= n,
                    cb@.wf(),
                    out@.len() == k * n + t,
                    forall|i: int| 0 <= i < out@.len() ==> #[trigger] out@[i] as int == feature(self, cb@, i),
                decreases n - t,
            {
                let value: i64 = match self {
                    FeatureMapping::ColorPerMapping => {
                        let mirrored = Self::mirrored_square::<C>(t);
                        (white_of_kind(cb.piece_at(t), k) - black_of_kind(cb.piece_at(mirrored), k)) as i64
                    },
                    FeatureMapping::TwoColorsPerMapping => if k < 6 {
                        white_of_kind(cb.piece_at(t), k) as i64
                    } else {
                        black_of_kind(cb.piece_at(t), k - 6) as i64
                    },
                };
                proof {
                    let i = k * n + t;
                    assert(k * n + t < plane_count * n) by (nonlinear_arith)
                        requires
                            k < plane_count,
                            t < n,
                    ;
                    vstd::arithmetic::div_mod::lemma_fundamental_div_mod_converse(
                        i as int,
                        n as int,
                        k as int,
                        t as int,
                    );
                }
                out.push(value);
                t = t + 1;
            }
            proof {
                assert(k * n + n == (k + 1) * n) by (nonlinear_arith);
            }
            k = k + 1;
        }
        let pieces_end = plane_count * n;
        out.push(match cb.current_player() {
            CurrentPlayer::White => 1,
            CurrentPlayer::Black => -1,
        });
        let state = state_features(cb);
        let mut j: usize = 0;
        while j < STATE_FEATURES
            invariant
                n as nat == area::<C>(),
                plane_count == planes(self),
                pieces_end == plane_count * n,
                j <= STATE_FEATURES,
                state@.len() == STATE_FEATURES,
                cb@.history.len() < i64::MAX,
                forall|i: int| 0 <= i < STATE_FEATURES ==> #[trigger] state@[i] as int == state_feature(cb@, i),
                out@.len() == pieces_end + 1 + j,
                forall|i: int| 0 <= i < out@.len() ==> #[trigger] out@[i] as int == feature(self, cb@, i),
            decreases STATE_FEATURES - j,
        {
            let v = state[j];
            proof {
                assert(v as int == state_feature(cb@, j as int));
                if j == 20 {
                    assert(v as int == 1 + count_hash(cb@.history, cb@.zobrist));
                    lemma_count_hash_le(cb@.history, cb@.zobrist);
                } else if j == 22 {
                    assert(v as int == cb@.halfmove_clock);
                } else {
                    assert(v <= 1);
                }
            }
            out.push(v as i64);
            j = j + 1;
        }
        out
    }
}

/// Each of the twelve writes for a square sets a piece input to the value that the
/// whole-position inputs have there: updating the squares a move touched keeps the
/// inputs equal to those of the new position.
pub proof fn lemma_updates_agree<C: BoardConfig>(m: FeatureMapping, b: BoardModel<C>, s: nat, i: int)
    requires
        s < area::<C>(),
        0 <= i < 12,
    ensures
        0 <= update_index::<C>(m, s, i) < planes(m) * area::<C>(),
        update_value(m, b, s, i) == feature(m, b, update_index::<C>(m, s, i)),
{
    C::lemma_dims();
    lemma_mirror::<C>(s);
    let n = area::<C>() as int;
    let (k, t): (int, int) = match m {
        FeatureMapping::ColorPerMapping => if i < 6 {
            (i, s as int)
        } else {
            (i - 6, mirror::<C>(s) as int)
        },
        FeatureMapping::TwoColorsPerMapping => if i % 2 == 0 {
            (i / 2, s as int)
        } else {
            (6 + i / 2, s as int)
        },
    };
    assert(update_index::<C>(m, s, i) == k * n + t);
    assert(0 <= k < planes(m));
    assert(0 <= t < n);
    assert(0 <= k * n + t < planes(m) * n) by (nonlinear_arith)
        requires
            0 <= k < planes(m),
            0 <= t < n,
    ;
    vstd::arithmetic::div_mod::lemma_fundamental_div_mod_converse(k * n + t, n, k, t);
}

/// The squares a move changed, given the side to move after it: its two squares, and
/// the captured pawn's square for an en-passant capture, or the rook's two squares for
/// castling.
pub open spec fn touched<C: BoardConfig>(m: C::MoveType, now: CurrentPlayer) -> Seq<int> {
    let from = m.from_spec() as int;
    let to = m.to_spec() as int;
    match m.flag_spec() {
        MoveFlag::EnPassant => seq![
            from,
            to,
            if now == CurrentPlayer::Black {
                to + C::spec_width()
            } else {
                to - C::spec_width()
            },
        ],
        MoveFlag::Castling => if to > from {
            seq![from, to, from + 3, from + 1]
        } else {
            seq![from, to, from - 4, from - 1]
        },
        _ => seq![from, to],
    }
}

/// The squares of `touched` are not negative.
pub open spec fn touched_ok<C: BoardConfig>(m: C::MoveType, now: CurrentPlayer) -> bool {
    match m.flag_spec() {
        MoveFlag::EnPassant => now == CurrentPlayer::White ==> m.to_spec() >= C::spec_width(),
        MoveFlag::Castling => m.to_spec() <= m.from_spec() ==> m.from_spec() >= 4,
        _ => true,
    }
}

pub open spec fn strictly_increasing(v: Seq<usize>) -> bool {
    forall|i: int, j: int| 0 <= i < j < v.len() ==> v[i] < v[j]
}

/// `x` is one of the values of `v`.
pub open spec fn holds(v: Seq<usize>, x: int) -> bool {
    exists|i: int| 0 <= i < v.len() && v[i] as int == x
}

/// Puts `x` into an increasing list unless it is there already.
fn insert_sorted(v: &mut Vec<usize>, x: usize)
    requires
        strictly_increasing(old(v)@),
    ensures
        strictly_increasing(final(v)@),
        forall|y: int| holds(final(v)@, y) <==> (y == x || holds(old(v)@, y)),
        final(v)@.len() <= old(v)@.len() + 1,
{
    let mut p: usize = 0;
    while p < v.len() && v[p] < x
        invariant
            v@ == old(v)@,
            p <= v@.len(),
            forall|i: int| 0 <= i < p ==> v@[i] < x,
        decreases v@.len() - p,
    {
        p = p + 1;
    }
    if p < v.len() && v[p] == x {
        proof {
            assert(v@[p as int] as int == x as int);
            assert(holds(v@, x as int));
        }
        return;
    }
    v.insert(p, x);
    proof {
        assert(v@ == old(v)@.insert(p as int, x));
        assert forall|y: int| holds(v@, y) <==> (y == x || holds(old(v)@, y)) by {
            if holds(v@, y) {
                let i = choose|i: int| 0 <= i < v@.len() && v@[i] as int == y;
                if i < p {
                    assert(old(v)@[i] as int == y);
                    assert(holds(old(v)@, y));
                } else if i > p {
                    assert(old(v)@[i - 1] as int == y);
                    assert(holds(old(v)@, y));
                } else {
                    assert(y == x);
                }
            }
            if y == x {
                assert(v@[p as int] as int == y);
            } else if holds(old(v)@, y) {
                let i = choose|i: int| 0 <= i < old(v)@.len() && old(v)@[i] as int == y;
                if i < p {
                    assert(v@[i] as int == y);
                } else {
                    assert(v@[i + 1] as int == y);
                }
            }
        }
    }
}

/// The squares that the last move played changed, in increasing order and each once.
pub fn step_squares<C: BoardConfig>(cb: &Chessboard<C>) -> (r: Vec<usize>)
    requires
        cb@.history.len() > 0,
        touched_ok::<C>(cb@.history.last().moved, cb@.turn),
    ensures
        strictly_increasing(r@),
        forall|x: int|
            #[trigger] holds(r@, x) <==> touched::<C>(cb@.history.last().moved, cb@.turn).contains(x),
{
    let entry = cb.last_move();
    let m = match entry {
        Some(e) => e.moved(),
        None => {
            proof {
                assert(false);
            }
            return Vec::new();
        },
    };
    let ghost t = touched::<C>(m, cb@.turn);
    let from = m.from() as usize;
    let to = m.to() as usize;
    let w = C::width();
    proof {
        C::lemma_dims();
    }
    let mut squares: Vec<usize> = Vec::new();
    insert_sorted(&mut squares, from);
    insert_sorted(&mut squares, to);
    proof {
        assert forall|y: int| holds(squares@, y) <==> (y == from || y == to) by {}
    }
    match m.flag() {
        MoveFlag::EnPassant => {
            let captured = match cb.current_player() {
                CurrentPlayer::Black => to + w,
                CurrentPlayer::White => to - w,
            };
            insert_sorted(&mut squares, captured);
            proof {
                assert forall|y: int| holds(squares@, y) <==> t.contains(y) by {
                    if y == captured as int {
                        assert(t[2] == y);
                    }
                    if t.contains(y) {
                        let i = choose|i: int| 0 <= i < t.len() && t[i] == y;
                        assert(i == 0 || i == 1 || i == 2);
                    }
                }
            }
        },
        MoveFlag::Castling => {
            let (a, b) = if to > from {
                (from + 3, from + 1)
            } else {
                (from - 4, from - 1)
            };
            insert_sorted(&mut squares, a);
            insert_sorted(&mut squares, b);
            proof {
                assert forall|y: int| holds(squares@, y) <==> t.contains(y) by {
                    if y == a as int {
                        assert(t[2] == y);
                    }
                    if y == b as int {
                        assert(t[3] == y);
                    }
                    if y == from as int {
                        assert(t[0] == y);
                    }
                    if y == to as int {
                        assert(t[1] == y);
                    }
                    if t.contains(y) {
                        let i = choose|i: int| 0 <= i < t.len() && t[i] == y;
                        assert(i == 0 || i == 1 || i == 2 || i == 3);
                    }
                }
            }
        },
        _ => {
            proof {
                assert forall|y: int| holds(squares@, y) <==> t.contains(y) by {
                    if y == from as int {
                        assert(t[0] == y);
                    }
                    if y == to as int {
                        assert(t[1] == y);
                    }
                    if t.contains(y) {
                        let i = choose|i: int| 0 <= i < t.len() && t[i] == y;
                        assert(i == 0 || i == 1);
                    }
                }
            }
        },
    }
    squares
}

/// The rook of a castling move starts three files beside the king on the king's side,
/// or four on the queen's side, as on the standard board.
pub open spec fn standard_castling<C: BoardConfig>(m: C::MoveType) -> bool {
    let from = m.from_spec() as nat;
    let to = m.to_spec() as nat;
    m.flag_spec() == MoveFlag::Castling ==> castling_rook_from::<C>(from, to) == if to > from {
        from + 3int
    } else {
        from - 4int
    }
}

/// A move changes what stands on the squares of `touched` and on no other square.
pub proof fn lemma_move_touches_only<C: BoardConfig>(b: BoardModel<C>, m: C::MoveType, s: nat)
    requires
        b.wf(),
        b.applicable(m),
        standard_castling::<C>(m),
        s < area::<C>(),
        !touched::<C>(m, b.applied(m).turn).contains(s as int),
    ensures
        piece_at_spec(b.applied(m), s) == piece_at_spec(b, s),
{
    broadcast use group_bits;

    reveal(BoardModel::moved_position);
    let t = touched::<C>(m, b.applied(m).turn);
    let from = m.from_spec() as int;
    let to = m.to_spec() as int;
    assert(t[0] == from && t[1] == to);
    if s == from {
        assert(t.contains(s as int));
    }
    if s == to {
        assert(t.contains(s as int));
    }
    match m.flag_spec() {
        MoveFlag::EnPassant => {
            assert(t[2] == crate::chess_board::ep_capture_square::<C>(b.turn, to as nat));
            if s == t[2] {
                assert(t.contains(s as int));
            }
        },
        MoveFlag::Castling => {
            assert(t[2] == castling_rook_from::<C>(from as nat, to as nat));
            assert(t[3] == crate::chess_board::castling_rook_to::<C>(from as nat, to as nat));
            if s == t[2] {
                assert(t.contains(s as int));
            }
            if s == t[3] {
                assert(t.contains(s as int));
            }
        },
        _ => {},
    }
}

/// The piece inputs of squares that a move did not touch keep their values: refreshing
/// the writes of the touched squares, and the state inputs, gives the inputs of the new
/// position.
pub proof fn lemma_step_keeps_inputs<C: BoardConfig>(
    mp: FeatureMapping,
    b: BoardModel<C>,
    m: C::MoveType,
    i: int,
)
    requires
        b.wf(),
        b.applicable(m),
        standard_castling::<C>(m),
        0 <= i < planes(mp) * area::<C>(),
        !touched::<C>(m, b.applied(m).turn).contains(i % area::<C>() as int),
        mp == FeatureMapping::ColorPerMapping ==> !touched::<C>(m, b.applied(m).turn).contains(
            mirror::<C>((i % area::<C>() as int) as nat) as int,
        ),
    ensures
        feature(mp, b.applied(m), i) == feature(mp, b, i),
{
    C::lemma_dims();
    let n = area::<C>() as int;
    assert(n > 0) by (nonlinear_arith)
        requires
            n == C::spec_width() * C::spec_height(),
            C::spec_width() >= 8,
            C::spec_height() >= 3,
    ;
    let t = (i % n) as nat;
    assert(0 <= i % n < n);
    lemma_move_touches_only::<C>(b, m, t);
    if mp == FeatureMapping::ColorPerMapping {
        lemma_mirror::<C>(t);
        lemma_move_touches_only::<C>(b, m, mirror::<C>(t));
    }
}

} // verus!
