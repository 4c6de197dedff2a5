use vstd::prelude::*;

use crate::board_config::{area, BoardConfig};
use crate::chess_board::{piece_at_spec, BoardModel, Chessboard};
use crate::bishop::Bishop;
use crate::king::King;
use crate::knight::Knight;
use crate::pawn::Pawn;
use crate::piece::{value_spec, Piece, PieceType};
use crate::queen::Queen;
use crate::rook::Rook;

verus! {

/// Value of what stands on a square, from White's side: positive for a White piece,
/// negative for a Black one.
pub open spec fn signed_value(p: Piece) -> int {
    match p {
        Piece::White(t) => value_spec(t) as int,
        Piece::Black(t) => -(value_spec(t) as int),
        Piece::Empty => 0,
    }
}

/// Sum of the signed values of the first `k` squares.
pub open spec fn material_upto<C: BoardConfig>(b: BoardModel<C>, k: nat) -> int
    decreases k,
{
    if k == 0 {
        0
    } else {
        material_upto(b, (k - 1) as nat) + signed_value(piece_at_spec(b, (k - 1) as nat))
    }
}

/// The value of each kind of piece, in centipawns: a pawn 100, a knight 300, a bishop
/// 333, a rook 500, a queen 1200, a king 9999999, an empty square nothing.
pub proof fn lemma_piece_values()
    ensures
        value_spec(PieceType::Empty) == 0,
        value_spec(PieceType::Pawn(Pawn)) == 100,
        value_spec(PieceType::Knight(Knight)) == 300,
        value_spec(PieceType::Bishop(Bishop)) == 333,
        value_spec(PieceType::Rook(Rook)) == 500,
        value_spec(PieceType::Queen(Queen)) == 1200,
        value_spec(PieceType::King(King)) == 9999999,
        forall|p: PieceType| #[trigger] value_spec(p) >= 0,
{
}

/// Two boards that differ on one square only differ in material by what changed there:
/// a White piece added on an empty square adds its value, a Black one takes it away.
pub proof fn lemma_material_one_square<C: BoardConfig>(b1: BoardModel<C>, b2: BoardModel<C>, s: nat)
    requires
        s < area::<C>(),
        forall|q: nat| q < area::<C>() && q != s ==> #[trigger] piece_at_spec(b1, q) == piece_at_spec(b2, q),
    ensures
        material(b2) - material(b1) == signed_value(piece_at_spec(b2, s)) - signed_value(
            piece_at_spec(b1, s),
        ),
        piece_at_spec(b1, s) == Piece::Empty ==> forall|t: PieceType|
            piece_at_spec(b2, s) == Piece::White(t) ==> material(b2) == material(b1) + value_spec(t),
        piece_at_spec(b1, s) == Piece::Empty ==> forall|t: PieceType|
            piece_at_spec(b2, s) == Piece::Black(t) ==> material(b2) == material(b1) - value_spec(t),
        piece_at_spec(b2, s) == Piece::Empty ==> material(b2) == material(b1) - signed_value(
            piece_at_spec(b1, s),
        ),
{
    lemma_material_upto_one_square(b1, b2, s, area::<C>());
}

proof fn lemma_material_upto_one_square<C: BoardConfig>(
    b1: BoardModel<C>,
    b2: BoardModel<C>,
    s: nat,
    k: nat,
)
    requires
        s < area::<C>(),
        k <= area::<C>(),
        forall|q: nat| q < area::<C>() && q != s ==> #[trigger] piece_at_spec(b1, q) == piece_at_spec(b2, q),
    ensures
        material_upto(b2, k) - material_upto(b1, k) == if s < k {
            signed_value(piece_at_spec(b2, s)) - signed_value(piece_at_spec(b1, s))
        } else {
            0
        },
    decreases k,
{
    if k > 0 {
        lemma_material_upto_one_square(b1, b2, s, (k - 1) as nat);
        if (k - 1) as nat != s {
            assert(piece_at_spec(b1, (k - 1) as nat) == piece_at_spec(b2, (k - 1) as nat));
        }
    }
}

/// Material balance of a position: the signed values of all squares added up.
pub open spec fn material<C: BoardConfig>(b: BoardModel<C>) -> int {
    material_upto(b, area::<C>())
}

/// An evaluator that counts material only.
#[derive(Clone, Copy, Debug)]
pub struct DeadSimpleEvaluator {}

impl DeadSimpleEvaluator {
    /// The material balance of the position, in centipawns, from White's side.
    pub fn evaluate<C: BoardConfig>(&self, cb: &Chessboard<C>) -> (r: i64)
        requires
            cb@.wf(),
        ensures
            r == material(cb@),
    {
        proof {
            C::lemma_dims();
        }
        let n = C::area();
        let mut total: i64 = 0;
        let mut s: usize = 0;
        while s < n
            invariant
                n as nat == area::<C>(),
                n <= 128,
                s <= n,
                cb@.wf(),
                total == material_upto(cb@, s as nat),
                -(s as int) * 9999999 <= total <= (s as int) * 9999999,
            decreases n - s,
        {
            let value: i64 = match cb.piece_at(s) {
                Piece::White(t) => t.value() as i64,
                Piece::Black(t) => -(t.value() as i64),
                Piece::Empty => 0,
            };
            total = total + value;
            s = s + 1;
        }
        total
    }
}

} // verus!
