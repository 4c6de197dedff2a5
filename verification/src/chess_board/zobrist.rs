use vstd::prelude::*;

use super::{
    castling_rook_from, castling_rook_to, ep_capture_square, hash_castling, hash_squares,
    is_special, piece_key_spec, position_hash, sq_bit, square_key, zobrist_key_spec, BoardModel,
    Chessboard, CurrentPlayer, CASTLING_SEED, EN_PASSANT_SEED, SIDE_SEED,
};
use crate::bitboard::{group_bits, has_bit, lemma_test_single, single};
use crate::board_config::{area, BoardConfig};
use crate::chess_move::{MoveFlag, MoveTrait};
use crate::piece::PieceType;

verus! {

/// XOR is associative and commutative, cancels itself and has zero as identity.
proof fn lemma_xor(a: u64, b: u64, c: u64)
    ensures
        (a ^ b) ^ c == a ^ (b ^ c),
        a ^ b == b ^ a,
        a ^ a == 0,
        a ^ 0 == a,
{
    assert((a ^ b) ^ c == a ^ (b ^ c)) by (bit_vector);
    assert(a ^ b == b ^ a) by (bit_vector);
    assert(a ^ a == 0) by (bit_vector);
    assert(a ^ 0 == a) by (bit_vector);
}

/// When two boards differ on at most the square `s`, their hashes differ by the keys of
/// what stands on `s` on each.
pub proof fn lemma_hash_one_square(
    p1: Seq<PieceType>,
    w1: u128,
    b1: u128,
    p2: Seq<PieceType>,
    w2: u128,
    b2: u128,
    s: nat,
    k: nat,
)
    requires
        forall|t: nat| t < k && t != s ==> square_key(p1, w1, b1, t) == square_key(p2, w2, b2, t),
    ensures
        hash_squares(p2, w2, b2, k) == hash_squares(p1, w1, b1, k) ^ (if s < k {
            square_key(p1, w1, b1, s) ^ square_key(p2, w2, b2, s)
        } else {
            0u64
        }),
    decreases k,
{
    if k == 0 {
        lemma_xor(0, 0, 0);
    } else {
        let j = (k - 1) as nat;
        lemma_hash_one_square(p1, w1, b1, p2, w2, b2, s, j);
        let h1 = hash_squares(p1, w1, b1, j);
        let h2 = hash_squares(p2, w2, b2, j);
        let x1 = square_key(p1, w1, b1, j);
        let x2 = square_key(p2, w2, b2, j);
        let d: u64 = if s < j {
            square_key(p1, w1, b1, s) ^ square_key(p2, w2, b2, s)
        } else {
            0u64
        };
        assert(h2 == h1 ^ d);
        if s == j {
            assert(d == 0);
            assert((h1 ^ 0u64) ^ x2 == (h1 ^ x1) ^ (x1 ^ x2)) by (bit_vector);
        } else {
            assert(x1 == x2);
            assert((h1 ^ d) ^ x1 == (h1 ^ x1) ^ d) by (bit_vector);
        }
    }
}

/// The castling part of the hash is the starting value combined with the keys of the
/// rights.
pub proof fn lemma_hash_castling_acc(c: u128, acc: u64, k: nat)
    ensures
        hash_castling(c, acc, k) == acc ^ hash_castling(c, 0, k),
    decreases k,
{
    if k == 0 {
        lemma_xor(acc, 0, 0);
    } else {
        let j = (k - 1) as nat;
        lemma_hash_castling_acc(c, acc, j);
        let h = hash_castling(c, acc, j);
        let h0 = hash_castling(c, 0, j);
        let key = super::zobrist_key_spec(super::CASTLING_SEED ^ (j as u64));
        assert((acc ^ h0) ^ key == acc ^ (h0 ^ key)) by (bit_vector);
    }
}

/// The keys of two sets of castling rights, combined, are the keys of the rights that lie
/// in one of the sets only.
pub proof fn lemma_hash_castling_xor(c1: u128, c2: u128, k: nat)
    ensures
        hash_castling(c1, 0, k) ^ hash_castling(c2, 0, k) == hash_castling(c1 ^ c2, 0, k),
    decreases k,
{
    broadcast use crate::bitboard::group_bits;

    if k == 0 {
        lemma_xor(0, 0, 0);
    } else {
        let j = (k - 1) as nat;
        lemma_hash_castling_xor(c1, c2, j);
        let a1 = hash_castling(c1, 0, j);
        let a2 = hash_castling(c2, 0, j);
        let key = super::zobrist_key_spec(super::CASTLING_SEED ^ (j as u64));
        assert(crate::bitboard::has_bit(c1 ^ c2, j) == (crate::bitboard::has_bit(c1, j)
            != crate::bitboard::has_bit(c2, j)));
        assert((a1 ^ key) ^ (a2 ^ key) == a1 ^ a2) by (bit_vector);
        assert((a1 ^ key) ^ a2 == (a1 ^ a2) ^ key) by (bit_vector);
        assert(a1 ^ (a2 ^ key) == (a1 ^ a2) ^ key) by (bit_vector);
    }
}

/// What a move that is neither en passant nor castling does to the hash of the squares:
/// the mover's piece leaves its square and lands on the other, over whatever stood there.
#[verifier::rlimit(40)]
pub proof fn lemma_squares_delta_ordinary<C: BoardConfig>(b: BoardModel<C>, m: C::MoveType)
    requires
        b.wf(),
        b.applicable(m),
        !is_special(m.flag_spec()),
    ensures
        ({
            let n = b.moved_position(m);
            let from = m.from_spec() as nat;
            let to = m.to_spec() as nat;
            hash_squares(n.pieces, n.white, n.black, area::<C>()) == hash_squares(
                b.pieces,
                b.white,
                b.black,
                area::<C>(),
            ) ^ ((piece_key_spec(b.pieces[from as int], b.turn, from) ^ piece_key_spec(
                n.pieces[to as int],
                b.turn,
                to,
            )) ^ (if b.pieces[to as int] != PieceType::Empty {
                piece_key_spec(b.pieces[to as int], b.turn.other_spec(), to)
            } else {
                0u64
            }))
        }),
{
    broadcast use group_bits;

    C::lemma_dims();
    reveal(BoardModel::moved_position);
    let n = b.moved_position(m);
    let from = m.from_spec() as nat;
    let to = m.to_spec() as nat;
    let k = area::<C>();
    assert(n.white == if b.turn == CurrentPlayer::White {
        (b.white & !single(from)) | single(to)
    } else {
        b.white & !single(to)
    });
    assert(n.black == if b.turn == CurrentPlayer::White {
        b.black & !single(to)
    } else {
        (b.black & !single(from)) | single(to)
    });
    let fb = single(from);
    let pb = b.pieces.update(from as int, PieceType::Empty);
    let wb = b.white & !fb;
    let bb = b.black & !fb;
    assert forall|t: nat| t < k && t != from implies square_key(b.pieces, b.white, b.black, t)
        == square_key(pb, wb, bb, t) by {}
    lemma_hash_one_square(b.pieces, b.white, b.black, pb, wb, bb, from, k);
    assert forall|t: nat| t < k && t != to implies square_key(pb, wb, bb, t) == square_key(
        n.pieces,
        n.white,
        n.black,
        t,
    ) by {}
    lemma_hash_one_square(pb, wb, bb, n.pieces, n.white, n.black, to, k);
    let ha = hash_squares(b.pieces, b.white, b.black, k);
    let kaf = square_key(b.pieces, b.white, b.black, from);
    let kbf = square_key(pb, wb, bb, from);
    let kbt = square_key(pb, wb, bb, to);
    let knt = square_key(n.pieces, n.white, n.black, to);
    assert(kbf == 0);
    assert(kaf == piece_key_spec(b.pieces[from as int], b.turn, from));
    assert(knt == piece_key_spec(n.pieces[to as int], b.turn, to));
    assert(has_bit(wb, to) == has_bit(b.white, to));
    assert(has_bit(bb, to) == has_bit(b.black, to));
    assert(pb[to as int] == b.pieces[to as int]);
    assert((b.pieces[to as int] != PieceType::Empty) == has_bit(b.occupancy, to));
    assert(has_bit(b.occupancy, to) == (has_bit(b.white, to) || has_bit(b.black, to)));
    assert(!has_bit(b.bits_of(b.turn), to));
    assert(kbt == (if b.pieces[to as int] != PieceType::Empty {
        piece_key_spec(b.pieces[to as int], b.turn.other_spec(), to)
    } else {
        0u64
    }));
    assert((ha ^ (kaf ^ 0u64)) ^ (kbt ^ knt) == ha ^ ((kaf ^ knt) ^ kbt)) by (bit_vector);
}

/// What an en-passant capture does to the hash of the squares: the pawn leaves its square,
/// lands on the empty one behind the passed pawn, and the passed pawn goes.
#[verifier::rlimit(40)]
pub proof fn lemma_squares_delta_en_passant<C: BoardConfig>(b: BoardModel<C>, m: C::MoveType)
    requires
        b.wf(),
        b.applicable(m),
        m.flag_spec() == MoveFlag::EnPassant,
    ensures
        ({
            let n = b.moved_position(m);
            let from = m.from_spec() as nat;
            let to = m.to_spec() as nat;
            let cap = ep_capture_square::<C>(b.turn, to) as nat;
            hash_squares(n.pieces, n.white, n.black, area::<C>()) == hash_squares(
                b.pieces,
                b.white,
                b.black,
                area::<C>(),
            ) ^ ((piece_key_spec(b.pieces[from as int], b.turn, from) ^ piece_key_spec(
                n.pieces[to as int],
                b.turn,
                to,
            )) ^ piece_key_spec(b.pieces[cap as int], b.turn.other_spec(), cap))
        }),
{
    broadcast use group_bits;

    C::lemma_dims();
    reveal(BoardModel::moved_position);
    let n = b.moved_position(m);
    let from = m.from_spec() as nat;
    let to = m.to_spec() as nat;
    let cap = ep_capture_square::<C>(b.turn, to) as nat;
    let k = area::<C>();
    let white_moves = b.turn == CurrentPlayer::White;
    let moved = b.pieces[from as int];
    let fb = single(from);
    let tb = single(to);
    assert(has_bit(b.bits_of(b.turn), from));
    assert(has_bit(b.bits_of(b.turn.other_spec()), cap));
    assert(cap != from);
    assert(!has_bit(b.occupancy, to));
    assert(has_bit(b.occupancy, to) == (has_bit(b.white, to) || has_bit(b.black, to)));
    // The pawn leaves its square.
    let p1 = b.pieces.update(from as int, PieceType::Empty);
    let w1 = b.white & !fb;
    let b1 = b.black & !fb;
    assert forall|t: nat| t < k && t != from implies square_key(b.pieces, b.white, b.black, t)
        == square_key(p1, w1, b1, t) by {}
    lemma_hash_one_square(b.pieces, b.white, b.black, p1, w1, b1, from, k);
    // It lands on the empty square.
    let p2 = p1.update(to as int, moved);
    let w2 = if white_moves {
        w1 | tb
    } else {
        w1
    };
    let b2 = if white_moves {
        b1
    } else {
        b1 | tb
    };
    assert forall|t: nat| t < k && t != to implies square_key(p1, w1, b1, t) == square_key(
        p2,
        w2,
        b2,
        t,
    ) by {}
    lemma_hash_one_square(p1, w1, b1, p2, w2, b2, to, k);
    // The passed pawn goes.
    assert forall|t: nat| t < k && t != cap implies square_key(p2, w2, b2, t) == square_key(
        n.pieces,
        n.white,
        n.black,
        t,
    ) by {}
    lemma_hash_one_square(p2, w2, b2, n.pieces, n.white, n.black, cap, k);
    let ha = hash_squares(b.pieces, b.white, b.black, k);
    let kaf = square_key(b.pieces, b.white, b.black, from);
    let kbt = square_key(p1, w1, b1, to);
    let kct = square_key(p2, w2, b2, to);
    let kcc = square_key(p2, w2, b2, cap);
    assert(square_key(p1, w1, b1, from) == 0);
    assert(square_key(n.pieces, n.white, n.black, cap) == 0);
    assert(kbt == 0);
    assert(kaf == piece_key_spec(moved, b.turn, from));
    assert(n.pieces[to as int] == moved);
    assert(kct == piece_key_spec(moved, b.turn, to));
    assert(p2[cap as int] == b.pieces[cap as int]);
    assert(kcc == piece_key_spec(b.pieces[cap as int], b.turn.other_spec(), cap));
    assert(((ha ^ (kaf ^ 0u64)) ^ (0u64 ^ kct)) ^ (kcc ^ 0u64) == ha ^ ((kaf ^ kct) ^ kcc))
        by (bit_vector);
}

/// What castling does to the hash of the squares: the king and the rook each leave their
/// square and land on an empty one.
#[verifier::rlimit(60)]
pub proof fn lemma_squares_delta_castling<C: BoardConfig>(b: BoardModel<C>, m: C::MoveType)
    requires
        b.wf(),
        b.applicable(m),
        m.flag_spec() == MoveFlag::Castling,
    ensures
        ({
            let n = b.moved_position(m);
            let from = m.from_spec() as nat;
            let to = m.to_spec() as nat;
            let rf = castling_rook_from::<C>(from, to) as nat;
            let rt = castling_rook_to::<C>(from, to) as nat;
            hash_squares(n.pieces, n.white, n.black, area::<C>()) == hash_squares(
                b.pieces,
                b.white,
                b.black,
                area::<C>(),
            ) ^ (((piece_key_spec(b.pieces[from as int], b.turn, from) ^ piece_key_spec(
                n.pieces[to as int],
                b.turn,
                to,
            )) ^ piece_key_spec(n.pieces[rt as int], b.turn, rf)) ^ piece_key_spec(
                n.pieces[rt as int],
                b.turn,
                rt,
            ))
        }),
{
    broadcast use group_bits;

    C::lemma_dims();
    reveal(BoardModel::moved_position);
    let n = b.moved_position(m);
    let from = m.from_spec() as nat;
    let to = m.to_spec() as nat;
    let rf = castling_rook_from::<C>(from, to) as nat;
    let rt = castling_rook_to::<C>(from, to) as nat;
    let k = area::<C>();
    let white_moves = b.turn == CurrentPlayer::White;
    let king = b.pieces[from as int];
    let rook = b.pieces[rf as int];
    let fb = single(from);
    let tb = single(to);
    let rfb = single(rf);
    let rtb = single(rt);
    assert(has_bit(b.bits_of(b.turn), from));
    assert(has_bit(b.bits_of(b.turn), rf));
    assert(!has_bit(b.occupancy, to));
    assert(!has_bit(b.occupancy, rt));
    assert(has_bit(b.occupancy, to) == (has_bit(b.white, to) || has_bit(b.black, to)));
    assert(has_bit(b.occupancy, rt) == (has_bit(b.white, rt) || has_bit(b.black, rt)));
    // The king leaves its square.
    let p1 = b.pieces.update(from as int, PieceType::Empty);
    let w1 = b.white & !fb;
    let b1 = b.black & !fb;
    assert forall|t: nat| t < k && t != from implies square_key(b.pieces, b.white, b.black, t)
        == square_key(p1, w1, b1, t) by {}
    lemma_hash_one_square(b.pieces, b.white, b.black, p1, w1, b1, from, k);
    // The king lands on its empty square.
    let p2 = p1.update(to as int, king);
    let w2 = if white_moves {
        w1 | tb
    } else {
        w1
    };
    let b2 = if white_moves {
        b1
    } else {
        b1 | tb
    };
    assert forall|t: nat| t < k && t != to implies square_key(p1, w1, b1, t) == square_key(
        p2,
        w2,
        b2,
        t,
    ) by {}
    lemma_hash_one_square(p1, w1, b1, p2, w2, b2, to, k);
    // The rook leaves its square.
    let p3 = p2.update(rf as int, PieceType::Empty);
    let w3 = w2 & !rfb;
    let b3 = b2 & !rfb;
    assert forall|t: nat| t < k && t != rf implies square_key(p2, w2, b2, t) == square_key(
        p3,
        w3,
        b3,
        t,
    ) by {}
    lemma_hash_one_square(p2, w2, b2, p3, w3, b3, rf, k);
    // The rook lands on its empty square.
    assert(n.pieces[rt as int] == rook);
    assert(n.pieces[to as int] == king);
    assert forall|t: nat| t < k && t != rt implies square_key(p3, w3, b3, t) == square_key(
        n.pieces,
        n.white,
        n.black,
        t,
    ) by {}
    lemma_hash_one_square(p3, w3, b3, n.pieces, n.white, n.black, rt, k);
    let ha = hash_squares(b.pieces, b.white, b.black, k);
    let kaf = square_key(b.pieces, b.white, b.black, from);
    let kct = square_key(p2, w2, b2, to);
    let kcr = square_key(p2, w2, b2, rf);
    let knr = square_key(n.pieces, n.white, n.black, rt);
    assert(square_key(p1, w1, b1, from) == 0);
    assert(square_key(p1, w1, b1, to) == 0);
    assert(square_key(p3, w3, b3, rf) == 0);
    assert(square_key(p3, w3, b3, rt) == 0);
    assert(kaf == piece_key_spec(king, b.turn, from));
    assert(kct == piece_key_spec(king, b.turn, to));
    assert(kcr == piece_key_spec(rook, b.turn, rf));
    assert(knr == piece_key_spec(rook, b.turn, rt));
    assert((((ha ^ (kaf ^ 0u64)) ^ (0u64 ^ kct)) ^ (kcr ^ 0u64)) ^ (0u64 ^ knr) == ha ^ (((kaf
        ^ kct) ^ kcr) ^ knr)) by (bit_vector);
}

impl<C: BoardConfig> Chessboard<C> {
    /// Brings the hash up to date once the pieces of `move_` have moved on a board that was
    /// `b`: `moved` is the piece that moved and `captured` the piece it took, and the
    /// castling rights and en-passant square given are those from before the move. The keys
    /// of what changed are added to the old hash, which then equals the hash of the new
    /// position computed from scratch.
    #[verifier::rlimit(80)]
    pub(super) fn update_zobrist_after_move(
        &mut self,
        move_: C::MoveType,
        moved: &PieceType,
        captured: &PieceType,
        old_castling_rights: u128,
        old_en_passant_square: Option<u8>,
        Ghost(b): Ghost<BoardModel<C>>,
    )
        requires
            b.wf(),
            b.applicable(move_),
            old(self)@ == b.moved_position(move_),
            *moved == b.pieces[move_.from_spec() as int],
            *captured == b.captured_by(move_),
            old_castling_rights == b.castling,
            old_en_passant_square == b.en_passant,
        ensures
            final(self)@ == (BoardModel { zobrist: old(self)@.hash(), ..old(self)@ }),
    {
        proof {
            C::lemma_dims();
            reveal(BoardModel::moved_position);
        }
        let ghost n = self@;
        let ghost k = area::<C>();
        let ghost ho = hash_squares(b.pieces, b.white, b.black, k);
        let ghost hn = hash_squares(n.pieces, n.white, n.black, k);
        let mover = self.turn.other();
        let from = move_.from() as usize;
        let to = move_.to() as usize;
        let w = C::width();
        let area_n = C::area();
        let flag = move_.flag();
        assert(mover == b.turn);
        let z0 = self.zobrist;
        let z1 = z0 ^ Self::zobrist_key(0xBB67_AE85_84CA_A73B);
        let kf = Self::piece_zobrist_key(moved, mover, from);
        let kt = Self::piece_zobrist_key(&self.pieces[to], mover, to);
        let mut z = (z1 ^ kf) ^ kt;
        let ghost d: u64;
        if flag == MoveFlag::EnPassant {
            let captured_square = if mover == CurrentPlayer::White {
                to + w
            } else {
                to - w
            };
            let kc = Self::piece_zobrist_key(captured, mover.other(), captured_square);
            proof {
                lemma_squares_delta_en_passant::<C>(b, move_);
                d = (kf ^ kt) ^ kc;
                assert(((z1 ^ kf) ^ kt) ^ kc == z1 ^ ((kf ^ kt) ^ kc)) by (bit_vector);
            }
            z = z ^ kc;
        } else if !matches!(captured, PieceType::Empty) {
            let kc = Self::piece_zobrist_key(captured, mover.other(), to);
            proof {
                lemma_squares_delta_ordinary::<C>(b, move_);
                d = (kf ^ kt) ^ kc;
                assert(((z1 ^ kf) ^ kt) ^ kc == z1 ^ ((kf ^ kt) ^ kc)) by (bit_vector);
            }
            z = z ^ kc;
        } else if flag == MoveFlag::Castling {
            let is_kingside = to > from;
            let rank_start = (from / w) * w;
            let rook_from = if is_kingside {
                rank_start + w - 1
            } else {
                rank_start
            };
            let rook_to = if is_kingside {
                from + 1
            } else {
                from - 1
            };
            let rook = &self.pieces[rook_to];
            let krf = Self::piece_zobrist_key(rook, mover, rook_from);
            let krt = Self::piece_zobrist_key(rook, mover, rook_to);
            proof {
                lemma_squares_delta_castling::<C>(b, move_);
                d = ((kf ^ kt) ^ krf) ^ krt;
                assert((((z1 ^ kf) ^ kt) ^ krf) ^ krt == z1 ^ (((kf ^ kt) ^ krf) ^ krt))
                    by (bit_vector);
            }
            z = (z ^ krf) ^ krt;
        } else {
            proof {
                lemma_squares_delta_ordinary::<C>(b, move_);
                d = (kf ^ kt) ^ 0u64;
                assert((z1 ^ kf) ^ kt == z1 ^ ((kf ^ kt) ^ 0u64)) by (bit_vector);
            }
        }
        assert(hn == ho ^ d);
        assert(z == z1 ^ d);
        let z2 = z;
        assert(z2 ^ 0u64 == z2) by (bit_vector);
        let changed = old_castling_rights ^ self.castling_rights;
        let mut square: usize = 0;
        while square < area_n
            invariant
                area_n as nat == area::<C>(),
                area_n <= 128,
                square <= area_n,
                z == z2 ^ hash_castling(changed, 0, square as nat),
            decreases area_n - square,
        {
            proof {
                lemma_test_single(changed, square as nat);
                let h = hash_castling(changed, 0, square as nat);
                let key = zobrist_key_spec(CASTLING_SEED ^ (square as u64));
                assert((z2 ^ h) ^ key == z2 ^ (h ^ key)) by (bit_vector);
            }
            if (changed & sq_bit(square)) != 0 {
                z = z ^ Self::zobrist_key(0x3C6E_F372_FE94_F82B ^ square as u64);
            }
            square = square + 1;
        }
        let ghost z3 = z;
        let ghost eo: u64 = match b.en_passant {
            Some(sq) => zobrist_key_spec(EN_PASSANT_SEED ^ (sq as u64)),
            None => 0,
        };
        let ghost en: u64 = match n.en_passant {
            Some(sq) => zobrist_key_spec(EN_PASSANT_SEED ^ (sq as u64)),
            None => 0,
        };
        if let Some(sq) = old_en_passant_square {
            z = z ^ Self::zobrist_key(0xA54F_F53A_5F1D_36F1 ^ sq as u64);
        } else {
            assert(z ^ 0u64 == z) by (bit_vector);
        }
        let ghost z4 = z;
        assert(z4 == z3 ^ eo);
        if let Some(sq) = self.en_passant_square {
            z = z ^ Self::zobrist_key(0xA54F_F53A_5F1D_36F1 ^ sq as u64);
        } else {
            assert(z ^ 0u64 == z) by (bit_vector);
        }
        assert(z == z4 ^ en);
        proof {
            let sk = zobrist_key_spec(SIDE_SEED);
            let so: u64 = if b.turn == CurrentPlayer::Black {
                sk
            } else {
                0
            };
            let sn: u64 = if n.turn == CurrentPlayer::Black {
                sk
            } else {
                0
            };
            assert(so ^ sn == sk) by (bit_vector)
                requires
                    (so == sk && sn == 0u64) || (so == 0u64 && sn == sk),
            ;
            let hcb = hash_castling(b.castling, 0, k);
            let hcn = hash_castling(n.castling, 0, k);
            lemma_hash_castling_xor(b.castling, n.castling, k);
            lemma_hash_castling_acc(b.castling, ho ^ so, k);
            lemma_hash_castling_acc(n.castling, hn ^ sn, k);
            assert(ho ^ 0u64 == ho) by (bit_vector);
            assert(hn ^ 0u64 == hn) by (bit_vector);
            assert(hash_castling(b.castling, ho ^ so, k) == (ho ^ so) ^ hcb);
            assert(z0 == (((ho ^ so) ^ hcb) ^ eo)) by {
                assert(z0 == b.hash());
                if b.en_passant is None {
                    assert((((ho ^ so) ^ hcb) ^ 0u64) == ((ho ^ so) ^ hcb)) by (bit_vector);
                }
            }
            assert(n.hash() == (((hn ^ sn) ^ hcn) ^ en)) by {
                if n.en_passant is None {
                    assert((((hn ^ sn) ^ hcn) ^ 0u64) == ((hn ^ sn) ^ hcn)) by (bit_vector);
                }
            }
            assert(z == (((hn ^ sn) ^ hcn) ^ en)) by (bit_vector)
                requires
                    z == (z3 ^ eo) ^ en,
                    z3 == z2 ^ (hcb ^ hcn),
                    z2 == z1 ^ d,
                    z1 == z0 ^ sk,
                    z0 == ((ho ^ so) ^ hcb) ^ eo,
                    hn == ho ^ d,
                    so ^ sn == sk,
            ;
        }
        self.zobrist = z;
    }
}

} // verus!
