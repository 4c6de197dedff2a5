use vstd::prelude::*;

use super::{
    attack_vectors, attacked_by, castling_rook_from, castling_rook_to, ep_capture_square,
    is_double_step, is_king_of, is_pawn, king_square, lemma_applied_basics, lemma_undo_applied, lin_sq, lists_exactly, ordinary_flag,
    pin_ray_target, pin_vector, promotes, raycast_spec, same_move, signum, sq_bit, BoardModel,
    Chessboard, CurrentPlayer, GameStatus, MoveLegality,
};
use crate::bitboard::{group_bits, has_bit, lemma_test_single, lemma_zero_iff_empty, single};
use crate::board_config::{area, file_of, lemma_square_coords, rank_of, BoardConfig};
use crate::chess_move::{MoveFlag, MoveTrait};
use crate::piece::{attack_target, offset_target, pawn_dir, PieceType};

verus! {

broadcast use group_bits;

/// The minimal square with a property is what `king_square` chooses.
proof fn lemma_king_square_is_first<C: BoardConfig>(pieces: Seq<PieceType>, side: u128, r: nat)
    requires
        is_king_of::<C>(pieces, side, r),
        forall|j: nat| j < r ==> !is_king_of::<C>(pieces, side, j),
    ensures
        king_square::<C>(pieces, side) == r,
{
    let s = king_square::<C>(pieces, side);
    assert(is_king_of::<C>(pieces, side, s) && forall|j: nat|
        j < s ==> !is_king_of::<C>(pieces, side, j));
    if s < r {
        assert(!is_king_of::<C>(pieces, side, s));
    }
    if s > r {
        assert(!is_king_of::<C>(pieces, side, r));
    }
}

/// What a ray meets lies on the board.
proof fn lemma_raycast_on_board<C: BoardConfig>(occ: u128, v: int, cur: int, steps: nat)
    ensures
        raycast_spec::<C>(occ, v, cur, steps) matches Some(x) ==> x < area::<C>(),
    decreases steps,
{
    if steps > 0 {
        lemma_raycast_on_board::<C>(occ, v, cur + v, (steps - 1) as nat);
    }
}

impl<C: BoardConfig> Chessboard<C> {
    /// The square of the king of `player` (the first one, if there are several).
    pub fn get_king_position(&self, player: CurrentPlayer) -> (r: u8)
        requires
            self@.wf(),
            self@.has_king_of(player),
        ensures
            r as nat == self@.king_of(player),
            (r as nat) < area::<C>(),
    {
        proof {
            C::lemma_dims();
        }
        let n = C::area();
        let side = if player == CurrentPlayer::White {
            self.white_pieces_bitboard
        } else {
            self.black_pieces_bitboard
        };
        assert(side == self@.bits_of(player));
        let mut king_pos: usize = 0;
        while king_pos < n
            invariant
                n as nat == area::<C>(),
                n <= 128,
                king_pos <= n,
                self.pieces@.len() == n,
                side == self@.bits_of(player),
                forall|j: nat| j < king_pos ==> !is_king_of::<C>(self.pieces@, side, j),
            decreases n - king_pos,
        {
            proof {
                lemma_test_single(side, king_pos as nat);
            }
            if matches!(self.pieces[king_pos], PieceType::King(_)) && (side & sq_bit(king_pos)) != 0 {
                proof {
                    lemma_king_square_is_first::<C>(self.pieces@, side, king_pos as nat);
                }
                return king_pos as u8;
            }
            king_pos = king_pos + 1;
        }
        proof {
            let s = choose|s: nat| is_king_of::<C>(self.pieces@, side, s);
            assert(!is_king_of::<C>(self.pieces@, side, s));
        }
        0
    }

    /// Whether `player` has a king on the board.
    pub fn has_king(&self, player: CurrentPlayer) -> (r: bool)
        requires
            self@.wf(),
        ensures
            r == self@.has_king_of(player),
    {
        proof {
            C::lemma_dims();
        }
        let n = C::area();
        let side = if player == CurrentPlayer::White {
            self.white_pieces_bitboard
        } else {
            self.black_pieces_bitboard
        };
        assert(side == self@.bits_of(player));
        let mut s: usize = 0;
        while s < n
            invariant
                n as nat == area::<C>(),
                n <= 128,
                s <= n,
                self.pieces@.len() == n,
                side == self@.bits_of(player),
                forall|j: nat| j < s ==> !is_king_of::<C>(self.pieces@, side, j),
            decreases n - s,
        {
            proof {
                lemma_test_single(side, s as nat);
            }
            if matches!(self.pieces[s], PieceType::King(_)) && (side & sq_bit(s)) != 0 {
                proof {
                    assert(is_king_of::<C>(self.pieces@, side, s as nat));
                }
                return true;
            }
            s = s + 1;
        }
        proof {
            if crate::chess_board::has_king::<C>(self.pieces@, side) {
                let k = choose|k: nat| is_king_of::<C>(self.pieces@, side, k);
                assert(!is_king_of::<C>(self.pieces@, side, k));
            }
        }
        false
    }

    /// Whether the castling rights of the side to move on one side are backed by pieces of
    /// that side on the king's and the rook's starting squares (see `rights_backed`).
    pub fn castling_rights_backed(&self, kingside: bool) -> (r: bool)
        requires
            self@.wf(),
        ensures
            r == self@.rights_backed(kingside),
    {
        proof {
            C::lemma_dims();
            let w = C::spec_width();
            let h = C::spec_height();
            let rank = crate::chess_board::castling_rank_spec::<C>(self@.turn);
            assert(rank * w + w <= w * h) by (nonlinear_arith)
                requires
                    rank <= h - 1,
                    w > 0,
            ;
        }
        let player = self.turn;
        let rights = Self::castling_right_bits(player, kingside);
        let w = C::width();
        let offset = Self::castling_rank(player) * w;
        let rook = if kingside {
            offset + w - 1
        } else {
            offset
        };
        let own = if player == CurrentPlayer::White {
            self.white_pieces_bitboard
        } else {
            self.black_pieces_bitboard
        };
        proof {
            lemma_test_single(own, (offset + 4) as nat);
            lemma_test_single(own, rook as nat);
        }
        (self.castling_rights & rights) != rights || ((own & sq_bit(offset + 4)) != 0 && (own
            & sq_bit(rook)) != 0)
    }

    /// The squares attacked by the pieces of `side`, which are of colour `player`.
    fn attacks_of_side(&self, side: u128, player: CurrentPlayer) -> (r: u128)
        requires
            self@.wf(),
        ensures
            forall|t: nat| #[trigger]
                has_bit(r, t) == attacked_by::<C>(self@.pieces, self@.occupancy, side, player, t),
    {
        proof {
            C::lemma_dims();
            reveal(attacked_by);
        }
        let n = C::area();
        let mut attack_bitboard: u128 = 0;
        let mut i: usize = 0;
        while i < n
            invariant
                n as nat == area::<C>(),
                n <= 128,
                i <= n,
                self.pieces@.len() == n,
                forall|t: nat| #[trigger]
                    has_bit(attack_bitboard, t) == exists|s: nat|
                        s < i && #[trigger] has_bit(side, s) && attack_target::<C>(
                            self.pieces@[s as int],
                            s,
                            self.occupancy_board,
                            player,
                            t,
                        ),
            decreases n - i,
        {
            proof {
                lemma_test_single(side, i as nat);
            }
            if (side & sq_bit(i)) != 0 {
                let piece = &self.pieces[i];
                let move_bitboard = piece.get_attack_bitboard::<C>(i as u8, self.occupancy_board, player);
                let ghost old_bb = attack_bitboard;
                attack_bitboard = attack_bitboard | move_bitboard;
                assert forall|t: nat| #[trigger]
                    has_bit(attack_bitboard, t) == exists|s: nat|
                        s < i + 1 && #[trigger] has_bit(side, s) && attack_target::<C>(
                            self.pieces@[s as int],
                            s,
                            self.occupancy_board,
                            player,
                            t,
                        ) by {
                    if has_bit(move_bitboard, t) {
                        assert(has_bit(side, i as nat));
                    }
                    if exists|s: nat|
                        s < i + 1 && #[trigger] has_bit(side, s) && attack_target::<C>(
                            self.pieces@[s as int],
                            s,
                            self.occupancy_board,
                            player,
                            t,
                        ) {
                        let s = choose|s: nat|
                            s < i + 1 && #[trigger] has_bit(side, s) && attack_target::<C>(
                                self.pieces@[s as int],
                                s,
                                self.occupancy_board,
                                player,
                                t,
                            );
                        if s < i {
                            assert(has_bit(old_bb, t));
                        }
                    }
                }
            } else {
                assert forall|t: nat| #[trigger]
                    has_bit(attack_bitboard, t) == exists|s: nat|
                        s < i + 1 && #[trigger] has_bit(side, s) && attack_target::<C>(
                            self.pieces@[s as int],
                            s,
                            self.occupancy_board,
                            player,
                            t,
                        ) by {
                    if exists|s: nat|
                        s < i + 1 && #[trigger] has_bit(side, s) && attack_target::<C>(
                            self.pieces@[s as int],
                            s,
                            self.occupancy_board,
                            player,
                            t,
                        ) {
                        let s = choose|s: nat|
                            s < i + 1 && #[trigger] has_bit(side, s) && attack_target::<C>(
                                self.pieces@[s as int],
                                s,
                                self.occupancy_board,
                                player,
                                t,
                            );
                        assert(s != i);
                    }
                }
            }
            i = i + 1;
        }
        attack_bitboard
    }

    /// The squares the pieces of `player` attack.
    pub fn get_attack_bitboard(&self, player: CurrentPlayer) -> (r: u128)
        requires
            self@.wf(),
        ensures
            forall|t: nat| #[trigger] has_bit(r, t) == self@.attacked(player, t),
    {
        let side = if player == CurrentPlayer::White {
            self.white_pieces_bitboard
        } else {
            self.black_pieces_bitboard
        };
        self.attacks_of_side(side, player)
    }

    /// The squares the pieces of `player` attack, leaving out the piece on the square of the
    /// side to move's king.
    pub fn get_attack_bitboard_king_phase_through(&self, player: CurrentPlayer) -> (r: u128)
        requires
            self@.wf(),
            self@.has_king_of(self@.turn),
        ensures
            forall|t: nat| #[trigger]
                has_bit(r, t) == attacked_by::<C>(
                    self@.pieces,
                    self@.occupancy,
                    self@.bits_of(player) ^ single(self@.king_of(self@.turn)),
                    player,
                    t,
                ),
    {
        proof {
            C::lemma_dims();
        }
        let king_pos = self.get_king_position(self.current_player());
        let side = if player == CurrentPlayer::White {
            self.white_pieces_bitboard ^ sq_bit(king_pos as usize)
        } else {
            self.black_pieces_bitboard ^ sq_bit(king_pos as usize)
        };
        self.attacks_of_side(side, player)
    }

    /// Whether the king of `player` is attacked.
    pub fn is_king_checked(&self, current_player: CurrentPlayer) -> (r: bool)
        requires
            self@.wf(),
            self@.has_king_of(current_player),
        ensures
            r == self@.in_check(current_player),
    {
        proof {
            C::lemma_dims();
        }
        let king_pos = self.get_king_position(current_player);
        let enemy_attacks = self.get_attack_bitboard(current_player.other());
        proof {
            lemma_test_single(enemy_attacks, king_pos as nat);
        }
        (enemy_attacks & sq_bit(king_pos as usize)) != 0
    }

    fn is_square_attacked(&self, square: usize, attacker_color: CurrentPlayer) -> (r: bool)
        requires
            self@.wf(),
            square < 128,
        ensures
            r == self@.attacked(attacker_color, square as nat),
    {
        let attacks = self.get_attack_bitboard(attacker_color);
        proof {
            lemma_test_single(attacks, square as nat);
        }
        (attacks & sq_bit(square)) != 0
    }

    /// The first occupied square met from `start` along `vector`, within `max_len` steps
    /// (the ray stops at the board's edge).
    pub fn raycast(&self, vector: i8, start: u8, max_len: usize) -> (r: Option<u8>)
        requires
            (start as nat) < area::<C>(),
        ensures
            r matches Some(x) ==> raycast_spec::<C>(self@.occupancy, vector as int, start as int, max_len as nat)
                == Some(x as nat),
            r is None ==> raycast_spec::<C>(self@.occupancy, vector as int, start as int, max_len as nat)
                is None,
    {
        proof {
            C::lemma_dims();
        }
        let n = C::area() as i32;
        let w = C::width();
        let mut current = start as i32;
        let v = vector as i32;
        let mut i: usize = 0;
        while i < max_len
            invariant
                n == area::<C>(),
                n <= 128,
                w as nat == C::spec_width(),
                w > 0,
                w <= 26,
                0 <= current < n,
                i <= max_len,
                v == vector as int,
                raycast_spec::<C>(self.occupancy_board, v as int, start as int, max_len as nat)
                    == raycast_spec::<C>(self.occupancy_board, v as int, current as int, (max_len - i) as nat),
            decreases max_len - i,
        {
            let next = current + v;
            if next < 0 || next >= n {
                return None;
            }
            let cf = current as usize % w;
            let nf = next as usize % w;
            assert(cf < w && nf < w);
            let current_file = cf as i32;
            let next_file = nf as i32;
            if current_file - next_file > 1 || next_file - current_file > 1 {
                return None;
            }
            current = next;
            proof {
                lemma_test_single(self.occupancy_board, current as nat);
            }
            if (self.occupancy_board & sq_bit(current as usize)) != 0 {
                return Some(current as u8);
            }
            i = i + 1;
        }
        None
    }
    /// The pieces of `player` pinned to its king, together with the pieces pinning them.
    pub fn find_pins(&self, player: CurrentPlayer) -> (r: u128)
        requires
            self@.wf(),
            self@.has_king_of(player),
        ensures
            forall|s: nat| #[trigger] has_bit(r, s) == self@.pinned(player, s),
    {
        proof {
            C::lemma_dims();
            reveal(BoardModel::pinned);
        }
        let n = C::area();
        let mut pinned_pieces: u128 = 0;
        let vectors = crate::piece::get_all_possible_attack_vectors();
        let king_pos = self.get_king_position(player);
        let current_player_bitboard = if player == CurrentPlayer::White {
            self.white_pieces_bitboard
        } else {
            self.black_pieces_bitboard
        };
        let opponent_player_bitboard = if player == CurrentPlayer::White {
            self.black_pieces_bitboard
        } else {
            self.white_pieces_bitboard
        };
        assert(current_player_bitboard == self@.bits_of(player));
        assert(opponent_player_bitboard == self@.bits_of(player.other_spec()));
        let mut k: usize = 0;
        while k < 8
            invariant
                n as nat == area::<C>(),
                n <= 128,
                k <= 8,
                self@.wf(),
                king_pos as nat == self@.king_of(player),
                (king_pos as nat) < area::<C>(),
                vectors@ == super::attack_vectors(),
                current_player_bitboard == self@.bits_of(player),
                opponent_player_bitboard == self@.bits_of(player.other_spec()),
                forall|s: nat| #[trigger]
                    has_bit(pinned_pieces, s) == exists|kk: int|
                        0 <= kk < k && #[trigger] self@.pin_hit(player, kk, s),
            decreases 8 - k,
        {
            let attack = vectors[k];
            let ghost v = attack as int;
            let res = self.raycast(attack, king_pos, n);
            proof {
                lemma_raycast_on_board::<C>(self@.occupancy, v, king_pos as int, n as nat);
            }
            let ghost old_pins = pinned_pieces;
            let mut hit = false;
            if let Some(r) = res {
                proof {
                    lemma_test_single(current_player_bitboard, r as nat);
                }
                if (current_player_bitboard & sq_bit(r as usize)) != 0 {
                    let pinner = self.raycast(attack, r, n);
                    proof {
                        lemma_raycast_on_board::<C>(self@.occupancy, v, r as int, n as nat);
                    }
                    if let Some(p) = pinner {
                        proof {
                            lemma_test_single(opponent_player_bitboard, p as nat);
                        }
                        if (opponent_player_bitboard & sq_bit(p as usize)) != 0
                            && self.pieces[p as usize].has_opposite_vector::<C>(attack) {
                            pinned_pieces = pinned_pieces | sq_bit(r as usize) | sq_bit(p as usize);
                            hit = true;
                        }
                    }
                }
            }
            assert forall|s: nat| #[trigger]
                has_bit(pinned_pieces, s) == exists|kk: int|
                    0 <= kk < k + 1 && #[trigger] self@.pin_hit(player, kk, s) by {
                if exists|kk: int| 0 <= kk < k + 1 && #[trigger] self@.pin_hit(player, kk, s) {
                    let kk = choose|kk: int| 0 <= kk < k + 1 && #[trigger] self@.pin_hit(player, kk, s);
                    if kk < k {
                        assert(has_bit(old_pins, s));
                    }
                }
                if has_bit(old_pins, s) {
                    let kk = choose|kk: int| 0 <= kk < k && #[trigger] self@.pin_hit(player, kk, s);
                    assert(0 <= kk < k + 1 && self@.pin_hit(player, kk, s));
                }
                if !hit {
                    assert(!self@.pin_hit(player, k as int, s));
                } else {
                    if has_bit(pinned_pieces, s) && !has_bit(old_pins, s) {
                        assert(self@.pin_hit(player, k as int, s));
                    }
                }
            }
            k = k + 1;
        }
        proof {
            assert forall|s: nat| #[trigger] has_bit(pinned_pieces, s) == self@.pinned(player, s) by {
                if self@.pinned(player, s) {
                    let kk = choose|kk: int| 0 <= kk < 8 && #[trigger] self@.pin_hit(player, kk, s);
                    assert(0 <= kk < k && self@.pin_hit(player, kk, s));
                }
            }
        }
        pinned_pieces
    }
}

impl<C: BoardConfig> Chessboard<C> {
    fn signum(x: i32) -> (r: i32)
        ensures
            r as int == signum(x as int),
    {
        if x > 0 {
            1
        } else if x < 0 {
            -1
        } else {
            0
        }
    }

    /// The line from `king_sq` through `pinned_sq` that the pinned piece may move on: up to
    /// the first occupied square other than the pinned piece, or to the end of the index range.
    pub fn get_pin_ray_mask(&self, king_sq: u8, pinned_sq: u8) -> (r: u128)
        requires
            (king_sq as nat) < area::<C>(),
            (pinned_sq as nat) < area::<C>(),
            king_sq != pinned_sq,
        ensures
            forall|t: nat| #[trigger]
                has_bit(r, t) == pin_ray_target::<C>(
                    self@.occupancy,
                    king_sq as nat,
                    pinned_sq as nat,
                    t,
                ),
    {
        proof {
            C::lemma_dims();
        }
        let w = C::width();
        let n = C::area() as i32;
        let k_file = (king_sq as usize % w) as i32;
        let k_rank = (king_sq as usize / w) as i32;
        let p_file = (pinned_sq as usize % w) as i32;
        let p_rank = (pinned_sq as usize / w) as i32;
        let d_file = Self::signum(p_file - k_file);
        let d_rank = Self::signum(p_rank - k_rank);
        assert(-26 <= d_rank * (w as i32) <= 26) by (nonlinear_arith)
            requires
                -1 <= d_rank <= 1,
                0 < w <= 26,
        ;
        let vector = d_rank * (w as i32) + d_file;
        let ghost king = king_sq as int;
        let ghost pinned = pinned_sq as int;
        let ghost v = vector as int;
        assert(v == pin_vector::<C>(king_sq as nat, pinned_sq as nat));
        proof {
            let ww = C::spec_width() as int;
            assert(king == (king / ww) * ww + king % ww) by (nonlinear_arith)
                requires
                    ww > 0,
            ;
            assert(pinned == (pinned / ww) * ww + pinned % ww) by (nonlinear_arith)
                requires
                    ww > 0,
            ;
            if d_rank == 0 && d_file == 0 {
                assert(king / ww == pinned / ww);
                assert(false);
            }
            assert(v != 0) by (nonlinear_arith)
                requires
                    v == d_rank * ww + d_file,
                    -1 <= d_rank <= 1,
                    -1 <= d_file <= 1,
                    d_rank != 0 || d_file != 0,
                    ww >= 8,
            ;
        }
        let mut mask: u128 = 0;
        let mut current = king_sq as i32;
        let ghost mut k: int = 0;
        loop
            invariant
                n == area::<C>(),
                n <= 128,
                v == vector,
                v == pin_vector::<C>(king_sq as nat, pinned_sq as nat),
                v != 0,
                -27 <= v <= 27,
                king == king_sq,
                pinned == pinned_sq,
                0 <= k,
                current == king + k * v,
                0 <= current < n,
                forall|j: int| 1 <= j <= k ==> 0 <= #[trigger] lin_sq(king, v, j) < n,
                forall|j: int|
                    1 <= j <= k ==> !(has_bit(self@.occupancy, #[trigger] lin_sq(king, v, j) as nat)
                        && lin_sq(king, v, j) != pinned),
                forall|t: nat| #[trigger]
                    has_bit(mask, t) == exists|j: int|
                        #![trigger lin_sq(king, v, j)]
                        1 <= j <= k && t == lin_sq(king, v, j),
            decreases
                    (if v > 0 {
                        n - current
                    } else {
                        current as int
                    }),
        {
            let next = current + vector;
            assert(next == king + (k + 1) * v) by (nonlinear_arith)
                requires
                    current == king + k * v,
                    next == current + v,
            ;
            if next < 0 || next >= n {
                proof {
                    assert(!(0 <= lin_sq(king, v, k + 1) < n));
                    assert forall|t: nat| #[trigger]
                        has_bit(mask, t) == pin_ray_target::<C>(
                            self@.occupancy,
                            king_sq as nat,
                            pinned_sq as nat,
                            t,
                        ) by {
                        if pin_ray_target::<C>(self@.occupancy, king_sq as nat, pinned_sq as nat, t) {
                            let kk = choose|kk: int|
                                #![trigger lin_sq(king, v, kk)]
                                kk >= 1 && t == lin_sq(king, v, kk) && (forall|j: int|
                                    1 <= j <= kk ==> 0 <= #[trigger] lin_sq(king, v, j) < area::<C>())
                                    && (forall|j: int|
                                    1 <= j < kk ==> !(has_bit(
                                        self@.occupancy,
                                        #[trigger] lin_sq(king, v, j) as nat,
                                    ) && lin_sq(king, v, j) != pinned));
                            if kk > k {
                                assert(0 <= lin_sq(king, v, k + 1) < area::<C>());
                            }
                        }
                    }
                }
                return mask;
            }
            current = next;
            let ghost old_mask = mask;
            mask = mask | sq_bit(current as usize);
            proof {
                k = k + 1;
                assert(lin_sq(king, v, k) == current);
                assert forall|t: nat| #[trigger]
                    has_bit(mask, t) == exists|j: int|
                        #![trigger lin_sq(king, v, j)]
                        1 <= j <= k && t == lin_sq(king, v, j) by {
                    if t == current as nat {
                        assert(1 <= k <= k && t == lin_sq(king, v, k));
                    }
                    if has_bit(old_mask, t) {
                        let j = choose|j: int| 1 <= j <= k - 1 && t == lin_sq(king, v, j);
                        assert(1 <= j <= k && t == lin_sq(king, v, j));
                    }
                }
                lemma_test_single(self.occupancy_board, current as nat);
            }
            if (self.occupancy_board & sq_bit(current as usize)) != 0 && current != pinned_sq as i32 {
                proof {
                    assert forall|t: nat| #[trigger]
                        has_bit(mask, t) == pin_ray_target::<C>(
                            self@.occupancy,
                            king_sq as nat,
                            pinned_sq as nat,
                            t,
                        ) by {
                        if has_bit(mask, t) {
                            let j = choose|j: int| 1 <= j <= k && t == lin_sq(king, v, j);
                            assert(forall|i: int| 1 <= i <= j ==> 0 <= #[trigger] lin_sq(king, v, i) < n);
                        }
                        if pin_ray_target::<C>(self@.occupancy, king_sq as nat, pinned_sq as nat, t) {
                            let kk = choose|kk: int|
                                #![trigger lin_sq(king, v, kk)]
                                kk >= 1 && t == lin_sq(king, v, kk) && (forall|j: int|
                                    1 <= j <= kk ==> 0 <= #[trigger] lin_sq(king, v, j) < area::<C>())
                                    && (forall|j: int|
                                    1 <= j < kk ==> !(has_bit(
                                        self@.occupancy,
                                        #[trigger] lin_sq(king, v, j) as nat,
                                    ) && lin_sq(king, v, j) != pinned));
                            if kk > k {
                                assert(!(has_bit(self@.occupancy, lin_sq(king, v, k) as nat)
                                    && lin_sq(king, v, k) != pinned));
                            }
                        }
                    }
                }
                return mask;
            }
        }
    }
}

/// Putting two exact lists of moves one after the other gives an exact list of the
/// moves of either.
proof fn lemma_lists_concat<C: BoardConfig>(
    a: Seq<C::MoveType>,
    b: Seq<C::MoveType>,
    p: spec_fn(C::MoveType) -> bool,
    q: spec_fn(C::MoveType) -> bool,
    r: spec_fn(C::MoveType) -> bool,
)
    requires
        lists_exactly::<C>(a, p),
        lists_exactly::<C>(b, q),
        forall|x: C::MoveType, y: C::MoveType| #[trigger] p(x) && #[trigger] q(y) ==> !same_move::<C>(x, y),
        forall|m: C::MoveType| #[trigger] r(m) == (p(m) || q(m)),
    ensures
        lists_exactly::<C>(a + b, r),
{
    let c = a + b;
    assert forall|k: int| 0 <= k < c.len() implies r(#[trigger] c[k]) by {
        if k < a.len() {
            assert(c[k] == a[k]);
            assert(p(a[k]));
        } else {
            assert(c[k] == b[k - a.len()]);
            assert(q(b[k - a.len()]));
        }
    }
    assert forall|m: C::MoveType| #[trigger] r(m) implies exists|k: int|
        0 <= k < c.len() && same_move::<C>(c[k], m) by {
        if p(m) {
            let k = choose|k: int| 0 <= k < a.len() && same_move::<C>(a[k], m);
            assert(c[k] == a[k]);
        } else {
            assert(q(m));
            let k = choose|k: int| 0 <= k < b.len() && same_move::<C>(b[k], m);
            assert(c[k + a.len()] == b[k]);
        }
    }
    assert forall|i: int, j: int| 0 <= i < j < c.len() implies !same_move::<C>(
        #[trigger] c[i],
        #[trigger] c[j],
    ) by {
        lemma_concat_distinct::<C>(a, b, p, q, i, j);
    }
}

proof fn lemma_concat_distinct<C: BoardConfig>(
    a: Seq<C::MoveType>,
    b: Seq<C::MoveType>,
    p: spec_fn(C::MoveType) -> bool,
    q: spec_fn(C::MoveType) -> bool,
    i: int,
    j: int,
)
    requires
        lists_exactly::<C>(a, p),
        lists_exactly::<C>(b, q),
        forall|x: C::MoveType, y: C::MoveType| #[trigger] p(x) && #[trigger] q(y) ==> !same_move::<C>(x, y),
        0 <= i < j < a.len() + b.len(),
    ensures
        !same_move::<C>((a + b)[i], (a + b)[j]),
{
    let c = a + b;
    if j < a.len() {
        assert(c[i] == a[i] && c[j] == a[j]);
    } else if i >= a.len() {
        assert(c[i] == b[i - a.len()] && c[j] == b[j - a.len()]);
    } else {
        assert(c[i] == a[i] && c[j] == b[j - a.len()]);
        assert(p(a[i]));
        assert(q(b[j - a.len()]));
    }
}

/// A ray meets squares further along its direction.
proof fn lemma_raycast_moves<C: BoardConfig>(occ: u128, v: int, cur: int, steps: nat)
    ensures
        raycast_spec::<C>(occ, v, cur, steps) matches Some(x) ==> (v > 0 ==> x > cur) && (v < 0
            ==> x < cur) && (v == 0 ==> x == cur),
    decreases steps,
{
    if steps > 0 {
        lemma_raycast_moves::<C>(occ, v, cur + v, (steps - 1) as nat);
    }
}

/// A piece pinned to its king does not stand on the king's square.
proof fn lemma_pinned_not_king<C: BoardConfig>(b: BoardModel<C>, player: CurrentPlayer, s: nat)
    requires
        b.wf(),
        b.pinned(player, s),
        has_bit(b.bits_of(player), s),
    ensures
        s != b.king_of(player),
{
    reveal(BoardModel::pinned);
    let k = choose|k: int| 0 <= k < 8 && #[trigger] b.pin_hit(player, k, s);
    let v = attack_vectors()[k];
    assert(v != 0);
    let king = b.king_of(player);
    lemma_raycast_moves::<C>(b.occupancy, v as int, king as int, area::<C>());
    assert(!(has_bit(b.white, s) && has_bit(b.black, s)));
    match raycast_spec::<C>(b.occupancy, v as int, king as int, area::<C>()) {
        Some(r) => {
            match raycast_spec::<C>(b.occupancy, v as int, r as int, area::<C>()) {
                Some(p) => {
                    if s == p {
                        assert(has_bit(b.bits_of(player.other_spec()), p));
                        assert(false);
                    }
                },
                None => {},
            }
        },
        None => {},
    }
}

/// The square `dr` rows and `df` columns away lies `dr * width + df` indices away.
proof fn lemma_offset_index<C: BoardConfig>(s: nat, dr: int, df: int, t: nat)
    requires
        s < area::<C>(),
        offset_target::<C>(s, dr, df, t),
    ensures
        t == s + dr * C::spec_width() + df,
{
    lemma_square_coords::<C>(s);
    let w = C::spec_width() as int;
    let r = rank_of::<C>(s);
    let f = file_of::<C>(s);
    assert((r + dr) * w + (f + df) == r * w + f + dr * w + df) by (nonlinear_arith);
}

/// A pawn's move of two rows starts far enough from the edge it moves towards.
proof fn lemma_double_step_room<C: BoardConfig>(b: BoardModel<C>, s: nat, t: nat)
    requires
        b.wf(),
        s < area::<C>(),
        t < area::<C>(),
        b.destination(s, t),
        is_double_step::<C>(b.pieces[s as int], s, t),
    ensures
        match b.turn {
            CurrentPlayer::White => s >= C::spec_width(),
            CurrentPlayer::Black => s + C::spec_width() < area::<C>(),
        },
{
    reveal(BoardModel::destination);
    C::lemma_dims();
    let w = C::spec_width() as int;
    let d = pawn_dir(b.turn);
    if offset_target::<C>(s, d, -1, t) {
        lemma_offset_index::<C>(s, d, -1, t);
    } else if offset_target::<C>(s, d, 1, t) {
        lemma_offset_index::<C>(s, d, 1, t);
    } else if offset_target::<C>(s, d, 0, t) {
        lemma_offset_index::<C>(s, d, 0, t);
    } else {
        assert(offset_target::<C>(s, 2 * d, 0, t));
        lemma_offset_index::<C>(s, 2 * d, 0, t);
    }
}

/// A move of the generator's ordinary moves can be played, unless it would push the
/// halfmove clock past its limit.
pub proof fn lemma_ordinary_applicable<C: BoardConfig>(b: BoardModel<C>, m: C::MoveType)
    requires
        b.wf(),
        b.ordinary_move(m),
        b.halfmove_clock < 255 || b.resets_clock(m),
    ensures
        b.applicable(m),
{
    reveal(BoardModel::ordinary_move);
    reveal(BoardModel::destination);
    let s = m.from_spec() as nat;
    let t = m.to_spec() as nat;
    if is_double_step::<C>(b.pieces[s as int], s, t) {
        lemma_double_step_room::<C>(b, s, t);
    }
}

/// Playing a move keeps a king of the side that moved on the board.
pub proof fn lemma_applied_keeps_king<C: BoardConfig>(b: BoardModel<C>, m: C::MoveType)
    requires
        b.wf(),
        b.applicable(m),
        b.has_king_of(b.turn),
    ensures
        b.applied(m).has_king_of(b.turn),
        b.applied(m).in_check(b.turn) == b.checked_after(m),
        b.applied(m).turn == b.turn.other_spec(),
{
    lemma_applied_basics::<C>(b, m);
    reveal(BoardModel::checked_after);
    reveal(BoardModel::moved_position);
    let a = b.applied(m);
    let mp = b.moved_position(m);
    assert(a.pieces == mp.pieces && a.white == mp.white && a.black == mp.black && a.occupancy
        == mp.occupancy);
    let own = b.bits_of(b.turn);
    let k = choose|k: nat| is_king_of::<C>(b.pieces, own, k);
    let from = m.from_spec() as nat;
    let to = m.to_spec() as nat;
    let aown = a.bits_of(b.turn);
    assert(aown == mp.bits_of(b.turn));
    if k == from {
        C::lemma_dims();
        match m.flag_spec() {
            MoveFlag::EnPassant => {
                let cap = ep_capture_square::<C>(b.turn, to);
                assert(cap != to);
                assert(a.pieces[to as int] == b.pieces[from as int]);
            },
            MoveFlag::Castling => {
                assert(a.pieces[to as int] == b.pieces[from as int]);
            },
            MoveFlag::Promotion => {
                assert(is_pawn(b.pieces[from as int]));
            },
            _ => {
                assert(a.pieces[to as int] == b.pieces[from as int]);
            },
        }
        assert(is_king_of::<C>(a.pieces, aown, to));
    } else {
        match m.flag_spec() {
            MoveFlag::Castling => {
                let rf = castling_rook_from::<C>(from, to) as nat;
                let rt = castling_rook_to::<C>(from, to) as nat;
                if k == rf {
                    assert(rf != to && rf != from && rt != rf);
                    assert(a.pieces[rt as int] == b.pieces[rf as int]);
                    C::lemma_dims();
                    if b.turn == CurrentPlayer::White {
                        assert(has_bit(mp.white, rt));
                    } else {
                        assert(has_bit(mp.black, rt));
                    }
                    assert(is_king_of::<C>(a.pieces, aown, rt));
                } else {
                    assert(is_king_of::<C>(a.pieces, aown, k));
                }
            },
            MoveFlag::EnPassant => {
                let cap = ep_capture_square::<C>(b.turn, to) as nat;
                assert(!(has_bit(b.white, cap) && has_bit(b.black, cap)));
                assert(is_king_of::<C>(a.pieces, aown, k));
            },
            _ => {
                assert(is_king_of::<C>(a.pieces, aown, k));
            },
        }
    }
}

impl<C: BoardConfig> Chessboard<C> {
    /// Appends the ordinary moves from `square` to the squares of `move_bitboard`.
    fn push_targets(
        &self,
        moves: &mut Vec<C::MoveType>,
        square: usize,
        move_bitboard: u128,
        enemy_pieces: u128,
    )
        requires
            self@.wf(),
            (square as nat) < area::<C>(),
            has_bit(self@.bits_of(self@.turn), square as nat),
            forall|t: nat| #[trigger] has_bit(move_bitboard, t) == self@.destination(square as nat, t),
            enemy_pieces == self@.occupancy & !self@.bits_of(self@.turn),
        ensures
            final(moves)@.len() >= old(moves)@.len(),
            final(moves)@.subrange(0, old(moves)@.len() as int) == old(moves)@,
            lists_exactly::<C>(
                final(moves)@.subrange(old(moves)@.len() as int, final(moves)@.len() as int),
                |m: C::MoveType| m.from_spec() as nat == square as nat && self@.ordinary_move(m),
            ),
    {
        proof {
            C::lemma_dims();
        }
        let ghost b = self@;
        let ghost start = moves@.len();
        let ghost old_moves = moves@;
        let n = C::area();
        let w = C::width();
        let h = C::height();
        let piece = self.pieces[square];
        let is_pawn_piece = matches!(piece, PieceType::Pawn(_));
        let mut to: usize = 0;
        while to < n
            invariant
                n as nat == area::<C>(),
                n <= 128,
                w as nat == C::spec_width(),
                h as nat == C::spec_height(),
                w <= 26,
                h >= 3,
                n as nat <= C::MoveType::spec_capacity(),
                to <= n,
                b == self@,
                b.wf(),
                piece == b.pieces[square as int],
                is_pawn_piece == (piece is Pawn),
                (square as nat) < area::<C>(),
                has_bit(b.bits_of(b.turn), square as nat),
                forall|t: nat| #[trigger] has_bit(move_bitboard, t) == b.destination(square as nat, t),
                enemy_pieces == b.occupancy & !b.bits_of(b.turn),
                moves@.len() >= start,
                moves@.subrange(0, start as int) == old_moves,
                lists_exactly::<C>(
                    moves@.subrange(start as int, moves@.len() as int),
                    |m: C::MoveType|
                        m.from_spec() as nat == square as nat && b.ordinary_move(m) && (m.to_spec()
                            as nat) < to,
                ),
            decreases n - to,
        {
            let ghost before = moves@;
            proof {
                reveal(BoardModel::ordinary_move);
                lemma_test_single(move_bitboard, to as nat);
                lemma_test_single(enemy_pieces, to as nat);
            }
            if (move_bitboard & sq_bit(to)) != 0 {
                let is_capture = (enemy_pieces & sq_bit(to)) != 0;
                let flag = if is_capture {
                    MoveFlag::Capture
                } else if is_pawn_piece && (to == square + 2 * w || square == to + 2 * w) {
                    MoveFlag::DoublePawnPush
                } else {
                    MoveFlag::Quiet
                };
                let is_promotion = is_pawn_piece && ((self.turn == CurrentPlayer::Black && to / w
                    == h - 1) || (self.turn == CurrentPlayer::White && to < w));
                assert(is_promotion == promotes(b, square as nat, to as nat));
                if is_promotion {
                    moves.push(C::MoveType::new(square as u8, to as u8, MoveFlag::Promotion, PieceType::Queen(crate::queen::Queen)));
                    moves.push(C::MoveType::new(square as u8, to as u8, MoveFlag::Promotion, PieceType::Rook(crate::rook::Rook)));
                    moves.push(C::MoveType::new(square as u8, to as u8, MoveFlag::Promotion, PieceType::Bishop(crate::bishop::Bishop)));
                    moves.push(C::MoveType::new(square as u8, to as u8, MoveFlag::Promotion, PieceType::Knight(crate::knight::Knight)));
                } else {
                    assert(flag == ordinary_flag(b, square as nat, to as nat));
                    moves.push(C::MoveType::new(square as u8, to as u8, flag, PieceType::Empty));
                }
            }
            proof {
                let p = |m: C::MoveType|
                    m.from_spec() as nat == square as nat && b.ordinary_move(m) && (m.to_spec()
                        as nat) < to;
                let q = |m: C::MoveType|
                    m.from_spec() as nat == square as nat && b.ordinary_move(m) && m.to_spec() as nat
                        == to as nat;
                let r = |m: C::MoveType|
                    m.from_spec() as nat == square as nat && b.ordinary_move(m) && (m.to_spec()
                        as nat) < to + 1;
                let seg_old = before.subrange(start as int, before.len() as int);
                let seg_new = moves@.subrange(before.len() as int, moves@.len() as int);
                assert(moves@.subrange(start as int, moves@.len() as int) =~= seg_old + seg_new);
                assert(moves@.subrange(0, start as int) =~= before.subrange(0, start as int));
                assert forall|m: C::MoveType| #[trigger] q(m) implies exists|k: int|
                    0 <= k < seg_new.len() && same_move::<C>(seg_new[k], m) by {
                    assert(has_bit(move_bitboard, to as nat));
                    if promotes(b, square as nat, to as nat) {
                        if m.promotion_spec() is Queen {
                            assert(same_move::<C>(seg_new[0], m));
                        } else if m.promotion_spec() is Rook {
                            assert(same_move::<C>(seg_new[1], m));
                        } else if m.promotion_spec() is Bishop {
                            assert(same_move::<C>(seg_new[2], m));
                        } else {
                            assert(same_move::<C>(seg_new[3], m));
                        }
                    } else {
                        assert(same_move::<C>(seg_new[0], m));
                    }
                }
                assert(lists_exactly::<C>(seg_new, q));
                lemma_lists_concat::<C>(seg_old, seg_new, p, q, r);
            }
            to = to + 1;
        }
        proof {
            reveal(BoardModel::ordinary_move);
            let p1 = |m: C::MoveType|
                m.from_spec() as nat == square as nat && b.ordinary_move(m) && (m.to_spec() as nat)
                    < to;
            let p2 = |m: C::MoveType| m.from_spec() as nat == square as nat && self@.ordinary_move(m);
            assert(p1 =~= p2);
        }
    }
}

/// Where a move's pieces go depends only on its origin, destination, kind and promotion
/// piece.
pub proof fn lemma_same_move_moves_same<C: BoardConfig>(
    b: BoardModel<C>,
    m1: C::MoveType,
    m2: C::MoveType,
)
    requires
        same_move::<C>(m1, m2),
    ensures
        b.applicable(m1) == b.applicable(m2),
        b.moved_position(m1) == b.moved_position(m2),
        b.checked_after(m1) == b.checked_after(m2),
{
    reveal(BoardModel::checked_after);
    reveal(BoardModel::moved_position);
    assert(b.moved_position(m1) =~= b.moved_position(m2));
}

/// What the generator asks of a move depends only on its origin, destination, kind and
/// promotion piece, and on whether it is in the form that `new` builds.
pub proof fn lemma_same_move_same<C: BoardConfig>(b: BoardModel<C>, m1: C::MoveType, m2: C::MoveType)
    requires
        same_move::<C>(m1, m2),
        m1.canonical() == m2.canonical(),
    ensures
        b.applicable(m1) == b.applicable(m2),
        b.moved_position(m1) == b.moved_position(m2),
        b.checked_after(m1) == b.checked_after(m2),
        b.ordinary_move(m1) == b.ordinary_move(m2),
        b.en_passant_move(m1) == b.en_passant_move(m2),
        b.castling_move(m1) == b.castling_move(m2),
        b.semilegal(m1, true) == b.semilegal(m2, true),
        b.semilegal(m1, false) == b.semilegal(m2, false),
        b.generated(m1) == b.generated(m2),
{
    reveal(BoardModel::ordinary_move);
    reveal(BoardModel::en_passant_move);
    reveal(BoardModel::castling_move);
    reveal(BoardModel::checked_after);
    reveal(BoardModel::semilegal);
    reveal(BoardModel::generated);
    reveal(BoardModel::moved_position);
    assert(b.moved_position(m1) =~= b.moved_position(m2));
}

/// Where a move stands in the generator's list: a castling move after every other move,
/// king side before queen side; any other move by its origin square.
pub open spec fn listing_key<C: BoardConfig>(m: C::MoveType) -> nat {
    if m.flag_spec() == MoveFlag::Castling {
        area::<C>() + if m.to_spec() > m.from_spec() {
            0nat
        } else {
            1nat
        }
    } else {
        m.from_spec() as nat
    }
}

/// When some square holds a king of `side`, the king square is the first such square.
#[verifier::spinoff_prover]
proof fn lemma_first_king<C: BoardConfig>(pieces: Seq<PieceType>, side: u128, w: nat)
    requires
        is_king_of::<C>(pieces, side, w),
    ensures
        is_king_of::<C>(pieces, side, king_square::<C>(pieces, side)),
        forall|j: nat| j < king_square::<C>(pieces, side) ==> !is_king_of::<C>(pieces, side, j),
    decreases w,
{
    if exists|j: nat| j < w && is_king_of::<C>(pieces, side, j) {
        let j = choose|j: nat| j < w && is_king_of::<C>(pieces, side, j);
        lemma_first_king::<C>(pieces, side, j);
    } else {
        lemma_king_square_is_first::<C>(pieces, side, w);
    }
}

/// Whether `player` is in check does not depend on which piece other than a king stands
/// on a square of its own.
#[verifier::spinoff_prover]
proof fn lemma_check_ignores_own_piece<C: BoardConfig>(
    a1: BoardModel<C>,
    a2: BoardModel<C>,
    player: CurrentPlayer,
    t: nat,
)
    requires
        a1.occupancy == a2.occupancy,
        a1.white == a2.white,
        a1.black == a2.black,
        a1.pieces.len() == area::<C>(),
        a2.pieces.len() == area::<C>(),
        forall|q: nat| q < area::<C>() && q != t ==> a1.pieces[q as int] == a2.pieces[q as int],
        has_bit(a1.bits_of(player), t),
        !has_bit(a1.bits_of(player.other_spec()), t),
        !(a1.pieces[t as int] is King),
        !(a2.pieces[t as int] is King),
        super::has_king::<C>(a1.pieces, a1.bits_of(player)),
    ensures
        a1.in_check(player) == a2.in_check(player),
{
    let own = a1.bits_of(player);
    let opp = a1.bits_of(player.other_spec());
    assert forall|q: nat| #[trigger] is_king_of::<C>(a1.pieces, own, q) == is_king_of::<C>(
        a2.pieces,
        own,
        q,
    ) by {}
    let k1 = king_square::<C>(a1.pieces, own);
    if super::has_king::<C>(a1.pieces, own) {
        let w = choose|q: nat| is_king_of::<C>(a1.pieces, own, q);
        lemma_first_king::<C>(a1.pieces, own, w);
        assert(is_king_of::<C>(a2.pieces, own, k1));
        assert forall|j: nat| j < k1 implies !is_king_of::<C>(a2.pieces, own, j) by {
            assert(!is_king_of::<C>(a1.pieces, own, j));
        }
        lemma_king_square_is_first::<C>(a2.pieces, own, k1);
    }
    assert(king_square::<C>(a2.pieces, own) == k1);
    assert forall|q: nat| q < area::<C>() && has_bit(opp, q) implies a1.pieces[q as int]
        == a2.pieces[q as int] by {}
    lemma_attacked_same::<C>(a1.pieces, a2.pieces, a1.occupancy, opp, player.other_spec(), k1);
}

/// Whether a square is attacked does not depend on the pieces off the attacking side.
#[verifier::spinoff_prover]
proof fn lemma_attacked_same<C: BoardConfig>(
    p1: Seq<PieceType>,
    p2: Seq<PieceType>,
    occ: u128,
    side: u128,
    player: CurrentPlayer,
    t: nat,
)
    requires
        forall|q: nat| q < area::<C>() && has_bit(side, q) ==> p1[q as int] == p2[q as int],
    ensures
        super::attacked_by::<C>(p1, occ, side, player, t) == super::attacked_by::<C>(
            p2,
            occ,
            side,
            player,
            t,
        ),
{
    reveal(super::attacked_by);
    if super::attacked_by::<C>(p1, occ, side, player, t) {
        let q = choose|q: nat|
            q < area::<C>() && #[trigger] has_bit(side, q) && attack_target::<C>(p1[q as int], q, occ, player, t);
        assert(p1[q as int] == p2[q as int]);
    }
    if super::attacked_by::<C>(p2, occ, side, player, t) {
        let q = choose|q: nat|
            q < area::<C>() && #[trigger] has_bit(side, q) && attack_target::<C>(p2[q as int], q, occ, player, t);
        assert(p1[q as int] == p2[q as int]);
    }
}

/// Two promotions from the same square to the same square leave the mover's king equally
/// safe, whichever piece each promotes to (a queen, rook, bishop or knight).
#[verifier::spinoff_prover]
proof fn lemma_promotion_piece_safe<C: BoardConfig>(b: BoardModel<C>, g1: C::MoveType, g2: C::MoveType)
    requires
        b.pieces.len() == area::<C>(),
        forall|i: nat| !(#[trigger] has_bit(b.white, i) && has_bit(b.black, i)),
        g1.flag_spec() == MoveFlag::Promotion,
        g2.flag_spec() == MoveFlag::Promotion,
        g1.from_spec() == g2.from_spec(),
        g1.to_spec() == g2.to_spec(),
        crate::chess_move::is_promotion_piece(g1.promotion_spec()),
        crate::chess_move::is_promotion_piece(g2.promotion_spec()),
        (g1.to_spec() as nat) < area::<C>(),
        (g1.from_spec() as nat) < area::<C>(),
        g1.from_spec() != g1.to_spec(),
        super::has_king::<C>(b.moved_position(g1).pieces, b.moved_position(g1).bits_of(b.turn)),
    ensures
        b.checked_after(g1) == b.checked_after(g2),
{
    reveal(BoardModel::checked_after);
    let a1 = b.moved_position(g1);
    let a2 = b.moved_position(g2);
    let t = g1.to_spec() as nat;
    let f = g1.from_spec() as nat;
    C::lemma_dims();
    assert(a1.occupancy == a2.occupancy && a1.white == a2.white && a1.black == a2.black
        && a1.turn == b.turn.other_spec() && a2.turn == a1.turn && a1.pieces.len() == area::<C>()
        && a2.pieces.len() == area::<C>() && a1.pieces[t as int] == g1.promotion_spec()
        && a2.pieces[t as int] == g2.promotion_spec() && (forall|q: nat|
        q < area::<C>() && q != t ==> a1.pieces[q as int] == a2.pieces[q as int])) by {
        reveal(BoardModel::moved_position);
    }
    let own = a1.bits_of(b.turn);
    assert(has_bit(own, t) && !has_bit(a1.bits_of(b.turn.other_spec()), t)) by {
        reveal(BoardModel::moved_position);
        crate::bitboard::lemma_test_single(single(t), t);
        crate::bitboard::lemma_test_single(single(f), t);
    }
    lemma_check_ignores_own_piece::<C>(a1, a2, b.turn, t);
}

/// The castling moves of the side to move, as the generator appends them: towards the
/// king-side rook when that side is allowed, then towards the queen-side rook.
pub open spec fn castling_list<C: BoardConfig>(b: BoardModel<C>) -> Seq<C::MoveType> {
    let king = (super::castling_rank_spec::<C>(b.turn) * C::spec_width() + 4) as int;
    (if b.castling_allowed(true) {
        seq![C::MoveType::built(king as u8, (king + 2) as u8, MoveFlag::Castling, PieceType::Empty)]
    } else {
        Seq::empty()
    }) + (if b.castling_allowed(false) {
        seq![C::MoveType::built(king as u8, (king - 2) as u8, MoveFlag::Castling, PieceType::Empty)]
    } else {
        Seq::empty()
    })
}

/// Castling moves, king side first, after moves in the generator's order that are not
/// castling moves keep the list in that order.
#[verifier::spinoff_prover]
proof fn lemma_castling_last<C: BoardConfig>(
    b: BoardModel<C>,
    body: Seq<C::MoveType>,
    seg: Seq<C::MoveType>,
)
    requires
        in_listing_order::<C>(body),
        forall|k: int| 0 <= k < body.len() ==> listing_key::<C>(#[trigger] body[k]) < area::<C>(),
        lists_exactly::<C>(seg, |m: C::MoveType| b.castling_move(m)),
        b.castling_allowed(true) ==> seg.len() > 0 && seg[0].to_spec() > seg[0].from_spec(),
    ensures
        in_listing_order::<C>(body + seg),
{
    reveal(BoardModel::castling_move);
    let all = body + seg;
    let cm = |m: C::MoveType| b.castling_move(m);
    assert forall|a: int, c: int| 0 <= a < c < all.len() implies listing_key::<C>(#[trigger] all[a])
        <= listing_key::<C>(#[trigger] all[c]) by {
        if c < body.len() {
            assert(all[a] == body[a] && all[c] == body[c]);
        } else {
            assert(all[c] == seg[c - body.len()]);
            assert(cm(seg[c - body.len()]));
            if a < body.len() {
                assert(all[a] == body[a]);
            } else {
                assert(all[a] == seg[a - body.len()]);
                assert(cm(seg[a - body.len()]));
                let x = all[a];
                let y = all[c];
                if x.to_spec() <= x.from_spec() && y.to_spec() > y.from_spec() {
                    assert(b.castling_allowed(true));
                    assert(cm(seg[0]));
                    assert(same_move::<C>(seg[0], seg[c - body.len()]));
                }
            }
        }
    }
}

/// The list is in the generator's order: origin squares rising, castling last.
pub open spec fn in_listing_order<C: BoardConfig>(v: Seq<C::MoveType>) -> bool {
    forall|a: int, c: int|
        0 <= a < c < v.len() ==> listing_key::<C>(#[trigger] v[a]) <= listing_key::<C>(#[trigger] v[c])
}

/// The kinds of the generator's moves, and where they start.
pub proof fn lemma_move_kinds<C: BoardConfig>(b: BoardModel<C>, m: C::MoveType)
    ensures
        b.ordinary_move(m) ==> m.flag_spec() != MoveFlag::EnPassant && m.flag_spec()
            != MoveFlag::Castling && (m.from_spec() as nat) < area::<C>() && (m.to_spec() as nat)
            < area::<C>() && has_bit(b.bits_of(b.turn), m.from_spec() as nat),
        b.en_passant_move(m) ==> m.flag_spec() == MoveFlag::EnPassant && (m.from_spec() as nat)
            < area::<C>() && has_bit(b.bits_of(b.turn), m.from_spec() as nat),
        b.castling_move(m) ==> m.flag_spec() == MoveFlag::Castling,
        b.semilegal(m, true) == (b.ordinary_move(m) || b.en_passant_move(m)),
        b.semilegal(m, false) == (b.ordinary_move(m) || b.en_passant_move(m) || b.castling_move(m)),
{
    reveal(BoardModel::ordinary_move);
    reveal(BoardModel::en_passant_move);
    reveal(BoardModel::castling_move);
    reveal(BoardModel::semilegal);
}

/// The moves the generator considers are in the form that `new` builds.
pub proof fn lemma_semilegal_canonical<C: BoardConfig>(b: BoardModel<C>, m: C::MoveType, checked: bool)
    requires
        b.semilegal(m, checked),
    ensures
        m.canonical(),
{
    reveal(BoardModel::semilegal);
    reveal(BoardModel::ordinary_move);
    reveal(BoardModel::en_passant_move);
    reveal(BoardModel::castling_move);
}

/// The generator's moves are in the form that `new` builds, so that a move of the list
/// that the generator returns is the one `new` builds from its fields.
pub proof fn lemma_generated_canonical<C: BoardConfig>(b: BoardModel<C>, m: C::MoveType)
    requires
        b.generated(m),
    ensures
        m.canonical(),
{
    reveal(BoardModel::generated);
    lemma_semilegal_canonical::<C>(b, m, b.in_check(b.turn));
}

/// An ordinary promotion to one piece is an ordinary promotion to any other.
#[verifier::spinoff_prover]
proof fn lemma_promotion_ordinary<C: BoardConfig>(b: BoardModel<C>, g: C::MoveType, gp: C::MoveType)
    requires
        b.ordinary_move(g),
        g.flag_spec() == MoveFlag::Promotion,
        gp.flag_spec() == MoveFlag::Promotion,
        gp.from_spec() == g.from_spec(),
        gp.to_spec() == g.to_spec(),
        gp.canonical(),
        crate::chess_move::is_promotion_piece(gp.promotion_spec()),
    ensures
        b.ordinary_move(gp),
        g.from_spec() != g.to_spec(),
        promotes(b, g.from_spec() as nat, g.to_spec() as nat),
        crate::chess_move::is_promotion_piece(g.promotion_spec()),
        has_bit(b.bits_of(b.turn), g.from_spec() as nat),
        !has_bit(b.bits_of(b.turn), g.to_spec() as nat),
        (g.from_spec() as nat) < area::<C>(),
        (g.to_spec() as nat) < area::<C>(),
{
    reveal(BoardModel::ordinary_move);
    reveal(BoardModel::destination);
}

/// A promotion keeps the mover's king on the board.
#[verifier::spinoff_prover]
proof fn lemma_promotion_keeps_king<C: BoardConfig>(b: BoardModel<C>, g: C::MoveType)
    requires
        b.has_king_of(b.turn),
        b.pieces.len() == area::<C>(),
        g.flag_spec() == MoveFlag::Promotion,
        promotes(b, g.from_spec() as nat, g.to_spec() as nat),
        has_bit(b.bits_of(b.turn), g.from_spec() as nat),
        !has_bit(b.bits_of(b.turn), g.to_spec() as nat),
        (g.from_spec() as nat) < area::<C>(),
        (g.to_spec() as nat) < area::<C>(),
    ensures
        super::has_king::<C>(b.moved_position(g).pieces, b.moved_position(g).bits_of(b.turn)),
{
    reveal(BoardModel::moved_position);
    C::lemma_dims();
    let own = b.bits_of(b.turn);
    let k = choose|k: nat| is_king_of::<C>(b.pieces, own, k);
    let mp = b.moved_position(g);
    assert(k != g.from_spec() as nat && k != g.to_spec() as nat);
    assert(is_king_of::<C>(mp.pieces, mp.bits_of(b.turn), k));
}

/// The generator promotes a pawn to a queen, rook, bishop or knight alike.
#[verifier::spinoff_prover]
proof fn lemma_promotion_generated<C: BoardConfig>(b: BoardModel<C>, g: C::MoveType, q: PieceType)
    requires
        b.wf(),
        b.has_king_of(b.turn),
        b.generated(g),
        g.flag_spec() == MoveFlag::Promotion,
        crate::chess_move::is_promotion_piece(q),
    ensures
        b.generated(C::MoveType::built(g.from_spec(), g.to_spec(), MoveFlag::Promotion, q)),
{
    C::lemma_dims();
    let f = g.from_spec();
    let t = g.to_spec();
    let gp = C::MoveType::built(f, t, MoveFlag::Promotion, q);
    lemma_move_kinds::<C>(b, g);
    assert(b.ordinary_move(g)) by {
        reveal(BoardModel::generated);
        reveal(BoardModel::semilegal);
    }
    assert((f as nat) < C::MoveType::spec_capacity() && (t as nat) < C::MoveType::spec_capacity());
    C::MoveType::lemma_built(f, t, MoveFlag::Promotion, q);
    lemma_promotion_ordinary::<C>(b, g, gp);
    if b.in_check(b.turn) {
        lemma_promotion_keeps_king::<C>(b, g);
        assert(!b.checked_after(g)) by {
            reveal(BoardModel::generated);
        }
        lemma_promotion_piece_safe::<C>(b, g, gp);
    }
    assert(b.generated(gp)) by {
        reveal(BoardModel::generated);
        reveal(BoardModel::semilegal);
    }
}

/// A pawn of the side to move that the generator promotes on some square is promoted there
/// to each of a queen, a rook, a bishop and a knight: the list of the generator's moves
/// holds the move that `new` builds for each piece.
#[verifier::spinoff_prover]
pub proof fn lemma_promotions_listed<C: BoardConfig>(
    b: BoardModel<C>,
    v: Seq<C::MoveType>,
    g: C::MoveType,
    q: PieceType,
)
    requires
        b.valid(),
        b.has_king_of(b.turn),
        lists_exactly::<C>(v, |m: C::MoveType| b.generated(m)),
        b.generated(g),
        g.flag_spec() == MoveFlag::Promotion,
        crate::chess_move::is_promotion_piece(q),
    ensures
        exists|k: int|
            0 <= k < v.len() && v[k] == C::MoveType::built(
                g.from_spec(),
                g.to_spec(),
                MoveFlag::Promotion,
                q,
            ),
{
    let gp = C::MoveType::built(g.from_spec(), g.to_spec(), MoveFlag::Promotion, q);
    lemma_promotion_generated::<C>(b, g, q);
    C::lemma_dims();
    lemma_generated_canonical::<C>(b, gp);
    let gen = |m: C::MoveType| b.generated(m);
    assert(gen(gp));
    let k = choose|k: int| 0 <= k < v.len() && same_move::<C>(v[k], gp);
    assert(gen(v[k]));
    lemma_generated_canonical::<C>(b, v[k]);
    C::MoveType::lemma_canonical_unique(v[k], gp);
}

/// Every move of the generator from the square of a promoting pawn to its promotion
/// square is a promotion to a queen, rook, bishop or knight (unless that square is the
/// en-passant square).
#[verifier::spinoff_prover]
pub proof fn lemma_promotion_square_only_promotions<C: BoardConfig>(
    b: BoardModel<C>,
    g: C::MoveType,
    m: C::MoveType,
)
    requires
        b.generated(g),
        g.flag_spec() == MoveFlag::Promotion,
        b.generated(m),
        m.from_spec() == g.from_spec(),
        m.to_spec() == g.to_spec(),
        b.en_passant != Some(g.to_spec()),
    ensures
        m.flag_spec() == MoveFlag::Promotion,
        crate::chess_move::is_promotion_piece(m.promotion_spec()),
{
    reveal(BoardModel::generated);
    reveal(BoardModel::semilegal);
    reveal(BoardModel::ordinary_move);
    reveal(BoardModel::en_passant_move);
    reveal(BoardModel::castling_move);
    C::lemma_dims();
    lemma_move_kinds::<C>(b, g);
    let w = C::spec_width();
    let h = C::spec_height();
    let t = g.to_spec() as nat;
    assert(promotes(b, g.from_spec() as nat, t));
    if b.castling_move(m) {
        let rank = super::castling_rank_spec::<C>(b.turn);
        if b.turn == CurrentPlayer::White {
            assert((h - 1) * w >= 2 * w) by (nonlinear_arith)
                requires
                    h >= 3,
                    w >= 8,
            ;
        } else {
            assert(t / w == 0) by (nonlinear_arith)
                requires
                    t <= 6,
                    w >= 8,
            ;
        }
    }
}

/// A list of exactly the moves of `p` that holds only moves of `q`, a narrower property,
/// lists exactly the moves of `q`.
proof fn lemma_lists_narrow<C: BoardConfig>(
    s: Seq<C::MoveType>,
    p: spec_fn(C::MoveType) -> bool,
    q: spec_fn(C::MoveType) -> bool,
)
    requires
        lists_exactly::<C>(s, p),
        forall|k: int| 0 <= k < s.len() ==> #[trigger] q(s[k]),
        forall|m: C::MoveType| #[trigger] q(m) ==> p(m),
    ensures
        lists_exactly::<C>(s, q),
{
}

/// The empty list lists exactly the moves of a property that no move has.
proof fn lemma_lists_empty<C: BoardConfig>(s: Seq<C::MoveType>, q: spec_fn(C::MoveType) -> bool)
    requires
        s.len() == 0,
        forall|m: C::MoveType| !#[trigger] q(m),
    ensures
        lists_exactly::<C>(s, q),
{
}

/// A one-move list lists exactly the moves that are that move.
proof fn lemma_lists_single<C: BoardConfig>(
    s: Seq<C::MoveType>,
    x: C::MoveType,
    q: spec_fn(C::MoveType) -> bool,
)
    requires
        s == seq![x],
        q(x),
        forall|m: C::MoveType| #[trigger] q(m) ==> same_move::<C>(m, x),
    ensures
        lists_exactly::<C>(s, q),
{
    assert forall|m: C::MoveType| #[trigger] q(m) implies exists|k: int|
        0 <= k < s.len() && same_move::<C>(s[k], m) by {
        assert(same_move::<C>(s[0], m));
    }
}

impl<C: BoardConfig> Chessboard<C> {
    /// Whether the en-passant move `m` can be played: the piece moving is of the side to
    /// move, the destination is empty, and the pawn taken stands behind it.
    fn en_passant_playable(&self, m: C::MoveType) -> (r: bool)
        requires
            self@.wf(),
            m.flag_spec() == MoveFlag::EnPassant,
            (m.from_spec() as nat) < area::<C>(),
            (m.to_spec() as nat) < area::<C>(),
        ensures
            r == self@.applicable(m),
    {
        proof {
            C::lemma_dims();
        }
        let w = C::width();
        let n = C::area();
        let from = m.from() as usize;
        let to = m.to() as usize;
        let own = if self.turn == CurrentPlayer::White {
            self.white_pieces_bitboard
        } else {
            self.black_pieces_bitboard
        };
        let opp = if self.turn == CurrentPlayer::White {
            self.black_pieces_bitboard
        } else {
            self.white_pieces_bitboard
        };
        assert(own == self@.bits_of(self@.turn));
        assert(opp == self@.bits_of(self@.turn.other_spec()));
        proof {
            lemma_test_single(own, from as nat);
            lemma_test_single(own, to as nat);
            lemma_test_single(self.occupancy_board, to as nat);
        }
        if from == to || (own & sq_bit(from)) == 0 || (own & sq_bit(to)) != 0 || (
        self.occupancy_board & sq_bit(to)) != 0 {
            return false;
        }
        let cap: usize;
        if self.turn == CurrentPlayer::White {
            cap = to + w;
        } else {
            if to < w {
                return false;
            }
            cap = to - w;
        }
        if cap >= n {
            return false;
        }
        proof {
            lemma_test_single(opp, cap as nat);
        }
        (opp & sq_bit(cap)) != 0
    }
}

impl<C: BoardConfig> Chessboard<C> {
    /// The destinations of the piece of the side to move on `square`. `pinned` holds the
    /// pins of the side to move.
    #[verifier::rlimit(60)]
    fn destination_bitboard(&self, square: usize, pinned: u128) -> (r: u128)
        requires
            self@.wf(),
            self@.has_king_of(self@.turn),
            (square as nat) < area::<C>(),
            has_bit(self@.bits_of(self@.turn), square as nat),
            forall|s: nat| #[trigger] has_bit(pinned, s) == self@.pinned(self@.turn, s),
        ensures
            forall|t: nat| #[trigger] has_bit(r, t) == self@.destination(square as nat, t),
    {
        proof {
            C::lemma_dims();
            reveal(BoardModel::destination);
        }
        let ghost b = self@;
        let turn = self.turn;
        let own = if turn == CurrentPlayer::White {
            self.white_pieces_bitboard
        } else {
            self.black_pieces_bitboard
        };
        assert(own == b.bits_of(b.turn));
        let occ = self.occupancy_board;
        let enemy = occ & !own;
        let piece = self.pieces[square];
        let mv = piece.get_move_bitboard::<C>(square as u8, occ, turn);
        let at = piece.get_attack_bitboard::<C>(square as u8, occ, turn);
        let base = (mv | (at & enemy)) & !own;
        let ghost p = piece;
        let ghost s = square as nat;
        assert forall|t: nat| #[trigger] has_bit(base, t) == ((crate::piece::move_target::<C>(
            p,
            s,
            occ,
            turn,
            t,
        ) || (attack_target::<C>(p, s, occ, turn, t) && has_bit(enemy, t))) && !has_bit(own, t)) by {
            if t >= 128 {
                assert(!has_bit(mv, t));
                assert(!has_bit(at, t));
            }
        }
        proof {
            lemma_test_single(pinned, square as nat);
        }
        let pinned_mask: u128 = if (pinned & sq_bit(square)) != 0 {
            let king = self.get_king_position(turn);
            proof {
                lemma_pinned_not_king::<C>(b, turn, square as nat);
            }
            self.get_pin_ray_mask(king, square as u8)
        } else {
            !0u128
        };
        assert forall|t: nat| #[trigger] has_bit(base & pinned_mask, t) == (has_bit(base, t) && (
        b.pinned(b.turn, s) ==> pin_ray_target::<C>(b.occupancy, b.king_of(b.turn), s, t))) by {
            if !b.pinned(b.turn, s) {
                assert(has_bit(!0u128, t) == (t < 128));
            }
        }
        let mut king_mask: u128 = !0u128;
        if matches!(piece, PieceType::King(_)) {
            let enemy_attacks = self.get_attack_bitboard(turn.other());
            king_mask = !enemy_attacks;
        }
        assert forall|t: nat| #[trigger] has_bit(king_mask, t) == (t < 128 && (p is King
            ==> !b.attacked(b.turn.other_spec(), t))) by {}
        let r = (base & pinned_mask) & king_mask;
        assert forall|t: nat| #[trigger] has_bit(r, t) == b.destination(s, t) by {
            if t >= 128 {
                assert(!has_bit(base, t));
            }
        }
        r
    }

    /// The en-passant capture of the piece of the side to move on `square`, if it is a pawn
    /// that attacks the en-passant square and the capture leaves its king safe.
    #[verifier::rlimit(60)]
    fn en_passant_moves(&mut self, square: usize) -> (ep_moves: Vec<C::MoveType>)
        requires
            old(self)@.valid(),
            old(self)@.has_king_of(old(self)@.turn),
            (square as nat) < area::<C>(),
        ensures
            final(self)@ == old(self)@,
            lists_exactly::<C>(
                ep_moves@,
                |m: C::MoveType| m.from_spec() as nat == square as nat && old(self)@.en_passant_move(m),
            ),
    {
        proof {
            C::lemma_dims();
        }
        let ghost b = self@;
        proof {
            reveal(BoardModel::en_passant_move);
        }
        let ghost q2 = |m: C::MoveType| m.from_spec() as nat == square as nat && b.en_passant_move(m);
        let turn = self.turn;
        let occ = self.occupancy_board;
        let piece = self.pieces[square];
        let mut ep_moves: Vec<C::MoveType> = Vec::new();
        if matches!(piece, PieceType::Pawn(_)) {
            if let Some(ep) = self.en_passant_square {
                let pawn_attacks = piece.get_attack_bitboard::<C>(square as u8, occ, turn);
                proof {
                    lemma_test_single(pawn_attacks, ep as nat);
                }
                if (pawn_attacks & sq_bit(ep as usize)) != 0 {
                    let mov = C::MoveType::new(square as u8, ep, MoveFlag::EnPassant, PieceType::Empty);
                    let playable = self.en_passant_playable(mov);
                    if playable {
                        self.apply_move(mov);
                        proof {
                            lemma_applied_keeps_king::<C>(b, mov);
                        }
                        let checked = self.is_king_checked(self.turn.other());
                        self.undo_move();
                        proof {
                            lemma_undo_applied::<C>(b, mov);
                        }
                        if !checked {
                            ep_moves.push(mov);
                            proof {
                                assert forall|m: C::MoveType| #[trigger] q2(m) implies same_move::<C>(
                                    m,
                                    mov,
                                ) by {}
                                lemma_lists_single::<C>(ep_moves@, mov, q2);
                            }
                        } else {
                            proof {
                                assert forall|m: C::MoveType| !#[trigger] q2(m) by {
                                    if q2(m) {
                                        assert(same_move::<C>(m, mov));
                                        lemma_same_move_same::<C>(b, m, mov);
                                    }
                                }
                                lemma_lists_empty::<C>(ep_moves@, q2);
                            }
                        }
                    } else {
                        proof {
                            assert forall|m: C::MoveType| !#[trigger] q2(m) by {
                                if q2(m) {
                                    assert(same_move::<C>(m, mov));
                                    lemma_same_move_same::<C>(b, m, mov);
                                }
                            }
                            lemma_lists_empty::<C>(ep_moves@, q2);
                        }
                    }
                } else {
                    proof {
                        assert forall|m: C::MoveType| !#[trigger] q2(m) by {}
                        lemma_lists_empty::<C>(ep_moves@, q2);
                    }
                }
            } else {
                proof {
                    assert forall|m: C::MoveType| !#[trigger] q2(m) by {}
                    lemma_lists_empty::<C>(ep_moves@, q2);
                }
            }
        } else {
            proof {
                assert forall|m: C::MoveType| !#[trigger] q2(m) by {}
                lemma_lists_empty::<C>(ep_moves@, q2);
            }
        }
        ep_moves
    }

    /// Appends the moves of the piece of the side to move on `square`: its ordinary moves
    /// and, for a pawn, the en-passant capture that leaves its king safe. `pinned` holds the
    /// pins of the side to move.
    fn push_square_moves(&mut self, moves: &mut Vec<C::MoveType>, square: usize, pinned: u128)
        requires
            old(self)@.valid(),
            old(self)@.has_king_of(old(self)@.turn),
            (square as nat) < area::<C>(),
            forall|s: nat| #[trigger] has_bit(pinned, s) == old(self)@.pinned(old(self)@.turn, s),
        ensures
            final(self)@ == old(self)@,
            final(moves)@.len() >= old(moves)@.len(),
            final(moves)@.subrange(0, old(moves)@.len() as int) == old(moves)@,
            lists_exactly::<C>(
                final(moves)@.subrange(old(moves)@.len() as int, final(moves)@.len() as int),
                |m: C::MoveType|
                    m.from_spec() as nat == square as nat && (old(self)@.ordinary_move(m) || old(
                        self,
                    )@.en_passant_move(m)),
            ),
    {
        proof {
            C::lemma_dims();
        }
        let ghost b = self@;
        let ghost start = moves@.len();
        let ghost old_moves = moves@;
        let turn = self.turn;
        let own = if turn == CurrentPlayer::White {
            self.white_pieces_bitboard
        } else {
            self.black_pieces_bitboard
        };
        assert(own == b.bits_of(b.turn));
        let occ = self.occupancy_board;
        let enemy = occ & !own;
        proof {
            lemma_test_single(own, square as nat);
        }
        if (own & sq_bit(square)) == 0 {
            proof {
                let q = |m: C::MoveType|
                    m.from_spec() as nat == square as nat && (b.ordinary_move(m)
                        || b.en_passant_move(m));
                assert(moves@.subrange(start as int, moves@.len() as int).len() == 0);
                assert forall|m: C::MoveType| !#[trigger] q(m) by {
                    lemma_move_kinds::<C>(b, m);
                }
                assert(moves@.subrange(0, start as int) =~= old_moves);
                lemma_lists_empty::<C>(moves@.subrange(start as int, moves@.len() as int), q);
            }
            return;
        }
        let mb = self.destination_bitboard(square, pinned);
        let piece = self.pieces[square];
        self.push_targets(moves, square, mb, enemy);
        let ghost mid = moves@;
        let ghost q2 = |m: C::MoveType| m.from_spec() as nat == square as nat && b.en_passant_move(m);
        let mut ep_moves = self.en_passant_moves(square);
        let ghost eps = ep_moves@;
        moves.append(&mut ep_moves);
        proof {
            let q1 = |m: C::MoveType| m.from_spec() as nat == square as nat && b.ordinary_move(m);
            let r = |m: C::MoveType|
                m.from_spec() as nat == square as nat && (b.ordinary_move(m) || b.en_passant_move(m));
            let seg1 = mid.subrange(start as int, mid.len() as int);
            assert forall|x: C::MoveType, y: C::MoveType| #[trigger] q1(x) && #[trigger] q2(y)
                implies !same_move::<C>(x, y) by {
                lemma_move_kinds::<C>(b, x);
                lemma_move_kinds::<C>(b, y);
            }
            assert(moves@ =~= mid + eps);
            assert(moves@.subrange(start as int, moves@.len() as int) =~= seg1 + eps);
            assert(moves@.subrange(0, start as int) =~= mid.subrange(0, start as int));
            lemma_lists_concat::<C>(seg1, eps, q1, q2, r);
        }
    }
}

/// The board of the squares `lo <= q < hi`.
fn range_mask(lo: usize, hi: usize) -> (r: u128)
    requires
        hi <= 128,
    ensures
        forall|q: nat| #[trigger] has_bit(r, q) == (lo <= q < hi),
{
    let mut r: u128 = 0;
    let mut q: usize = lo;
    if q > hi {
        q = hi;
    }
    while q < hi
        invariant
            hi <= 128,
            q <= hi,
            lo <= q || q == hi,
            forall|x: nat| #[trigger] has_bit(r, x) == (lo <= x < q),
        decreases hi - q,
    {
        r = r | sq_bit(q);
        q = q + 1;
    }
    r
}

impl<C: BoardConfig> Chessboard<C> {
    /// Appends the castling moves of `player`, whose back row starts at square `offset`:
    /// towards the rook on each side whose castling rights are kept, whose squares between
    /// king and rook are empty, and whose king path is not attacked; the king-side move
    /// comes first.
    #[verifier::rlimit(60)]
    #[verifier::spinoff_prover]
    fn generate_castling_for_rank(&self, moves: &mut Vec<C::MoveType>, offset: usize, player: CurrentPlayer)
        requires
            self@.wf(),
            player == self@.turn,
            offset as nat == super::castling_rank_spec::<C>(player) * C::spec_width(),
        ensures
            final(moves)@.len() >= old(moves)@.len(),
            final(moves)@.subrange(0, old(moves)@.len() as int) == old(moves)@,
            lists_exactly::<C>(
                final(moves)@.subrange(old(moves)@.len() as int, final(moves)@.len() as int),
                |m: C::MoveType| self@.castling_move(m),
            ),
            self@.castling_allowed(true) ==> final(moves)@.len() > old(moves)@.len()
                && final(moves)@[old(moves)@.len() as int].to_spec()
                > final(moves)@[old(moves)@.len() as int].from_spec(),
            final(moves)@ == old(moves)@ + castling_list::<C>(self@),
    {
        proof {
            C::lemma_dims();
            let rank = super::castling_rank_spec::<C>(player);
            assert(rank <= C::spec_height() - 1);
            assert(rank * C::spec_width() + C::spec_width() <= C::spec_height() * C::spec_width())
                by (nonlinear_arith)
                requires
                    rank <= C::spec_height() - 1,
                    C::spec_height() >= 1,
            ;
        }
        let ghost b = self@;
        let ghost start = moves@.len();
        let ghost old_moves = moves@;
        proof {
            reveal(BoardModel::castling_move);
        }
        let w = C::width();
        let other = player.other();
        let king = offset + 4;
        let kingside_rook = offset + w - 1;
        let queenside_rook = offset;
        let king_to_kingside = king + 2;
        let king_to_queenside = king - 2;
        let ks_empty = range_mask(king + 1, kingside_rook);
        let ks_rights = sq_bit(king) | sq_bit(kingside_rook);
        let has_rights = (self.castling_rights & ks_rights) == ks_rights;
        let is_empty = (self.occupancy_board & ks_empty) == 0;
        proof {
            lemma_zero_iff_empty(self.occupancy_board & ks_empty);
            assert(is_empty == forall|q: nat|
                king < q < kingside_rook ==> !has_bit(self.occupancy_board, q)) by {
                if !is_empty {
                    let q = choose|q: nat| q < 128 && has_bit(self.occupancy_board & ks_empty, q);
                    assert(king < q < kingside_rook && has_bit(self.occupancy_board, q));
                } else {
                    assert forall|q: nat| king < q < kingside_rook implies !has_bit(
                        self.occupancy_board,
                        q,
                    ) by {
                        assert(q < 128);
                        assert(!has_bit(self.occupancy_board & ks_empty, q));
                    }
                }
            }
        }
        let e_safe = !self.is_square_attacked(king, other);
        let f_safe = !self.is_square_attacked(king + 1, other);
        let g_safe = !self.is_square_attacked(king_to_kingside, other);
        let ks_ok = has_rights && is_empty && e_safe && f_safe && g_safe;
        assert(ks_ok == b.castling_allowed(true));
        let qs_empty = range_mask(queenside_rook + 1, king);
        let qs_rights = sq_bit(king) | sq_bit(queenside_rook);
        proof {
            lemma_zero_iff_empty(self.occupancy_board & qs_empty);
            assert(((self.occupancy_board & qs_empty) == 0) == forall|q: nat|
                queenside_rook < q < king ==> !has_bit(self.occupancy_board, q)) by {
                if (self.occupancy_board & qs_empty) != 0 {
                    let q = choose|q: nat| q < 128 && has_bit(self.occupancy_board & qs_empty, q);
                    assert(queenside_rook < q < king && has_bit(self.occupancy_board, q));
                } else {
                    assert forall|q: nat| queenside_rook < q < king implies !has_bit(
                        self.occupancy_board,
                        q,
                    ) by {
                        assert(q < 128);
                        assert(!has_bit(self.occupancy_board & qs_empty, q));
                    }
                }
            }
        }
        let qs_ok = (self.castling_rights & qs_rights) == qs_rights && (self.occupancy_board
            & qs_empty) == 0 && !self.is_square_attacked(king, other) && !self.is_square_attacked(
            king - 1,
            other,
        ) && !self.is_square_attacked(king_to_queenside, other);
        assert(qs_ok == b.castling_allowed(false));
        let mut ks_moves: Vec<C::MoveType> = Vec::new();
        let mut qs_moves: Vec<C::MoveType> = Vec::new();
        let ghost pk = |m: C::MoveType|
            m.canonical() && m.flag_spec() == MoveFlag::Castling && m.promotion_spec() == PieceType::Empty
                && m.from_spec() as nat == king as nat && m.to_spec() as nat == king + 2
                && b.castling_allowed(true);
        let ghost pq = |m: C::MoveType|
            m.canonical() && m.flag_spec() == MoveFlag::Castling && m.promotion_spec() == PieceType::Empty
                && m.from_spec() as nat == king as nat && m.to_spec() as int == king - 2
                && b.castling_allowed(false);
        if ks_ok {
            let mv = C::MoveType::new(king as u8, king_to_kingside as u8, MoveFlag::Castling, PieceType::Empty);
            ks_moves.push(mv);
            proof {
                lemma_lists_single::<C>(ks_moves@, mv, pk);
            }
        } else {
            proof {
                lemma_lists_empty::<C>(ks_moves@, pk);
            }
        }
        if qs_ok {
            let mv = C::MoveType::new(king as u8, king_to_queenside as u8, MoveFlag::Castling, PieceType::Empty);
            qs_moves.push(mv);
            proof {
                lemma_lists_single::<C>(qs_moves@, mv, pq);
            }
        } else {
            proof {
                lemma_lists_empty::<C>(qs_moves@, pq);
            }
        }
        let ghost ks = ks_moves@;
        let ghost qs = qs_moves@;
        proof {
            let kk = (super::castling_rank_spec::<C>(b.turn) * C::spec_width() + 4) as int;
            assert(kk == king);
            if ks_ok {
                assert(ks =~= seq![
                    C::MoveType::built(kk as u8, (kk + 2) as u8, MoveFlag::Castling, PieceType::Empty),
                ]);
            } else {
                assert(ks =~= Seq::<C::MoveType>::empty());
            }
            if qs_ok {
                assert(qs =~= seq![
                    C::MoveType::built(kk as u8, (kk - 2) as u8, MoveFlag::Castling, PieceType::Empty),
                ]);
            } else {
                assert(qs =~= Seq::<C::MoveType>::empty());
            }
            assert(ks + qs == castling_list::<C>(b));
        }
        moves.append(&mut ks_moves);
        moves.append(&mut qs_moves);
        proof {
            reveal(BoardModel::castling_move);
            let r = |m: C::MoveType| b.castling_move(m);
            assert(moves@ =~= old_moves + (ks + qs));
            assert(moves@.subrange(start as int, moves@.len() as int) =~= ks + qs);
            assert(moves@.subrange(0, start as int) =~= old_moves);
            lemma_lists_concat::<C>(ks, qs, pk, pq, r);
            if b.castling_allowed(true) {
                assert(moves@[start as int] == ks[0]);
            }
        }
    }
}

impl<C: BoardConfig> Chessboard<C> {
    /// The moves of the side to move before the check filter: ordinary moves and
    /// en-passant captures of every piece, and castling unless `is_checked`.
    #[verifier::spinoff_prover]
    fn generate_moves_no_check(&mut self, is_checked: bool) -> (moves: Vec<C::MoveType>)
        requires
            old(self)@.valid(),
            old(self)@.has_king_of(old(self)@.turn),
        ensures
            final(self)@ == old(self)@,
            lists_exactly::<C>(moves@, |m: C::MoveType| old(self)@.semilegal(m, is_checked)),
            in_listing_order::<C>(moves@),
    {
        proof {
            C::lemma_dims();
        }
        let ghost b = self@;
        let mut moves: Vec<C::MoveType> = Vec::new();
        let player = self.current_player();
        let pinned_pieces = self.find_pins(player);
        let n = C::area();
        let mut i: usize = 0;
        proof {
            lemma_lists_empty::<C>(
                moves@,
                |m: C::MoveType| (m.from_spec() as nat) < 0 && (b.ordinary_move(m) || b.en_passant_move(m)),
            );
        }
        while i < n
            invariant
                n as nat == area::<C>(),
                i <= n,
                self@ == b,
                b.valid(),
                b.has_king_of(b.turn),
                player == b.turn,
                forall|s: nat| #[trigger] has_bit(pinned_pieces, s) == b.pinned(b.turn, s),
                lists_exactly::<C>(
                    moves@,
                    |m: C::MoveType|
                        (m.from_spec() as nat) < i && (b.ordinary_move(m) || b.en_passant_move(m)),
                ),
                in_listing_order::<C>(moves@),
            decreases n - i,
        {
            let ghost before = moves@;
            self.push_square_moves(&mut moves, i, pinned_pieces);
            proof {
                let p = |m: C::MoveType|
                    (m.from_spec() as nat) < i && (b.ordinary_move(m) || b.en_passant_move(m));
                let q = |m: C::MoveType|
                    m.from_spec() as nat == i as nat && (b.ordinary_move(m) || b.en_passant_move(m));
                let seg = moves@.subrange(before.len() as int, moves@.len() as int);
                assert forall|k: int| 0 <= k < moves@.len() implies listing_key::<C>(#[trigger] moves@[k])
                    == moves@[k].from_spec() as nat && (k < before.len() ==> moves@[k].from_spec() < i)
                    && (k >= before.len() ==> moves@[k].from_spec() == i) by {
                    if k < before.len() {
                        assert(moves@[k] == before[k]);
                        assert(p(before[k]));
                        lemma_move_kinds::<C>(b, moves@[k]);
                    } else {
                        assert(moves@[k] == seg[k - before.len()]);
                        assert(q(seg[k - before.len()]));
                        lemma_move_kinds::<C>(b, moves@[k]);
                    }
                }
                assert forall|a: int, c: int| 0 <= a < c < moves@.len() implies listing_key::<C>(
                    #[trigger] moves@[a],
                ) <= listing_key::<C>(#[trigger] moves@[c]) by {
                    if c < before.len() {
                        assert(moves@[a] == before[a] && moves@[c] == before[c]);
                    }
                }
            }
            proof {
                let p = |m: C::MoveType|
                    (m.from_spec() as nat) < i && (b.ordinary_move(m) || b.en_passant_move(m));
                let q = |m: C::MoveType|
                    m.from_spec() as nat == i as nat && (b.ordinary_move(m) || b.en_passant_move(m));
                let r = |m: C::MoveType|
                    (m.from_spec() as nat) < i + 1 && (b.ordinary_move(m) || b.en_passant_move(m));
                let seg = moves@.subrange(before.len() as int, moves@.len() as int);
                assert(moves@ =~= before + seg);
                assert forall|x: C::MoveType, y: C::MoveType| #[trigger] p(x) && #[trigger] q(y)
                    implies !same_move::<C>(x, y) by {}
                lemma_lists_concat::<C>(before, seg, p, q, r);
            }
            i = i + 1;
        }
        let ghost body = moves@;
        proof {
            let p1 = |m: C::MoveType|
                (m.from_spec() as nat) < i && (b.ordinary_move(m) || b.en_passant_move(m));
            let p2 = |m: C::MoveType| b.ordinary_move(m) || b.en_passant_move(m);
            assert forall|m: C::MoveType| #[trigger] p1(m) == p2(m) by {
                lemma_move_kinds::<C>(b, m);
            }
            assert(p1 =~= p2);
        }
        if is_checked {
            proof {
                let p2 = |m: C::MoveType| b.ordinary_move(m) || b.en_passant_move(m);
                let p3 = |m: C::MoveType| b.semilegal(m, is_checked);
                assert forall|m: C::MoveType| #[trigger] p2(m) == p3(m) by {
                    lemma_move_kinds::<C>(b, m);
                }
                assert(p2 =~= p3);
            }
            return moves;
        }
        let rank = Self::castling_rank(player);
        proof {
            assert(rank * C::spec_width() <= C::spec_width() * C::spec_height()) by (nonlinear_arith)
                requires
                    rank <= C::spec_height(),
            ;
        }
        let offset = rank * C::width();
        self.generate_castling_for_rank(&mut moves, offset, player);
        proof {
            let body_pred = |m: C::MoveType|
                (m.from_spec() as nat) < i && (b.ordinary_move(m) || b.en_passant_move(m));
            assert forall|k: int| 0 <= k < body.len() implies listing_key::<C>(#[trigger] body[k])
                < area::<C>() by {
                assert(body_pred(body[k]));
                lemma_move_kinds::<C>(b, body[k]);
            }
            let seg = moves@.subrange(body.len() as int, moves@.len() as int);
            assert(moves@ =~= body + seg);
            lemma_castling_last::<C>(b, body, seg);
        }
        proof {
            let p2 = |m: C::MoveType| b.ordinary_move(m) || b.en_passant_move(m);
            let q = |m: C::MoveType| b.castling_move(m);
            let r = |m: C::MoveType| b.semilegal(m, is_checked);
            let seg = moves@.subrange(body.len() as int, moves@.len() as int);
            assert(moves@ =~= body + seg);
            assert forall|x: C::MoveType, y: C::MoveType| #[trigger] p2(x) && #[trigger] q(y)
                implies !same_move::<C>(x, y) by {
                lemma_move_kinds::<C>(b, x);
                lemma_move_kinds::<C>(b, y);
            }
            assert forall|m: C::MoveType| #[trigger] r(m) == (p2(m) || q(m)) by {
                lemma_move_kinds::<C>(b, m);
            }
            lemma_lists_concat::<C>(body, seg, p2, q, r);
        }
        moves
    }
}

/// `m` is one of the first `j` moves of `s`.
pub open spec fn in_prefix<C: BoardConfig>(s: Seq<C::MoveType>, j: int, m: C::MoveType) -> bool {
    exists|k: int| 0 <= k < j && #[trigger] same_move::<C>(s[k], m)
}

/// One more move of a list, kept when it has a property, extends the filtered list.
proof fn lemma_filter_step<C: BoardConfig>(
    keep: spec_fn(C::MoveType) -> bool,
    semi: Seq<C::MoveType>,
    j: int,
    before: Seq<C::MoveType>,
    st: Seq<C::MoveType>,
)
    requires
        0 <= j < semi.len(),
        forall|i: int, k: int|
            0 <= i < k < semi.len() ==> !same_move::<C>(#[trigger] semi[i], #[trigger] semi[k]),
        lists_exactly::<C>(before, |x: C::MoveType| in_prefix::<C>(semi, j, x) && keep(x)),
        lists_exactly::<C>(st, |x: C::MoveType| same_move::<C>(semi[j], x) && keep(x)),
    ensures
        lists_exactly::<C>(before + st, |x: C::MoveType| in_prefix::<C>(semi, j + 1, x) && keep(x)),
{
    let p = |x: C::MoveType| in_prefix::<C>(semi, j, x) && keep(x);
    let q = |x: C::MoveType| same_move::<C>(semi[j], x) && keep(x);
    let r = |x: C::MoveType| in_prefix::<C>(semi, j + 1, x) && keep(x);
    assert forall|x: C::MoveType, y: C::MoveType| #[trigger] p(x) && #[trigger] q(y) implies !same_move::<C>(
        x,
        y,
    ) by {
        let k = choose|k: int| 0 <= k < j && #[trigger] same_move::<C>(semi[k], x);
        assert(!same_move::<C>(semi[k], semi[j]));
    }
    assert forall|x: C::MoveType| #[trigger] r(x) == (p(x) || q(x)) by {
        if in_prefix::<C>(semi, j + 1, x) {
            let k = choose|k: int| 0 <= k < j + 1 && #[trigger] same_move::<C>(semi[k], x);
            if k < j {
                assert(in_prefix::<C>(semi, j, x));
            }
        }
        if p(x) {
            let k = choose|k: int| 0 <= k < j && #[trigger] same_move::<C>(semi[k], x);
            assert(0 <= k < j + 1 && same_move::<C>(semi[k], x));
        }
        if q(x) {
            assert(same_move::<C>(semi[j], x));
        }
    }
    lemma_lists_concat::<C>(before, st, p, q, r);
}

impl<C: BoardConfig> Chessboard<C> {
    /// The moves of the side to move, which is in check, that leave its king safe.
    #[verifier::rlimit(80)]
    #[verifier::spinoff_prover]
    fn generate_moves_out_of_check(&mut self) -> (legal: Vec<C::MoveType>)
        requires
            old(self)@.valid(),
            old(self)@.has_king_of(old(self)@.turn),
            old(self)@.halfmove_clock < 255,
        ensures
            final(self)@ == old(self)@,
            lists_exactly::<C>(
                legal@,
                |m: C::MoveType| old(self)@.semilegal(m, true) && !old(self)@.checked_after(m),
            ),
            in_listing_order::<C>(legal@),
    {
        let ghost b = self@;
        let ghost keep = |x: C::MoveType| !b.checked_after(x);
        let semilegal = self.generate_moves_no_check(true);
        let mut legal: Vec<C::MoveType> = Vec::new();
        let current_player = self.turn;
        let mut j: usize = 0;
        proof {
            lemma_lists_empty::<C>(legal@, |m: C::MoveType| in_prefix::<C>(semilegal@, 0, m) && keep(m));
        }
        while j < semilegal.len()
            invariant
                j <= semilegal@.len(),
                self@ == b,
                b.valid(),
                b.has_king_of(b.turn),
                b.halfmove_clock < 255,
                current_player == b.turn,
                keep == (|x: C::MoveType| !b.checked_after(x)),
                lists_exactly::<C>(semilegal@, |m: C::MoveType| b.semilegal(m, true)),
                lists_exactly::<C>(
                    legal@,
                    |m: C::MoveType| in_prefix::<C>(semilegal@, j as int, m) && keep(m),
                ),
                forall|k: int| 0 <= k < legal@.len() ==> (#[trigger] legal@[k]).canonical(),
                in_listing_order::<C>(semilegal@),
                in_listing_order::<C>(legal@),
                forall|k: int, t: int|
                    0 <= k < legal@.len() && j <= t < semilegal@.len() ==> listing_key::<C>(
                        #[trigger] legal@[k],
                    ) <= listing_key::<C>(#[trigger] semilegal@[t]),
            decreases semilegal@.len() - j,
        {
            let m = semilegal[j];
            proof {
                let sl = |x: C::MoveType| b.semilegal(x, true);
                assert(sl(semilegal@[j as int]));
                lemma_semilegal_canonical::<C>(b, m, true);
            }
            let checked = self.leaves_king_attacked(m);
            let ghost before = legal@;
            let mut step: Vec<C::MoveType> = Vec::new();
            let ghost q = |x: C::MoveType| same_move::<C>(semilegal@[j as int], x) && keep(x);
            if !checked {
                step.push(m);
                proof {
                    lemma_lists_single::<C>(step@, m, q);
                }
            } else {
                proof {
                    assert forall|x: C::MoveType| !#[trigger] q(x) by {
                        if q(x) {
                            lemma_same_move_moves_same::<C>(b, m, x);
                        }
                    }
                    lemma_lists_empty::<C>(step@, q);
                }
            }
            let ghost st = step@;
            legal.append(&mut step);
            proof {
                assert(legal@ =~= before + st);
                lemma_filter_step::<C>(keep, semilegal@, j as int, before, st);
                assert forall|k: int| 0 <= k < legal@.len() implies (#[trigger] legal@[k]).canonical() by {
                    if k < before.len() {
                        assert(legal@[k] == before[k]);
                    } else {
                        assert(legal@[k] == st[k - before.len()]);
                    }
                }
                assert forall|k: int| 0 <= k < legal@.len() implies #[trigger] legal@[k] == (if k
                    < before.len() {
                    before[k]
                } else {
                    semilegal@[j as int]
                }) by {
                    if k < before.len() {
                        assert(legal@[k] == before[k]);
                    } else {
                        assert(legal@[k] == st[k - before.len()]);
                    }
                }
                assert forall|k: int, t: int|
                    0 <= k < legal@.len() && j + 1 <= t < semilegal@.len() implies listing_key::<C>(
                    #[trigger] legal@[k],
                ) <= listing_key::<C>(#[trigger] semilegal@[t]) by {
                    if k < before.len() {
                        assert(listing_key::<C>(before[k]) <= listing_key::<C>(semilegal@[t]));
                    } else {
                        assert(listing_key::<C>(semilegal@[j as int]) <= listing_key::<C>(semilegal@[t]));
                    }
                }
                assert forall|a: int, c: int| 0 <= a < c < legal@.len() implies listing_key::<C>(
                    #[trigger] legal@[a],
                ) <= listing_key::<C>(#[trigger] legal@[c]) by {
                    if c < before.len() {
                        assert(before[a] == legal@[a] && before[c] == legal@[c]);
                    } else {
                        assert(listing_key::<C>(before[a]) <= listing_key::<C>(semilegal@[j as int]));
                    }
                }
            }
            j = j + 1;
        }
        proof {
            let p1 = |m: C::MoveType| in_prefix::<C>(semilegal@, j as int, m) && keep(m);
            let p2 = |m: C::MoveType| b.semilegal(m, true) && !b.checked_after(m);
            let sl = |x: C::MoveType| b.semilegal(x, true);
            assert forall|k: int| 0 <= k < legal@.len() implies #[trigger] p2(legal@[k]) by {
                assert(p1(legal@[k]));
                let i = choose|i: int| 0 <= i < j && #[trigger] same_move::<C>(semilegal@[i], legal@[k]);
                assert(sl(semilegal@[i]));
                lemma_same_move_moves_same::<C>(b, semilegal@[i], legal@[k]);
                lemma_semilegal_canonical::<C>(b, semilegal@[i], true);
                C::MoveType::lemma_canonical_unique(legal@[k], semilegal@[i]);
            }
            assert forall|m: C::MoveType| #[trigger] p2(m) implies p1(m) by {
                if b.semilegal(m, true) {
                    let sl = |x: C::MoveType| b.semilegal(x, true);
                    assert(sl(m));
                    let k = choose|k: int| 0 <= k < semilegal@.len() && same_move::<C>(semilegal@[k], m);
                    assert(same_move::<C>(semilegal@[k], m));
                    assert(in_prefix::<C>(semilegal@, j as int, m));
                }
            }
            lemma_lists_narrow::<C>(legal@, p1, p2);
        }
        legal
    }

    /// Plays `m`, tells whether the king of the side that moved is then attacked, and takes
    /// the move back.
    fn leaves_king_attacked(&mut self, m: C::MoveType) -> (r: bool)
        requires
            old(self)@.valid(),
            old(self)@.has_king_of(old(self)@.turn),
            old(self)@.halfmove_clock < 255,
            old(self)@.semilegal(m, true),
        ensures
            final(self)@ == old(self)@,
            r == old(self)@.checked_after(m),
    {
        let ghost b = self@;
        proof {
            lemma_move_kinds::<C>(b, m);
            reveal(BoardModel::en_passant_move);
            if b.ordinary_move(m) {
                lemma_ordinary_applicable::<C>(b, m);
            }
            lemma_applied_keeps_king::<C>(b, m);
        }
        let current_player = self.turn;
        self.apply_move(m);
        let king = self.get_king_position(current_player);
        let attacks = self.get_attack_bitboard(current_player.other());
        proof {
            C::lemma_dims();
            lemma_test_single(attacks, king as nat);
        }
        let checked = (attacks & sq_bit(king as usize)) != 0;
        self.undo_move();
        proof {
            lemma_undo_applied::<C>(b, m);
        }
        checked
    }
}

impl<C: BoardConfig> Chessboard<C> {
    /// The moves of the side to move, or how the game has ended: without a move the side
    /// in check has lost and otherwise it is a stalemate; with moves, the fifty-move rule
    /// and the third occurrence of a position end the game in a draw. The moves come by
    /// rising origin square, castling last with the king side first.
    pub fn generate_moves(&mut self) -> (r: Result<Vec<C::MoveType>, GameStatus>)
        requires
            old(self)@.valid(),
            old(self)@.has_king_of(old(self)@.turn),
            old(self)@.in_check(old(self)@.turn) ==> old(self)@.halfmove_clock < 255,
        ensures
            final(self)@ == old(self)@,
            match r {
                Ok(v) => old(self)@.outcome() is None && lists_exactly::<C>(
                    v@,
                    |m: C::MoveType| old(self)@.generated(m),
                ) && in_listing_order::<C>(v@),
                Err(status) => old(self)@.outcome() == Some(status),
            },
    {
        let ghost b = self@;
        let checked = self.is_king_checked(self.turn);
        let moves = if checked {
            self.generate_moves_out_of_check()
        } else {
            self.generate_moves_no_check(false)
        };
        proof {
            reveal(BoardModel::generated);
            let g = |m: C::MoveType| b.generated(m);
            if checked {
                let p = |m: C::MoveType| b.semilegal(m, true) && !b.checked_after(m);
                assert(p =~= g);
            } else {
                let p = |m: C::MoveType| b.semilegal(m, false);
                assert(p =~= g);
            }
            assert(lists_exactly::<C>(moves@, g));
            if moves@.len() == 0 {
                assert forall|m: C::MoveType| !b.generated(m) by {
                    if b.generated(m) {
                        assert(g(m));
                    }
                }
            } else {
                assert(g(moves@[0]));
            }
        }
        if moves.len() == 0 {
            if self.is_king_checked(self.turn) {
                Err(GameStatus::Won(self.current_player().other()))
            } else {
                Err(GameStatus::DrawStalemate)
            }
        } else if self.halfmove_clock >= 100 {
            Err(GameStatus::DrawStalemate)
        } else if !self.is_enough_material() {
            Err(GameStatus::DrawInsufficientMaterial)
        } else if self.is_threefold_repetition() {
            Err(GameStatus::DrawRepetition)
        } else {
            Ok(moves)
        }
    }

    /// The position has occurred at least twice before.
    fn is_threefold_repetition(&self) -> (r: bool)
        ensures
            r == self@.repeated(),
    {
        self.count_current_hash() >= 2
    }

    /// Whether both sides keep enough material to win; every position counts as such.
    fn is_enough_material(&self) -> (r: bool)
        ensures
            r,
    {
        true
    }
}

/// Every move the generator lists can be played, provided the halfmove clock has room
/// and the castling rights of the side to move name squares holding its own pieces.
pub proof fn lemma_generated_applicable<C: BoardConfig>(b: BoardModel<C>, m: C::MoveType)
    requires
        b.wf(),
        b.halfmove_clock < 255,
        m.flag_spec() == MoveFlag::Castling ==> b.rights_backed(m.to_spec() > m.from_spec()),
        b.generated(m),
    ensures
        b.applicable(m),
{
    reveal(BoardModel::generated);
    lemma_move_kinds::<C>(b, m);
    if b.ordinary_move(m) {
        lemma_ordinary_applicable::<C>(b, m);
    } else if b.en_passant_move(m) {
        reveal(BoardModel::en_passant_move);
    } else {
        assert(b.castling_move(m));
        reveal(BoardModel::castling_move);
        lemma_castling_applicable::<C>(b, m);
    }
}

/// A castling move of the generator can be played when the rights it uses are backed by
/// the king and rook and the halfmove clock has room.
proof fn lemma_castling_applicable<C: BoardConfig>(b: BoardModel<C>, m: C::MoveType)
    requires
        b.wf(),
        b.halfmove_clock < 255,
        b.rights_backed(m.to_spec() > m.from_spec()),
        b.castling_move(m),
    ensures
        b.applicable(m),
{
    reveal(BoardModel::castling_move);
    C::lemma_dims();
    let w = C::spec_width() as int;
    let h = C::spec_height() as int;
    let rank = super::castling_rank_spec::<C>(b.turn) as int;
    let offset = rank * w;
    let from = m.from_spec() as nat;
    let to = m.to_spec() as nat;
    assert(rank <= h - 1);
    assert(offset + w <= w * h) by (nonlinear_arith)
        requires
            rank <= h - 1,
            offset == rank * w,
            w > 0,
    ;
    assert(from == offset + 4);
    vstd::arithmetic::div_mod::lemma_fundamental_div_mod_converse(offset + 4, w, rank, 4);
    assert((from / C::spec_width()) * C::spec_width() == offset);
    let kingside = to > from;
    assert(b.castling_allowed(kingside));
    assert(b.rights_backed(kingside));
    let own = b.bits_of(b.turn);
    assert(has_bit(b.occupancy, from) == (has_bit(b.white, from) || has_bit(b.black, from)));
    if kingside {
        assert(!has_bit(b.occupancy, to));
        assert(!has_bit(b.occupancy, (from + 1) as nat));
    } else {
        assert(!has_bit(b.occupancy, to));
        assert(!has_bit(b.occupancy, (from - 1) as nat));
    }
    assert(has_bit(b.occupancy, to) == (has_bit(b.white, to) || has_bit(b.black, to)));
}

/// Two moves with the same origin, destination and kind (the promotion piece aside).
pub open spec fn same_squares_and_kind<C: BoardConfig>(a: C::MoveType, b: C::MoveType) -> bool {
    &&& a.from_spec() == b.from_spec()
    &&& a.to_spec() == b.to_spec()
    &&& a.flag_spec() == b.flag_spec()
}

impl<C: BoardConfig> BoardModel<C> {
    /// The game goes on and the generator lists a move with the origin, destination and
    /// kind of `m`.
    pub open spec fn legal(self, m: C::MoveType) -> bool {
        &&& self.outcome() is None
        &&& exists|g: C::MoveType| #[trigger] self.generated(g) && same_squares_and_kind::<C>(g, m)
    }

    /// The piece on the origin of `m` moves to its destination when that is empty, or
    /// attacks it when a piece of the side not to move stands there.
    pub open spec fn reaches(self, m: C::MoveType) -> bool {
        let from = m.from_spec() as nat;
        let to = m.to_spec() as nat;
        let p = self.pieces[from as int];
        ||| crate::piece::move_target::<C>(p, from, self.occupancy, self.turn, to) && !has_bit(
            self.occupancy,
            to,
        )
        ||| attack_target::<C>(p, from, self.occupancy, self.turn, to) && has_bit(
            self.bits_of(self.turn.other_spec()),
            to,
        )
    }
}

impl<C: BoardConfig> Chessboard<C> {
    /// Whether the piece on the origin of `move_` can reach its destination (its colour,
    /// pins and checks aside).
    pub fn is_move_semilegal(&self, move_: C::MoveType) -> (r: MoveLegality)
        requires
            self@.wf(),
            (move_.from_spec() as nat) < area::<C>(),
            move_.to_spec() < 128,
        ensures
            r == (if self@.pieces[move_.from_spec() as int] != PieceType::Empty && self@.reaches(
                move_,
            ) {
                MoveLegality::SemiLegal
            } else {
                MoveLegality::IllegalOther
            }),
    {
        let from = move_.from() as usize;
        let to = move_.to() as usize;
        let piece = self.pieces[from];
        match piece {
            PieceType::Empty => MoveLegality::IllegalOther,
            _ => {
                let enemy_board = match self.current_player() {
                    CurrentPlayer::Black => self.white_pieces_bitboard,
                    CurrentPlayer::White => self.black_pieces_bitboard,
                };
                let turn = self.current_player();
                let move_bitboard = (piece.get_move_bitboard::<C>(from as u8, self.occupancy_board, turn)
                    & !self.occupancy_board) | (piece.get_attack_bitboard::<C>(
                    from as u8,
                    self.occupancy_board,
                    turn,
                ) & enemy_board);
                proof {
                    lemma_test_single(move_bitboard, to as nat);
                }
                if (move_bitboard & sq_bit(to)) != 0 {
                    MoveLegality::SemiLegal
                } else {
                    MoveLegality::IllegalOther
                }
            },
        }
    }

    /// Whether `move_` is one the generator lists (compared by origin, destination and
    /// kind) in a game that goes on.
    pub fn is_move_legal(&mut self, move_: C::MoveType) -> (r: MoveLegality)
        requires
            old(self)@.valid(),
            old(self)@.has_king_of(old(self)@.turn),
            old(self)@.in_check(old(self)@.turn) ==> old(self)@.halfmove_clock < 255,
        ensures
            final(self)@ == old(self)@,
            r == (if old(self)@.legal(move_) {
                MoveLegality::Legal
            } else {
                MoveLegality::IllegalOther
            }),
    {
        let ghost b = self@;
        let result = self.generate_moves();
        let moves = match result {
            Ok(v) => v,
            Err(_) => Vec::new(),
        };
        proof {
            if result is Err {
                assert(!b.legal(move_));
            }
        }
        let mut i: usize = 0;
        let mut found = false;
        while i < moves.len()
            invariant
                i <= moves@.len(),
                found == exists|k: int| 0 <= k < i && same_squares_and_kind::<C>(#[trigger] moves@[k], move_),
            decreases moves@.len() - i,
        {
            let g = moves[i];
            if g.from() == move_.from() && g.to() == move_.to() && g.flag() == move_.flag() {
                found = true;
            }
            proof {
                if found {
                    if !(exists|k: int| 0 <= k < i && same_squares_and_kind::<C>(#[trigger] moves@[k], move_)) {
                        assert(same_squares_and_kind::<C>(moves@[i as int], move_));
                    }
                }
            }
            i = i + 1;
        }
        proof {
            if result is Ok {
                let gp = |x: C::MoveType| b.generated(x);
                if found {
                    let k = choose|k: int| 0 <= k < i && same_squares_and_kind::<C>(#[trigger] moves@[k], move_);
                    assert(gp(moves@[k]));
                    assert(b.generated(moves@[k]));
                }
                if b.legal(move_) {
                    let g = choose|g: C::MoveType| #[trigger] b.generated(g) && same_squares_and_kind::<C>(g, move_);
                    assert(gp(g));
                    let k = choose|k: int| 0 <= k < moves@.len() && same_move::<C>(moves@[k], g);
                    assert(same_squares_and_kind::<C>(moves@[k], move_));
                }
            }
        }
        if !found {
            MoveLegality::IllegalOther
        } else {
            MoveLegality::Legal
        }
    }

    /// Plays `move_` when it is legal and says whether it was. A move that is not legal
    /// is answered `IllegalOther` whatever it holds; a legal one is played as it stands,
    /// with whatever piece a promotion carries. A legal castling move needs the rook its
    /// right names and a legal promotion some piece, not an empty square (without them the
    /// board would lose its consistency).
    #[verifier::rlimit(40)]
    #[verifier::spinoff_prover]
    pub fn apply_move_checked(&mut self, move_: C::MoveType) -> (r: MoveLegality)
        requires
            old(self)@.valid(),
            old(self)@.has_king_of(old(self)@.turn),
            old(self)@.in_check(old(self)@.turn) ==> old(self)@.halfmove_clock < 255,
            old(self)@.legal(move_) && move_.flag_spec() == MoveFlag::Castling
                ==> old(self)@.rights_backed(move_.to_spec() > move_.from_spec()),
            old(self)@.legal(move_) && move_.flag_spec() == MoveFlag::Promotion
                ==> move_.promotion_spec() != PieceType::Empty,
        ensures
            r == (if old(self)@.legal(move_) {
                MoveLegality::Legal
            } else {
                MoveLegality::IllegalOther
            }),
            r == MoveLegality::Legal ==> final(self)@ == old(self)@.applied(move_),
            r != MoveLegality::Legal ==> final(self)@ == old(self)@,
            final(self)@.valid(),
    {
        let ghost b = self@;
        match self.is_move_legal(move_) {
            MoveLegality::Legal => {
                proof {
                    let g = choose|g: C::MoveType| #[trigger] b.generated(g) && same_squares_and_kind::<C>(g, move_);
                    lemma_generated_applicable::<C>(b, g);
                    assert(b.applicable(move_));
                }
                let _ = self.apply_move(move_);
                MoveLegality::Legal
            },
            legality => legality,
        }
    }
}

} // verus!
