use vstd::prelude::*;

use crate::bitboard::{group_bits, has_bit, single};
use crate::board_config::{
    area, lemma_coords_square, lemma_square_coords, on_board, rank_of, file_of, square_at,
    BoardConfig,
};
use crate::chess_board::CurrentPlayer;
use crate::piece::{
    add_offset, offset_target, pawn_attack_target, pawn_dir, pawn_on_start_row,
    pawn_push_target, PieceBehavior,
};

verus! {

broadcast use group_bits;

/// The pawn: pushes forward onto empty squares and captures diagonally forward.
#[derive(Clone, Copy, Debug, PartialEq, Eq, Default, Structural)]
pub struct Pawn;

impl Pawn {
    fn dir(color: CurrentPlayer) -> (r: i8)
        ensures
            r as int == pawn_dir(color),
    {
        match color {
            CurrentPlayer::White => -1,
            CurrentPlayer::Black => 1,
        }
    }

    /// The squares a pawn of `color` on `pos` may push to on an empty board.
    pub fn push_candidates<C: BoardConfig>(pos: u8, color: CurrentPlayer) -> (r: u128)
        requires
            (pos as nat) < area::<C>(),
        ensures
            forall|t: nat| #[trigger]
                has_bit(r, t) == (offset_target::<C>(pos as nat, pawn_dir(color), 0, t) || (
                pawn_on_start_row::<C>(pos as nat, color) && offset_target::<C>(
                    pos as nat,
                    2 * pawn_dir(color),
                    0,
                    t,
                ))),
    {
        proof {
            C::lemma_dims();
            lemma_square_coords::<C>(pos as nat);
        }
        let w = C::width();
        let h = C::height();
        let rank = pos as usize / w;
        let d = Self::dir(color);
        let b = add_offset::<C>(0, pos, d, 0);
        let start = match color {
            CurrentPlayer::White => rank + 2 == h && rank >= 2,
            CurrentPlayer::Black => rank == 1 && 3 < h,
        };
        if start {
            add_offset::<C>(b, pos, 2 * d, 0)
        } else {
            b
        }
    }

    /// The squares a pawn of `color` on `pos` attacks.
    pub fn attack_candidates<C: BoardConfig>(pos: u8, color: CurrentPlayer) -> (r: u128)
        requires
            (pos as nat) < area::<C>(),
        ensures
            forall|t: nat| #[trigger] has_bit(r, t) == pawn_attack_target::<C>(pos as nat, color, t),
    {
        let d = Self::dir(color);
        let b = add_offset::<C>(0, pos, d, -1);
        add_offset::<C>(b, pos, d, 1)
    }

    /// Push squares of a pawn of `color` from every square.
    pub fn generate_move_bitboards<C: BoardConfig>(color: CurrentPlayer) -> (r: Vec<u128>)
        ensures
            r@.len() == area::<C>(),
            forall|s: int, t: nat|
                0 <= s < area::<C>() ==> #[trigger] has_bit(r@[s], t) == (offset_target::<C>(
                    s as nat,
                    pawn_dir(color),
                    0,
                    t,
                ) || (pawn_on_start_row::<C>(s as nat, color) && offset_target::<C>(
                    s as nat,
                    2 * pawn_dir(color),
                    0,
                    t,
                ))),
    {
        proof {
            C::lemma_dims();
        }
        let n = C::area();
        let mut bitboards: Vec<u128> = Vec::new();
        let mut i: usize = 0;
        while i < n
            invariant
                n as nat == area::<C>(),
                n <= 128,
                i <= n,
                bitboards@.len() == i,
                forall|s: int, t: nat|
                    0 <= s < i ==> #[trigger] has_bit(bitboards@[s], t) == (offset_target::<C>(
                        s as nat,
                        pawn_dir(color),
                        0,
                        t,
                    ) || (pawn_on_start_row::<C>(s as nat, color) && offset_target::<C>(
                        s as nat,
                        2 * pawn_dir(color),
                        0,
                        t,
                    ))),
            decreases n - i,
        {
            bitboards.push(Self::push_candidates::<C>(i as u8, color));
            i = i + 1;
        }
        bitboards
    }

    /// Attack squares of a pawn of `color` from every square.
    pub fn generate_attack_bitboards<C: BoardConfig>(color: CurrentPlayer) -> (r: Vec<u128>)
        ensures
            r@.len() == area::<C>(),
            forall|s: int, t: nat|
                0 <= s < area::<C>() ==> #[trigger] has_bit(r@[s], t) == pawn_attack_target::<C>(
                    s as nat,
                    color,
                    t,
                ),
    {
        proof {
            C::lemma_dims();
        }
        let n = C::area();
        let mut bitboards: Vec<u128> = Vec::new();
        let mut i: usize = 0;
        while i < n
            invariant
                n as nat == area::<C>(),
                n <= 128,
                i <= n,
                bitboards@.len() == i,
                forall|s: int, t: nat|
                    0 <= s < i ==> #[trigger] has_bit(bitboards@[s], t)
                        == pawn_attack_target::<C>(s as nat, color, t),
            decreases n - i,
        {
            bitboards.push(Self::attack_candidates::<C>(i as u8, color));
            i = i + 1;
        }
        bitboards
    }
}

impl<C: BoardConfig> PieceBehavior<C> for Pawn {
    open spec fn spec_move_target(&self, pos: nat, occ: u128, color: CurrentPlayer, t: nat) -> bool {
        pawn_push_target::<C>(pos, occ, color, t)
    }

    open spec fn spec_attack_target(&self, pos: nat, occ: u128, color: CurrentPlayer, t: nat) -> bool {
        pawn_attack_target::<C>(pos, color, t)
    }

    open spec fn spec_is_slider(&self) -> bool {
        false
    }

    fn get_move_bit_board(&self, pos: u8, occupancy: u128, color: CurrentPlayer) -> (r: u128) {
        proof {
            C::lemma_dims();
            lemma_square_coords::<C>(pos as nat);
        }
        let w = C::width();
        let h = C::height();
        let rank = pos as usize / w;
        let file = pos as usize % w;
        let candidates = Self::push_candidates::<C>(pos, color);
        let next_rank = match color {
            CurrentPlayer::White => {
                if rank == 0 {
                    return 0;
                }
                rank - 1
            },
            CurrentPlayer::Black => {
                if rank + 1 >= h {
                    return 0;
                }
                rank + 1
            },
        };
        proof {
            lemma_coords_square::<C>(next_rank as int, file as int);
        }
        let next_index = next_rank * w + file;
        let ghost one = square_at::<C>(rank_of::<C>(pos as nat) + pawn_dir(color), file_of::<C>(pos as nat));
        assert(next_rank as int == rank_of::<C>(pos as nat) + pawn_dir(color));
        assert(one == next_index as nat);
        proof {
            crate::bitboard::lemma_test_single(occupancy, next_index as nat);
        }
        if (occupancy & (1u128 << (next_index as u128))) != 0 {
            return 0;
        }
        let r = candidates & !occupancy;
        assert forall|t: nat| #[trigger] has_bit(r, t) == pawn_push_target::<C>(pos as nat, occupancy, color, t) by {
            if offset_target::<C>(pos as nat, pawn_dir(color), 0, t) || offset_target::<C>(pos as nat, 2 * pawn_dir(color), 0, t) {
                assert(t < 128) by {
                    if offset_target::<C>(pos as nat, pawn_dir(color), 0, t) {
                        lemma_coords_square::<C>(rank_of::<C>(pos as nat) + pawn_dir(color), file_of::<C>(pos as nat));
                    } else {
                        lemma_coords_square::<C>(rank_of::<C>(pos as nat) + 2 * pawn_dir(color), file_of::<C>(pos as nat));
                    }
                }
            }
        }
        r
    }

    fn get_attack_bitboard(&self, pos: u8, _occupancy: u128, color: CurrentPlayer) -> (r: u128) {
        Self::attack_candidates::<C>(pos, color)
    }

    fn is_slider(&self) -> (r: bool) {
        false
    }
}

} // verus!
