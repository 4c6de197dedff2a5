use vstd::prelude::*;

use crate::bitboard::has_bit;
use crate::board_config::{area, BoardConfig};
use crate::chess_board::CurrentPlayer;
use crate::piece::{add_offset, king_target, PieceBehavior};

verus! {

/// The king: one step in any of the eight directions.
#[derive(Clone, Copy, Debug, PartialEq, Eq, Default, Structural)]
pub struct King;

impl King {
    /// The squares a king on `pos` attacks.
    pub fn move_bitboard<C: BoardConfig>(pos: u8) -> (r: u128)
        requires
            (pos as nat) < area::<C>(),
        ensures
            forall|t: nat| #[trigger] has_bit(r, t) == king_target::<C>(pos as nat, t),
    {
        let mut b: u128 = 0;
        proof {
            crate::bitboard::lemma_zero_iff_empty(0);
        }
        b = add_offset::<C>(b, pos, 1, 0);
        b = add_offset::<C>(b, pos, 1, -1);
        b = add_offset::<C>(b, pos, 1, 1);
        b = add_offset::<C>(b, pos, -1, 0);
        b = add_offset::<C>(b, pos, -1, -1);
        b = add_offset::<C>(b, pos, -1, 1);
        b = add_offset::<C>(b, pos, 0, -1);
        b = add_offset::<C>(b, pos, 0, 1);
        b
    }

    /// The king's attacks from every square of the board.
    pub fn generate_move_bitboards<C: BoardConfig>() -> (r: Vec<u128>)
        ensures
            r@.len() == area::<C>(),
            forall|s: int, t: nat|
                0 <= s < area::<C>() ==> #[trigger] has_bit(r@[s], t) == king_target::<C>(s as nat, t),
    {
        proof {
            C::lemma_dims();
        }
        let n = C::area();
        let mut bitboards: Vec<u128> = Vec::new();
        let mut i: usize = 0;
        while i < n
            invariant
                n as nat == area::<C>(),
                n <= 128,
                i <= n,
                bitboards@.len() == i,
                forall|s: int, t: nat|
                    0 <= s < i ==> #[trigger] has_bit(bitboards@[s], t) == king_target::<C>(s as nat, t),
            decreases n - i,
        {
            bitboards.push(Self::move_bitboard::<C>(i as u8));
            i = i + 1;
        }
        bitboards
    }
}

impl<C: BoardConfig> PieceBehavior<C> for King {
    open spec fn spec_move_target(&self, pos: nat, occ: u128, color: CurrentPlayer, t: nat) -> bool {
        king_target::<C>(pos, t)
    }

    open spec fn spec_attack_target(&self, pos: nat, occ: u128, color: CurrentPlayer, t: nat) -> bool {
        king_target::<C>(pos, t)
    }

    open spec fn spec_is_slider(&self) -> bool {
        false
    }

    fn get_move_bit_board(&self, pos: u8, _occupancy: u128, _color: CurrentPlayer) -> (r: u128) {
        Self::move_bitboard::<C>(pos)
    }

    fn get_attack_bitboard(&self, pos: u8, _occupancy: u128, _color: CurrentPlayer) -> (r: u128) {
        Self::move_bitboard::<C>(pos)
    }

    fn is_slider(&self) -> (r: bool) {
        false
    }
}

} // verus!
