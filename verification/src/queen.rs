use vstd::prelude::*;

use crate::bitboard::{group_bits, has_bit};
use crate::board_config::{area, BoardConfig};
use crate::chess_board::CurrentPlayer;
use crate::bishop::Bishop;
use crate::piece::{queen_target, queen_vectors, vectors_contain, PieceBehavior};
use crate::rook::Rook;

verus! {

broadcast use group_bits;

/// The queen: slides along rows, columns and diagonals.
#[derive(Clone, Copy, Debug, PartialEq, Eq, Default, Structural)]
pub struct Queen;

impl Queen {
    /// Square offsets of the queen's eight directions.
    pub fn get_vectors<C: BoardConfig>() -> (r: [i8; 8])
        ensures
            r@ == queen_vectors::<C>(),
    {
        proof {
            C::lemma_dims();
        }
        let w = C::width() as i8;
        let r = [-w, w, 1, -1, -(w + 1), -(w - 1), w + 1, w - 1];
        assert(r@ =~= queen_vectors::<C>());
        r
    }

    pub fn has_opposite_vector<C: BoardConfig>(vector: i8) -> (r: bool)
        requires
            vector > i8::MIN,
        ensures
            r == queen_vectors::<C>().contains((-vector) as i8),
    {
        let vectors = Self::get_vectors::<C>();
        vectors_contain(&vectors, -vector)
    }

    /// The squares a queen on `pos` reaches.
    pub fn attacks<C: BoardConfig>(pos: u8, occupancy: u128) -> (r: u128)
        requires
            (pos as nat) < area::<C>(),
        ensures
            forall|t: nat| #[trigger] has_bit(r, t) == queen_target::<C>(pos as nat, occupancy, t),
    {
        Rook::attacks::<C>(pos, occupancy) | Bishop::attacks::<C>(pos, occupancy)
    }
}

impl<C: BoardConfig> PieceBehavior<C> for Queen {
    open spec fn spec_move_target(&self, pos: nat, occ: u128, color: CurrentPlayer, t: nat) -> bool {
        queen_target::<C>(pos, occ, t)
    }

    open spec fn spec_attack_target(&self, pos: nat, occ: u128, color: CurrentPlayer, t: nat) -> bool {
        queen_target::<C>(pos, occ, t)
    }

    open spec fn spec_is_slider(&self) -> bool {
        true
    }

    fn get_move_bit_board(&self, pos: u8, occupancy: u128, _color: CurrentPlayer) -> (r: u128) {
        Self::attacks::<C>(pos, occupancy)
    }

    fn get_attack_bitboard(&self, pos: u8, occupancy: u128, _color: CurrentPlayer) -> (r: u128) {
        Self::attacks::<C>(pos, occupancy)
    }

    fn is_slider(&self) -> (r: bool) {
        true
    }
}

} // verus!
