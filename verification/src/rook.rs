use vstd::prelude::*;

use crate::bitboard::{group_bits, has_bit};
use crate::board_config::{area, BoardConfig};
use crate::chess_board::CurrentPlayer;
use crate::piece::{rook_target, rook_vectors, slide, vectors_contain, PieceBehavior};

verus! {

broadcast use group_bits;

/// The rook: slides along rows and columns.
#[derive(Clone, Copy, Debug, PartialEq, Eq, Default, Structural)]
pub struct Rook;

impl Rook {
    /// Square offsets of the rook's directions: up, down, right, left.
    pub fn get_vectors<C: BoardConfig>() -> (r: [i8; 4])
        ensures
            r@ == rook_vectors::<C>(),
    {
        proof {
            C::lemma_dims();
        }
        let w = C::width() as i8;
        let r = [-w, w, 1, -1];
        assert(r@ =~= rook_vectors::<C>());
        r
    }

    pub fn has_opposite_vector<C: BoardConfig>(vector: i8) -> (r: bool)
        requires
            vector > i8::MIN,
        ensures
            r == rook_vectors::<C>().contains((-vector) as i8),
    {
        let vectors = Self::get_vectors::<C>();
        vectors_contain(&vectors, -vector)
    }

    /// The squares a rook on `pos` reaches.
    pub fn attacks<C: BoardConfig>(pos: u8, occupancy: u128) -> (r: u128)
        requires
            (pos as nat) < area::<C>(),
        ensures
            forall|t: nat| #[trigger] has_bit(r, t) == rook_target::<C>(pos as nat, occupancy, t),
    {
        slide::<C>(pos, occupancy, 1, 0) | slide::<C>(pos, occupancy, -1, 0) | slide::<C>(
            pos,
            occupancy,
            0,
            1,
        ) | slide::<C>(pos, occupancy, 0, -1)
    }
}

impl<C: BoardConfig> PieceBehavior<C> for Rook {
    open spec fn spec_move_target(&self, pos: nat, occ: u128, color: CurrentPlayer, t: nat) -> bool {
        rook_target::<C>(pos, occ, t)
    }

    open spec fn spec_attack_target(&self, pos: nat, occ: u128, color: CurrentPlayer, t: nat) -> bool {
        rook_target::<C>(pos, occ, t)
    }

    open spec fn spec_is_slider(&self) -> bool {
        true
    }

    fn get_move_bit_board(&self, pos: u8, occupancy: u128, _color: CurrentPlayer) -> (r: u128) {
        Self::attacks::<C>(pos, occupancy)
    }

    fn get_attack_bitboard(&self, pos: u8, occupancy: u128, _color: CurrentPlayer) -> (r: u128) {
        Self::attacks::<C>(pos, occupancy)
    }

    fn is_slider(&self) -> (r: bool) {
        true
    }
}

} // verus!
