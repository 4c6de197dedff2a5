use vstd::prelude::*;

use crate::chess_move::{BigMove, MoveTrait, RegularMove};

verus! {

/// Dimensions that the engine supports: castling needs at least eight files, the
/// coordinates use one letter per file, and every square has a bit in a `u128`.
pub open spec fn valid_dims(width: nat, height: nat) -> bool {
    &&& 8 <= width <= 26
    &&& 3 <= height <= 18
    &&& width * height <= 128
}

/// The shape of a board and the move type that goes with it.
pub trait BoardConfig: Sized + Copy {
    type MoveType: MoveTrait;

    spec fn spec_width() -> nat;

    spec fn spec_height() -> nat;

    fn width() -> (w: usize)
        ensures
            w as nat == Self::spec_width(),
    ;

    fn height() -> (h: usize)
        ensures
            h as nat == Self::spec_height(),
    ;

    fn area() -> (a: usize)
        ensures
            a as nat == Self::spec_width() * Self::spec_height(),
    ;

    proof fn lemma_dims()
        ensures
            valid_dims(Self::spec_width(), Self::spec_height()),
            Self::spec_width() * Self::spec_height() <= Self::MoveType::spec_capacity(),
    ;
}

/// Number of squares of the board.
pub open spec fn area<C: BoardConfig>() -> nat {
    C::spec_width() * C::spec_height()
}

/// Row of a square, counted from the top row (index 0).
pub open spec fn rank_of<C: BoardConfig>(s: nat) -> int {
    (s / C::spec_width()) as int
}

/// Column of a square, counted from the left column (index 0).
pub open spec fn file_of<C: BoardConfig>(s: nat) -> int {
    (s % C::spec_width()) as int
}

pub open spec fn on_board<C: BoardConfig>(r: int, f: int) -> bool {
    0 <= r < C::spec_height() && 0 <= f < C::spec_width()
}

/// Index of the square on row `r` and column `f`.
pub open spec fn square_at<C: BoardConfig>(r: int, f: int) -> nat {
    (r * C::spec_width() + f) as nat
}

/// Coordinates of a square on the board, and its index back from them.
pub proof fn lemma_square_coords<C: BoardConfig>(s: nat)
    requires
        s < area::<C>(),
    ensures
        on_board::<C>(rank_of::<C>(s), file_of::<C>(s)),
        square_at::<C>(rank_of::<C>(s), file_of::<C>(s)) == s,
{
    C::lemma_dims();
    let w = C::spec_width();
    let h = C::spec_height();
    assert(s / w < h) by (nonlinear_arith)
        requires
            s < w * h,
            w > 0,
    ;
    assert((s / w) * w + s % w == s) by (nonlinear_arith)
        requires
            w > 0,
    ;
    assert(0 <= s % w < w) by (nonlinear_arith)
        requires
            w > 0,
    ;
}

/// The index of an on-board square lies below the area, and gives the coordinates back.
pub proof fn lemma_coords_square<C: BoardConfig>(r: int, f: int)
    requires
        on_board::<C>(r, f),
    ensures
        square_at::<C>(r, f) < area::<C>(),
        square_at::<C>(r, f) < 128,
        rank_of::<C>(square_at::<C>(r, f)) == r,
        file_of::<C>(square_at::<C>(r, f)) == f,
{
    C::lemma_dims();
    let w = C::spec_width() as int;
    let h = C::spec_height() as int;
    assert(0 <= r * w + f < w * h) by (nonlinear_arith)
        requires
            0 <= r < h,
            0 <= f < w,
    ;
    let s = r * w + f;
    vstd::arithmetic::div_mod::lemma_fundamental_div_mod_converse(s, w, r, f);
}

/// The standard 8x8 board.
#[derive(Clone, Copy, Debug, PartialEq, Eq, Default)]
pub struct RegularVariant;

impl RegularVariant {
    pub const WIDTH: usize = 8;

    pub const HEIGHT: usize = 8;

    pub const AREA: usize = 64;
}

impl BoardConfig for RegularVariant {
    type MoveType = RegularMove;

    open spec fn spec_width() -> nat {
        8
    }

    open spec fn spec_height() -> nat {
        8
    }

    fn width() -> (w: usize) {
        8
    }

    fn height() -> (h: usize) {
        8
    }

    fn area() -> (a: usize) {
        64
    }

    proof fn lemma_dims() {
    }
}

/// A 10x12 board.
#[derive(Clone, Copy, Debug, PartialEq, Eq, Default)]
pub struct BigVariant;

impl BigVariant {
    pub const WIDTH: usize = 10;

    pub const HEIGHT: usize = 12;

    pub const AREA: usize = 120;
}

impl BoardConfig for BigVariant {
    type MoveType = BigMove;

    open spec fn spec_width() -> nat {
        10
    }

    open spec fn spec_height() -> nat {
        12
    }

    fn width() -> (w: usize) {
        10
    }

    fn height() -> (h: usize) {
        12
    }

    fn area() -> (a: usize) {
        120
    }

    proof fn lemma_dims() {
    }
}

} // verus!
