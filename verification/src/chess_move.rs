use vstd::prelude::*;

use crate::bishop::Bishop;
use crate::knight::Knight;
use crate::piece::PieceType;
use crate::queen::Queen;
use crate::rook::Rook;

verus! {

/// What kind of move a move is.
#[derive(Clone, Copy, Debug, PartialEq, Eq, Structural)]
pub enum MoveFlag {
    Quiet,
    Capture,
    DoublePawnPush,
    EnPassant,
    Castling,
    Promotion,
}

/// A piece a pawn can promote to.
pub open spec fn is_promotion_piece(p: PieceType) -> bool {
    p is Queen || p is Rook || p is Bishop || p is Knight
}

/// A promotion carries the piece promoted to, every other move carries no piece.
pub open spec fn promotion_consistent(flag: MoveFlag, promotion: PieceType) -> bool {
    if flag == MoveFlag::Promotion {
        is_promotion_piece(promotion)
    } else {
        promotion == PieceType::Empty
    }
}

/// A move from one square to another, with its kind and promotion piece.
pub trait MoveTrait: Sized + Copy + core::fmt::Debug + PartialEq + Eq {
    /// Number of squares whose indices the move type can hold.
    spec fn spec_capacity() -> nat;

    spec fn from_spec(&self) -> u8;

    spec fn to_spec(&self) -> u8;

    spec fn flag_spec(&self) -> MoveFlag;

    spec fn promotion_spec(&self) -> PieceType;

    /// The move is in the form that `new` builds: it holds nothing beyond its four fields.
    spec fn canonical(&self) -> bool;

    /// The move that `new` builds from its arguments, whatever they are.
    spec fn built(from: u8, to: u8, flag: MoveFlag, promotion: PieceType) -> Self;

    /// Builds a move. With squares the type can hold, reading it back gives the squares,
    /// and the kind and promotion piece too when the piece is one a pawn promotes to for a
    /// promotion and none for any other move; otherwise the move is `built`'s value.
    fn new(from: u8, to: u8, flag: MoveFlag, promotion: PieceType) -> (r: Self)
        ensures
            r == Self::built(from, to, flag, promotion),
            (from as nat) < Self::spec_capacity() && (to as nat) < Self::spec_capacity() ==> r.from_spec()
                == from && r.to_spec() == to && r.canonical(),
            (from as nat) < Self::spec_capacity() && (to as nat) < Self::spec_capacity()
                && promotion_consistent(flag, promotion) ==> r.flag_spec() == flag
                && r.promotion_spec() == promotion,
    ;

    /// What `new` promises of the move it builds holds of `built`'s value.
    proof fn lemma_built(from: u8, to: u8, flag: MoveFlag, promotion: PieceType)
        ensures
            (from as nat) < Self::spec_capacity() && (to as nat) < Self::spec_capacity() ==> Self::built(
                from,
                to,
                flag,
                promotion,
            ).from_spec() == from && Self::built(from, to, flag, promotion).to_spec() == to
                && Self::built(from, to, flag, promotion).canonical(),
            (from as nat) < Self::spec_capacity() && (to as nat) < Self::spec_capacity()
                && promotion_consistent(flag, promotion) ==> Self::built(
                from,
                to,
                flag,
                promotion,
            ).flag_spec() == flag && Self::built(from, to, flag, promotion).promotion_spec()
                == promotion,
    ;

    /// Two moves in the form that `new` builds that read the same are the same move.
    proof fn lemma_canonical_unique(a: Self, b: Self)
        requires
            a.canonical(),
            b.canonical(),
            a.from_spec() == b.from_spec(),
            a.to_spec() == b.to_spec(),
            a.flag_spec() == b.flag_spec(),
            a.promotion_spec() == b.promotion_spec(),
        ensures
            a == b,
    ;

    fn from(&self) -> (r: u8)
        ensures
            r == self.from_spec(),
    ;

    fn to(&self) -> (r: u8)
        ensures
            r == self.to_spec(),
    ;

    fn flag(&self) -> (r: MoveFlag)
        ensures
            r == self.flag_spec(),
    ;

    fn promotion(&self) -> (r: PieceType)
        ensures
            r == self.promotion_spec(),
    ;
}

/// A move stored field by field.
#[derive(Clone, Copy, Debug, PartialEq, Eq)]
pub struct BigMove {
    pub from: u8,
    pub to: u8,
    pub flag: MoveFlag,
    pub promotion: PieceType,
}

impl MoveTrait for BigMove {
    open spec fn spec_capacity() -> nat {
        256
    }

    open spec fn from_spec(&self) -> u8 {
        self.from
    }

    open spec fn to_spec(&self) -> u8 {
        self.to
    }

    open spec fn flag_spec(&self) -> MoveFlag {
        self.flag
    }

    open spec fn promotion_spec(&self) -> PieceType {
        self.promotion
    }

    open spec fn canonical(&self) -> bool {
        true
    }

    /// Every field is kept as given.
    open spec fn built(from: u8, to: u8, flag: MoveFlag, promotion: PieceType) -> Self {
        BigMove { from, to, flag, promotion }
    }

    fn new(from: u8, to: u8, flag: MoveFlag, promotion: PieceType) -> (r: Self) {
        BigMove { from, to, flag, promotion }
    }

    proof fn lemma_built(from: u8, to: u8, flag: MoveFlag, promotion: PieceType) {
    }

    proof fn lemma_canonical_unique(a: Self, b: Self) {
    }

    fn from(&self) -> (r: u8) {
        self.from
    }

    fn to(&self) -> (r: u8) {
        self.to
    }

    fn flag(&self) -> (r: MoveFlag) {
        self.flag
    }

    fn promotion(&self) -> (r: PieceType) {
        self.promotion
    }
}

/// A move of the 8x8 board packed in 16 bits: origin in bits 0-5, destination in
/// bits 6-11, and in bits 12-15 the kind (0 quiet, 1 capture, 2 double pawn push,
/// 3 en passant, 4 castling, 5-8 promotion to queen, rook, bishop, knight).
#[derive(Clone, Copy, Debug, PartialEq, Eq)]
pub struct RegularMove(pub u16);

/// The 4-bit code of a move's kind and promotion piece.
pub open spec fn kind_code(flag: MoveFlag, promotion: PieceType) -> u16 {
    match flag {
        MoveFlag::Promotion => match promotion {
            PieceType::Queen(_) => 5,
            PieceType::Rook(_) => 6,
            PieceType::Bishop(_) => 7,
            PieceType::Knight(_) => 8,
            _ => 0,
        },
        MoveFlag::Quiet => 0,
        MoveFlag::Capture => 1,
        MoveFlag::DoublePawnPush => 2,
        MoveFlag::EnPassant => 3,
        MoveFlag::Castling => 4,
    }
}

pub open spec fn flag_of_code(code: u16) -> MoveFlag {
    if code == 1 {
        MoveFlag::Capture
    } else if code == 2 {
        MoveFlag::DoublePawnPush
    } else if code == 3 {
        MoveFlag::EnPassant
    } else if code == 4 {
        MoveFlag::Castling
    } else if 5 <= code <= 8 {
        MoveFlag::Promotion
    } else {
        MoveFlag::Quiet
    }
}

pub open spec fn promotion_of_code(code: u16) -> PieceType {
    if code == 5 {
        PieceType::Queen(Queen)
    } else if code == 6 {
        PieceType::Rook(Rook)
    } else if code == 7 {
        PieceType::Bishop(Bishop)
    } else if code == 8 {
        PieceType::Knight(Knight)
    } else {
        PieceType::Empty
    }
}

proof fn lemma_unpack(x: u16, y: u16)
    by (bit_vector)
    requires
        x & 0x3Fu16 == y & 0x3Fu16,
        (x >> 6u16) & 0x3Fu16 == (y >> 6u16) & 0x3Fu16,
        x >> 12u16 == y >> 12u16,
    ensures
        x == y,
{
}

proof fn lemma_code_bound(x: u16)
    by (bit_vector)
    ensures
        (x >> 12u16) & 0x0Fu16 == x >> 12u16,
{
}

proof fn lemma_pack(f: u16, t: u16, c: u16)
    by (bit_vector)
    requires
        f < 64,
        t < 64,
        c < 16,
    ensures
        ((f | (t << 6u16) | (c << 12u16)) & 0x3Fu16) == f,
        ((f | (t << 6u16) | (c << 12u16)) >> 12u16) == c,
        (((f | (t << 6u16) | (c << 12u16)) >> 6u16) & 0x3Fu16) == t,
        (((f | (t << 6u16) | (c << 12u16)) >> 12u16) & 0x0Fu16) == c,
{
}

impl RegularMove {
    fn code(&self) -> (c: u16)
        ensures
            c == (self.0 >> 12u16) & 0x0Fu16,
    {
        (self.0 >> 12) & 0x0F
    }
}

impl MoveTrait for RegularMove {
    open spec fn spec_capacity() -> nat {
        64
    }

    open spec fn from_spec(&self) -> u8 {
        (self.0 & 0x3Fu16) as u8
    }

    open spec fn to_spec(&self) -> u8 {
        ((self.0 >> 6u16) & 0x3Fu16) as u8
    }

    open spec fn flag_spec(&self) -> MoveFlag {
        flag_of_code((self.0 >> 12u16) & 0x0Fu16)
    }

    open spec fn promotion_spec(&self) -> PieceType {
        promotion_of_code((self.0 >> 12u16) & 0x0Fu16)
    }

    open spec fn canonical(&self) -> bool {
        self.0 >> 12u16 <= 8
    }

    proof fn lemma_built(from: u8, to: u8, flag: MoveFlag, promotion: PieceType) {
        let f = from as u16;
        let t = to as u16;
        let c = kind_code(flag, promotion);
        if f < 64 && t < 64 {
            lemma_pack(f, t, c);
        }
    }

    proof fn lemma_canonical_unique(a: Self, b: Self) {
        lemma_code_bound(a.0);
        lemma_code_bound(b.0);
        let ca = a.0 >> 12u16;
        let cb = b.0 >> 12u16;
        assert(ca == cb) by {
            assert(flag_of_code(ca) == flag_of_code(cb));
            assert(promotion_of_code(ca) == promotion_of_code(cb));
        }
        let x = a.0;
        let y = b.0;
        assert(x & 0x3Fu16 == y & 0x3Fu16) by (bit_vector)
            requires
                (x & 0x3Fu16) as u8 == (y & 0x3Fu16) as u8,
        ;
        assert((x >> 6u16) & 0x3Fu16 == (y >> 6u16) & 0x3Fu16) by (bit_vector)
            requires
                ((x >> 6u16) & 0x3Fu16) as u8 == ((y >> 6u16) & 0x3Fu16) as u8,
        ;
        lemma_unpack(x, y);
    }

    /// The origin in bits 0-5 and the destination from bit 6 on, each as given, and the
    /// kind code from bit 12 on: a promotion without a piece to promote to is written as a
    /// quiet move, and any other move keeps no promotion piece.
    open spec fn built(from: u8, to: u8, flag: MoveFlag, promotion: PieceType) -> Self {
        RegularMove((from as u16) | ((to as u16) << 6u16) | (kind_code(flag, promotion) << 12u16))
    }

    fn new(from: u8, to: u8, flag: MoveFlag, promotion: PieceType) -> (r: Self)
        ensures
            (from as nat) < 64 && (to as nat) < 64 ==> r.flag_spec() == (if flag
                == MoveFlag::Promotion && !is_promotion_piece(promotion) {
                MoveFlag::Quiet
            } else {
                flag
            }),
            (from as nat) < 64 && (to as nat) < 64 ==> r.promotion_spec() == (if flag
                == MoveFlag::Promotion && is_promotion_piece(promotion) {
                promotion
            } else {
                PieceType::Empty
            }),
    {
        let encoded_flag_promo: u16 = match flag {
            MoveFlag::Promotion => match promotion {
                PieceType::Queen(_) => 5,
                PieceType::Rook(_) => 6,
                PieceType::Bishop(_) => 7,
                PieceType::Knight(_) => 8,
                _ => 0,
            },
            MoveFlag::Quiet => 0,
            MoveFlag::Capture => 1,
            MoveFlag::DoublePawnPush => 2,
            MoveFlag::EnPassant => 3,
            MoveFlag::Castling => 4,
        };
        let f = from as u16;
        let t = to as u16;
        assert(encoded_flag_promo == kind_code(flag, promotion));
        proof {
            if f < 64 && t < 64 {
                lemma_pack(f, t, encoded_flag_promo);
            }
        }
        let packed = f | (t << 6u16) | (encoded_flag_promo << 12u16);
        RegularMove(packed)
    }

    fn from(&self) -> (r: u8) {
        (self.0 & 0x3F) as u8
    }

    fn to(&self) -> (r: u8) {
        ((self.0 >> 6) & 0x3F) as u8
    }

    fn flag(&self) -> (r: MoveFlag) {
        let upper = self.code();
        if upper == 1 {
            MoveFlag::Capture
        } else if upper == 2 {
            MoveFlag::DoublePawnPush
        } else if upper == 3 {
            MoveFlag::EnPassant
        } else if upper == 4 {
            MoveFlag::Castling
        } else if 5 <= upper && upper <= 8 {
            MoveFlag::Promotion
        } else {
            MoveFlag::Quiet
        }
    }

    fn promotion(&self) -> (r: PieceType) {
        let upper = self.code();
        if upper == 5 {
            PieceType::Queen(Queen)
        } else if upper == 6 {
            PieceType::Rook(Rook)
        } else if upper == 7 {
            PieceType::Bishop(Bishop)
        } else if upper == 8 {
            PieceType::Knight(Knight)
        } else {
            PieceType::Empty
        }
    }
}

} // verus!
