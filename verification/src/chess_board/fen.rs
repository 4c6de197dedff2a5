use vstd::prelude::*;

use super::{
    castling_right_bits_spec, lemma_hash_castling_empty, position_hash, sq_bit, BoardModel,
    Chessboard, CurrentPlayer,
};
use crate::bishop::Bishop;
use crate::bitboard::{group_bits, has_bit, single};
use crate::board_config::{area, BoardConfig};
use crate::king::King;
use crate::knight::Knight;
use crate::pawn::Pawn;
use crate::piece::PieceType;
use crate::queen::Queen;
use crate::rook::Rook;
use crate::text::{
    chars_equal, chars_of, decimal, digit_run_end, is_digit, lemma_digit_run_end,
    lemma_run_end_exact, parse_bounded, parse_decimal, parse_nat, split_on, split_pieces,
    split_words, views, words,
};

verus! {

broadcast use group_bits;

/// Why a FEN text is refused.
#[derive(Clone, Copy, Debug, PartialEq, Eq, Structural)]
pub enum FenError {
    InvalidFen,
    IncorrectRankCount,
    RankTooWide,
    InvalidChar,
    RankWidth,
    InvalidColor,
    InvalidHalfmoveClock,
}

impl FenError {
    pub open spec fn text(self) -> Seq<char> {
        match self {
            FenError::InvalidFen => "Invalid FEN"@,
            FenError::IncorrectRankCount => "Incorrect number of ranks"@,
            FenError::RankTooWide => "Rank is too wide"@,
            FenError::InvalidChar => "Invalid char"@,
            FenError::RankWidth => "Rank has incorrect width"@,
            FenError::InvalidColor => "Invalid color"@,
            FenError::InvalidHalfmoveClock => "Invalid halfmove clock"@,
        }
    }

    /// The message of the error.
    pub fn message(&self) -> (r: String)
        ensures
            r@ == self.text(),
    {
        match self {
            FenError::InvalidFen => String::from_str("Invalid FEN"),
            FenError::IncorrectRankCount => String::from_str("Incorrect number of ranks"),
            FenError::RankTooWide => String::from_str("Rank is too wide"),
            FenError::InvalidChar => String::from_str("Invalid char"),
            FenError::RankWidth => String::from_str("Rank has incorrect width"),
            FenError::InvalidColor => String::from_str("Invalid color"),
            FenError::InvalidHalfmoveClock => String::from_str("Invalid halfmove clock"),
        }
    }
}

/// A letter that names a piece: `p`, `r`, `n`, `b`, `q`, `k`, in either case.
pub open spec fn is_piece_char(c: char) -> bool {
    c == 'p' || c == 'r' || c == 'n' || c == 'b' || c == 'q' || c == 'k' || c == 'P' || c == 'R'
        || c == 'N' || c == 'B' || c == 'Q' || c == 'K'
}

pub open spec fn is_upper(c: char) -> bool {
    'A' <= c && c <= 'Z'
}

/// The piece a letter names.
pub open spec fn piece_of_char(c: char) -> PieceType {
    if c == 'p' || c == 'P' {
        PieceType::Pawn(Pawn)
    } else if c == 'r' || c == 'R' {
        PieceType::Rook(Rook)
    } else if c == 'n' || c == 'N' {
        PieceType::Knight(Knight)
    } else if c == 'b' || c == 'B' {
        PieceType::Bishop(Bishop)
    } else if c == 'q' || c == 'Q' {
        PieceType::Queen(Queen)
    } else {
        PieceType::King(King)
    }
}

/// The pieces of one row of a FEN board, read from position `i` at column `file` with the
/// pieces `acc` already read: each digit run skips that many columns, each letter places a
/// piece, and the row must end exactly at the last column.
pub open spec fn scan_row<C: BoardConfig>(
    row: Seq<char>,
    i: int,
    file: int,
    acc: Seq<(int, char)>,
) -> Result<Seq<(int, char)>, FenError>
    decreases row.len() - i,
{
    if i < 0 || i >= row.len() {
        if file == C::spec_width() {
            Ok(acc)
        } else {
            Err(FenError::RankWidth)
        }
    } else if is_digit(row[i]) {
        let j = digit_run_end(row, i);
        proof {
            lemma_digit_run_end(row, i);
        }
        scan_row::<C>(row, j, file + decimal(row.subrange(i, j)), acc)
    } else if file >= C::spec_width() {
        Err(FenError::RankTooWide)
    } else if !is_piece_char(row[i]) {
        Err(FenError::InvalidChar)
    } else {
        scan_row::<C>(row, i + 1, file + 1, acc.push((file, row[i])))
    }
}

/// The pieces of row `r`, each with its square index in place of its column.
pub open spec fn offset_row<C: BoardConfig>(ps: Seq<(int, char)>, r: int) -> Seq<(int, char)> {
    ps.map_values(|p: (int, char)| (r * C::spec_width() + p.0, p.1))
}

/// The pieces of the rows from `r` on, each with its square index, after those in `acc`.
pub open spec fn scan_rows<C: BoardConfig>(rows: Seq<Seq<char>>, r: int, acc: Seq<(int, char)>) -> Result<
    Seq<(int, char)>,
    FenError,
>
    decreases rows.len() - r,
{
    if r < 0 || r >= rows.len() {
        Ok(acc)
    } else {
        match scan_row::<C>(rows[r], 0, 0, Seq::empty()) {
            Err(e) => Err(e),
            Ok(ps) => scan_rows::<C>(rows, r + 1, acc + offset_row::<C>(ps, r)),
        }
    }
}

/// The pieces placed on an empty board.
pub open spec fn placed_pieces<C: BoardConfig>(ps: Seq<(int, char)>) -> Seq<PieceType>
    decreases ps.len(),
{
    if ps.len() == 0 {
        Seq::new(area::<C>(), |i: int| PieceType::Empty)
    } else {
        placed_pieces::<C>(ps.drop_last()).update(ps.last().0, piece_of_char(ps.last().1))
    }
}

/// The squares of the placed pieces of one colour (upper case is white).
pub open spec fn placed_bits(ps: Seq<(int, char)>, white: bool) -> u128
    decreases ps.len(),
{
    if ps.len() == 0 {
        0
    } else if is_upper(ps.last().1) == white {
        placed_bits(ps.drop_last(), white) | single(ps.last().0 as nat)
    } else {
        placed_bits(ps.drop_last(), white)
    }
}

/// The castling rights a FEN castling field names, from position `i` on.
pub open spec fn castling_field<C: BoardConfig>(f: Seq<char>, i: int) -> u128
    decreases f.len() - i,
{
    if i < 0 || i >= f.len() {
        0
    } else {
        let bits = if f[i] == 'K' {
            castling_right_bits_spec::<C>(CurrentPlayer::White, true)
        } else if f[i] == 'Q' {
            castling_right_bits_spec::<C>(CurrentPlayer::White, false)
        } else if f[i] == 'k' {
            castling_right_bits_spec::<C>(CurrentPlayer::Black, true)
        } else if f[i] == 'q' {
            castling_right_bits_spec::<C>(CurrentPlayer::Black, false)
        } else {
            0
        };
        bits | castling_field::<C>(f, i + 1)
    }
}

/// The en-passant square a FEN field names: a file letter and a rank number on the board.
/// A field whose first character comes before `a` names none.
pub open spec fn en_passant_field<C: BoardConfig>(f: Seq<char>) -> Option<u8> {
    if f == "-"@ || f.len() == 0 {
        None
    } else {
        let file = (f[0] as u32) as int - 97;
        match parse_nat(f.drop_first()) {
            Some(rank) => if 0 <= file < C::spec_width() && 1 <= rank <= C::spec_height() {
                Some(((C::spec_height() - rank) * C::spec_width() + file) as u8)
            } else {
                None
            },
            None => None,
        }
    }
}

/// What a FEN text sets.
pub struct FenData {
    pub placements: Seq<(int, char)>,
    pub turn: CurrentPlayer,
    pub castling: u128,
    pub en_passant: Option<u8>,
    pub halfmove_clock: u8,
}

/// How a FEN text reads: its fields are the board, the side to move, the castling rights,
/// the en-passant square and the halfmove clock (the rest is ignored); the board has one
/// row per rank, top row first.
pub open spec fn fen_spec<C: BoardConfig>(s: Seq<char>) -> Result<FenData, FenError> {
    let fields = words(s);
    if fields.len() < 4 {
        Err(FenError::InvalidFen)
    } else {
        let rows = split_on(fields[0], '/');
        if rows.len() != C::spec_height() {
            Err(FenError::IncorrectRankCount)
        } else {
            match scan_rows::<C>(rows, 0, Seq::empty()) {
                Err(e) => Err(e),
                Ok(ps) => {
                    if fields[1] != "w"@ && fields[1] != "b"@ {
                        Err(FenError::InvalidColor)
                    } else {
                        let turn = if fields[1] == "w"@ {
                            CurrentPlayer::White
                        } else {
                            CurrentPlayer::Black
                        };
                        let castling = if fields[2] == "-"@ {
                            0
                        } else {
                            castling_field::<C>(fields[2], 0)
                        };
                        let ep = en_passant_field::<C>(fields[3]);
                        if fields.len() > 4 && parse_bounded(fields[4], 255) is None {
                            Err(FenError::InvalidHalfmoveClock)
                        } else {
                            let clock: u8 = if fields.len() > 4 {
                                parse_bounded(fields[4], 255)->Some_0 as u8
                            } else {
                                0
                            };
                            Ok(
                                FenData {
                                    placements: ps,
                                    turn,
                                    castling,
                                    en_passant: ep,
                                    halfmove_clock: clock,
                                },
                            )
                        }
                    }
                },
            }
        }
    }
}

/// The board a FEN text describes, with no history.
pub open spec fn fen_board<C: BoardConfig>(d: FenData) -> BoardModel<C> {
    let pieces = placed_pieces::<C>(d.placements);
    let white = placed_bits(d.placements, true);
    let black = placed_bits(d.placements, false);
    BoardModel {
        pieces,
        occupancy: white | black,
        white,
        black,
        castling: d.castling,
        en_passant: d.en_passant,
        halfmove_clock: d.halfmove_clock,
        turn: d.turn,
        zobrist: position_hash::<C>(pieces, white, black, d.castling, d.turn, d.en_passant),
        history: Seq::empty(),
    }
}

/// The pieces, colour boards and occupancy board of a board are those of the pieces
/// `ps` placed on an empty board, each on a square of its own below `bound`.
pub open spec fn holds_placed<C: BoardConfig>(b: BoardModel<C>, ps: Seq<(int, char)>, bound: int) -> bool {
    &&& b.pieces == placed_pieces::<C>(ps)
    &&& b.white == placed_bits(ps, true)
    &&& b.black == placed_bits(ps, false)
    &&& b.occupancy == b.white | b.black
    &&& b.pieces.len() == area::<C>()
    &&& bound <= area::<C>()
    &&& forall|i: nat|
        i < area::<C>() ==> (b.pieces[i as int] != PieceType::Empty) == (#[trigger] has_bit(
            b.white,
            i,
        ) || has_bit(b.black, i))
    &&& forall|i: nat| !(#[trigger] has_bit(b.white, i) && has_bit(b.black, i))
    &&& forall|i: nat| #[trigger] has_bit(b.occupancy, i) ==> i < bound
}

/// The smaller of two numbers.
pub open spec fn min_int(a: int, b: int) -> int {
    if a <= b {
        a
    } else {
        b
    }
}

/// Columns beyond this many are all the same to a row: the row is refused.
pub const FILE_CAP: usize = 1000;

fn piece_from_char(c: char) -> (r: PieceType)
    ensures
        r == piece_of_char(c),
{
    if c == 'p' || c == 'P' {
        PieceType::Pawn(Pawn)
    } else if c == 'r' || c == 'R' {
        PieceType::Rook(Rook)
    } else if c == 'n' || c == 'N' {
        PieceType::Knight(Knight)
    } else if c == 'b' || c == 'B' {
        PieceType::Bishop(Bishop)
    } else if c == 'q' || c == 'Q' {
        PieceType::Queen(Queen)
    } else {
        PieceType::King(King)
    }
}

impl<C: BoardConfig> Chessboard<C> {
    /// Places one piece of `c` on the empty square `index`.
    fn place_piece(&mut self, index: usize, c: char, Ghost(ps): Ghost<Seq<(int, char)>>, Ghost(bound): Ghost<int>)
        requires
            holds_placed::<C>(old(self)@, ps, bound),
            is_piece_char(c),
            bound <= index < area::<C>(),
        ensures
            holds_placed::<C>(final(self)@, ps.push((index as int, c)), index + 1),
            final(self)@.castling == old(self)@.castling,
            final(self)@.en_passant == old(self)@.en_passant,
            final(self)@.halfmove_clock == old(self)@.halfmove_clock,
            final(self)@.turn == old(self)@.turn,
            final(self)@.zobrist == old(self)@.zobrist,
            final(self)@.history == old(self)@.history,
    {
        proof {
            C::lemma_dims();
        }
        let ghost b = self@;
        let ghost nps = ps.push((index as int, c));
        assert(nps.drop_last() =~= ps);
        let bit = sq_bit(index);
        self.pieces.set(index, piece_from_char(c));
        self.occupancy_board = self.occupancy_board | bit;
        if 'A' <= c && c <= 'Z' {
            self.white_pieces_bitboard = self.white_pieces_bitboard | bit;
        } else {
            self.black_pieces_bitboard = self.black_pieces_bitboard | bit;
        }
        proof {
            assert(!has_bit(b.occupancy, index as nat));
            assert(self@.pieces =~= placed_pieces::<C>(nps));
            assert(self@.white == placed_bits(nps, true));
            assert(self@.black == placed_bits(nps, false));
            assert forall|i: nat| i < 128 implies has_bit(self@.occupancy, i) == has_bit(
                self@.white | self@.black,
                i,
            ) by {}
            crate::bitboard::lemma_bits_ext(self@.occupancy, self@.white | self@.black);
            assert forall|i: nat| #[trigger] has_bit(self@.occupancy, i) implies i < index + 1 by {
                if has_bit(b.occupancy, i) {
                }
            }
            assert forall|i: nat|
                i < area::<C>() implies (self@.pieces[i as int] != PieceType::Empty) == (
            #[trigger] has_bit(self@.white, i) || has_bit(self@.black, i)) by {
                if i != index {
                    assert(has_bit(b.occupancy, i) == (has_bit(b.white, i) || has_bit(b.black, i)));
                }
            }
            assert forall|i: nat| !(#[trigger] has_bit(self@.white, i) && has_bit(self@.black, i)) by {
                if i == index {
                    assert(!has_bit(b.white, i) && !has_bit(b.black, i));
                }
            }
        }
    }
}

/// A board that holds pieces below one bound holds them below a larger one.
proof fn lemma_holds_placed_weaken<C: BoardConfig>(b: BoardModel<C>, ps: Seq<(int, char)>, b1: int, b2: int)
    requires
        holds_placed::<C>(b, ps, b1),
        b1 <= b2 <= area::<C>(),
    ensures
        holds_placed::<C>(b, ps, b2),
{
}

proof fn lemma_min_step(x: int, d: int, cap: int)
    requires
        x >= 0,
        0 <= d <= 9,
        cap > 9,
    ensures
        min_int(min_int(x, cap) * 10 + d, cap) == min_int(x * 10 + d, cap),
{
    if x >= cap {
        assert(x * 10 + d >= cap) by (nonlinear_arith)
            requires
                x >= cap,
                cap > 0,
                d >= 0,
        ;
        assert(cap * 10 + d >= cap) by (nonlinear_arith)
            requires
                cap > 0,
                d >= 0,
        ;
    }
}

impl<C: BoardConfig> Chessboard<C> {
    /// Places the pieces of one FEN row, row number `rank`.
    fn place_row(&mut self, row: &Vec<char>, rank: usize, Ghost(ps): Ghost<Seq<(int, char)>>) -> (r:
        Result<(), FenError>)
        requires
            holds_placed::<C>(old(self)@, ps, rank * C::spec_width()),
            rank < C::spec_height(),
        ensures
            final(self)@.castling == old(self)@.castling,
            final(self)@.en_passant == old(self)@.en_passant,
            final(self)@.halfmove_clock == old(self)@.halfmove_clock,
            final(self)@.turn == old(self)@.turn,
            final(self)@.zobrist == old(self)@.zobrist,
            final(self)@.history == old(self)@.history,
            match scan_row::<C>(row@, 0, 0, Seq::empty()) {
                Err(e) => r == Err::<(), FenError>(e),
                Ok(rp) => r is Ok && holds_placed::<C>(
                    final(self)@,
                    ps + offset_row::<C>(rp, rank as int),
                    (rank + 1) * C::spec_width(),
                ),
            },
    {
        proof {
            C::lemma_dims();
            assert(rank * C::spec_width() + C::spec_width() <= C::spec_width() * C::spec_height())
                by (nonlinear_arith)
                requires
                    rank < C::spec_height(),
            ;
            assert((rank + 1) * C::spec_width() == rank * C::spec_width() + C::spec_width())
                by (nonlinear_arith);
        }
        let ghost b0 = self@;
        let w = C::width();
        let n = row.len();
        let mut i: usize = 0;
        let mut file: usize = 0;
        let ghost mut fs: int = 0;
        let ghost mut acc: Seq<(int, char)> = Seq::empty();
        let ghost base = rank * C::spec_width();
        assert(ps + offset_row::<C>(acc, rank as int) =~= ps);
        while i < n
            invariant
                i <= n,
                n == row@.len(),
                w as nat == C::spec_width(),
                8 <= w <= 26,
                rank < C::spec_height(),
                base == rank * C::spec_width(),
                base + C::spec_width() <= area::<C>(),
                area::<C>() <= 128,
                0 <= fs,
                file as int == min_int(fs, FILE_CAP as int),
                scan_row::<C>(row@, 0, 0, Seq::empty()) == scan_row::<C>(row@, i as int, fs, acc),
                holds_placed::<C>(self@, ps + offset_row::<C>(acc, rank as int), base + min_int(fs, w as int)),
                self@.castling == b0.castling,
                self@.en_passant == b0.en_passant,
                self@.halfmove_clock == b0.halfmove_clock,
                self@.turn == b0.turn,
                self@.zobrist == b0.zobrist,
                self@.history == b0.history,
                b0 == old(self)@,
            decreases n - i,
        {
            let c = row[i];
            if '0' <= c && c <= '9' {
                let mut j: usize = i;
                let mut count: usize = 0;
                while j < n && '0' <= row[j] && row[j] <= '9'
                    invariant
                        i <= j <= n,
                        n == row@.len(),
                        forall|k: int| i <= k < j ==> is_digit(#[trigger] row@[k]),
                        count as int == min_int(decimal(row@.subrange(i as int, j as int)) as int, FILE_CAP as int),
                    decreases n - j,
                {
                    let d = (row[j] as u32 - '0' as u32) as usize;
                    proof {
                        assert(row@.subrange(i as int, j + 1) =~= row@.subrange(i as int, j as int).push(row@[j as int]));
                        assert(row@.subrange(i as int, j + 1).drop_last() =~= row@.subrange(i as int, j as int));
                        lemma_min_step(decimal(row@.subrange(i as int, j as int)) as int, d as int, FILE_CAP as int);
                    }
                    let next = count * 10 + d;
                    count = if next > FILE_CAP { FILE_CAP } else { next };
                    j = j + 1;
                }
                proof {
                    lemma_run_end_exact(row@, i as int, j as int);
                    let v = decimal(row@.subrange(i as int, j as int)) as int;
                    lemma_holds_placed_weaken::<C>(
                        self@,
                        ps + offset_row::<C>(acc, rank as int),
                        base + min_int(fs, w as int),
                        base + min_int(fs + v, w as int),
                    );
                    fs = fs + v;
                }
                let sum = file + count;
                file = if sum > FILE_CAP { FILE_CAP } else { sum };
                i = j;
            } else {
                if file >= w {
                    return Err(FenError::RankTooWide);
                }
                let is_piece = c == 'p' || c == 'r' || c == 'n' || c == 'b' || c == 'q' || c == 'k' || c
                    == 'P' || c == 'R' || c == 'N' || c == 'B' || c == 'Q' || c == 'K';
                if !is_piece {
                    return Err(FenError::InvalidChar);
                }
                proof {
                    assert(rank * w == base) by (nonlinear_arith)
                        requires
                            w as nat == C::spec_width(),
                            base == rank * C::spec_width(),
                    ;
                }
                let index = rank * w + file;
                self.place_piece(index, c, Ghost(ps + offset_row::<C>(acc, rank as int)), Ghost(base + fs));
                proof {
                    let x = (fs, c);
                    assert(offset_row::<C>(acc.push(x), rank as int) =~= offset_row::<C>(acc, rank as int).push(
                        (base + fs, c),
                    ));
                    assert(ps + offset_row::<C>(acc.push(x), rank as int) =~= (ps + offset_row::<C>(
                        acc,
                        rank as int,
                    )).push((index as int, c)));
                    acc = acc.push(x);
                    fs = fs + 1;
                }
                file = file + 1;
                i = i + 1;
            }
        }
        if file != w {
            return Err(FenError::RankWidth);
        }
        Ok(())
    }
}

proof fn lemma_or_assoc(a: u128, b: u128, c: u128)
    ensures
        (a | b) | c == a | (b | c),
{
    assert forall|i: nat| i < 128 implies has_bit((a | b) | c, i) == has_bit(a | (b | c), i) by {}
    crate::bitboard::lemma_bits_ext((a | b) | c, a | (b | c));
}

/// The castling rights a FEN castling field names.
fn castling_from_field<C: BoardConfig>(f: &Vec<char>) -> (r: u128)
    ensures
        r == castling_field::<C>(f@, 0),
{
    let mut bits: u128 = 0;
    let mut i: usize = 0;
    proof {
        assert(0u128 | castling_field::<C>(f@, 0) == castling_field::<C>(f@, 0)) by {
            assert forall|k: nat| k < 128 implies has_bit(0u128 | castling_field::<C>(f@, 0), k)
                == has_bit(castling_field::<C>(f@, 0), k) by {}
            crate::bitboard::lemma_bits_ext(
                0u128 | castling_field::<C>(f@, 0),
                castling_field::<C>(f@, 0),
            );
        }
    }
    while i < f.len()
        invariant
            i <= f@.len(),
            castling_field::<C>(f@, 0) == bits | castling_field::<C>(f@, i as int),
        decreases f@.len() - i,
    {
        let c = f[i];
        let add = if c == 'K' {
            Chessboard::<C>::castling_right_bits(CurrentPlayer::White, true)
        } else if c == 'Q' {
            Chessboard::<C>::castling_right_bits(CurrentPlayer::White, false)
        } else if c == 'k' {
            Chessboard::<C>::castling_right_bits(CurrentPlayer::Black, true)
        } else if c == 'q' {
            Chessboard::<C>::castling_right_bits(CurrentPlayer::Black, false)
        } else {
            0
        };
        proof {
            lemma_or_assoc(bits, add, castling_field::<C>(f@, i + 1));
        }
        bits = bits | add;
        i = i + 1;
    }
    proof {
        assert(castling_field::<C>(f@, i as int) == 0);
        assert forall|k: nat| k < 128 implies has_bit(bits | 0u128, k) == has_bit(bits, k) by {}
        crate::bitboard::lemma_bits_ext(bits | 0u128, bits);
    }
    bits
}

/// The en-passant square a FEN field names.
fn en_passant_from_field<C: BoardConfig>(f: &Vec<char>) -> (r: Option<u8>)
    ensures
        r == en_passant_field::<C>(f@),
        r matches Some(e) ==> (e as nat) < area::<C>(),
{
    proof {
        C::lemma_dims();
    }
    if chars_equal(f, "-") || f.len() == 0 {
        return None;
    }
    let code = f[0] as u32;
    if code < 97 {
        return None;
    }
    let file = (code - 97) as usize;
    let mut rest: Vec<char> = Vec::new();
    let mut i: usize = 1;
    while i < f.len()
        invariant
            1 <= i <= f@.len(),
            rest@ == f@.subrange(1, i as int),
        decreases f@.len() - i,
    {
        rest.push(f[i]);
        i = i + 1;
        assert(rest@ =~= f@.subrange(1, i as int));
    }
    assert(rest@ =~= f@.drop_first());
    let h = C::height();
    let w = C::width();
    match parse_decimal(&rest, h as u64) {
        Some(rank) => {
            if file < w && rank >= 1 {
                let rank = rank as usize;
                proof {
                    assert((h - rank) * w + file < h * w) by (nonlinear_arith)
                        requires
                            1 <= rank <= h,
                            file < w,
                    ;
                }
                Some(((h - rank) * w + file) as u8)
            } else {
                None
            }
        },
        None => None,
    }
}

impl<C: BoardConfig> Chessboard<C> {
    /// Reads a board from FEN text (see `fen_spec`).
    fn read_fen(fen: &str) -> (r: Result<Chessboard<C>, FenError>)
        ensures
            match fen_spec::<C>(fen@) {
                Ok(d) => r matches Ok(b) && b@ == fen_board::<C>(d) && b@.valid(),
                Err(e) => r == Err::<Chessboard<C>, FenError>(e),
            },
    {
        proof {
            C::lemma_dims();
        }
        let chars = chars_of(fen);
        let fields = split_words(&chars);
        let ghost fv = views(fields@);
        if fields.len() < 4 {
            return Err(FenError::InvalidFen);
        }
        assert(fv[0] == fields@[0]@);
        let rows = split_pieces(&fields[0], '/');
        let ghost rv = views(rows@);
        if rows.len() != C::height() {
            return Err(FenError::IncorrectRankCount);
        }
        let mut board = Self::new();
        let mut r: usize = 0;
        let ghost mut placed: Seq<(int, char)> = Seq::empty();
        proof {
            assert(board@.pieces =~= placed_pieces::<C>(placed));
            assert(0u128 | 0u128 == 0u128) by (bit_vector);
        }
        while r < rows.len()
            invariant
                fv == words(fen@),
                fv.len() >= 4,
                rv == split_on(fv[0], '/'),
                r <= rows@.len(),
                rows@.len() == C::spec_height(),
                rv == views(rows@),
                area::<C>() <= 128,
                scan_rows::<C>(rv, 0, Seq::empty()) == scan_rows::<C>(rv, r as int, placed),
                holds_placed::<C>(board@, placed, r * C::spec_width()),
                board@.castling == 0,
                board@.en_passant == None::<u8>,
                board@.halfmove_clock == 0,
                board@.turn == CurrentPlayer::White,
                board@.history.len() == 0,
            decreases rows@.len() - r,
        {
            assert(rv[r as int] == rows@[r as int]@);
            match board.place_row(&rows[r], r, Ghost(placed)) {
                Err(e) => {
                    return Err(e);
                },
                Ok(()) => {},
            }
            proof {
                let rp = scan_row::<C>(rv[r as int], 0, 0, Seq::empty())->Ok_0;
                placed = placed + offset_row::<C>(rp, r as int);
            }
            r = r + 1;
        }
        assert(fv[1] == fields@[1]@);
        assert(fv[2] == fields@[2]@);
        assert(fv[3] == fields@[3]@);
        let turn = if chars_equal(&fields[1], "w") {
            CurrentPlayer::White
        } else if chars_equal(&fields[1], "b") {
            CurrentPlayer::Black
        } else {
            return Err(FenError::InvalidColor);
        };
        let castling = if chars_equal(&fields[2], "-") {
            0
        } else {
            castling_from_field::<C>(&fields[2])
        };
        let ep = en_passant_from_field::<C>(&fields[3]);
        let mut clock: u8 = 0;
        if fields.len() > 4 {
            assert(fv[4] == fields@[4]@);
            match parse_decimal(&fields[4], 255) {
                Some(v) => {
                    clock = v as u8;
                },
                None => {
                    return Err(FenError::InvalidHalfmoveClock);
                },
            }
        }
        board.turn = turn;
        board.castling_rights = castling;
        board.en_passant_square = ep;
        board.halfmove_clock = clock;
        board.zobrist = board.calculate_zobrist_hash();
        proof {
            reveal(BoardModel::history_ok);
            assert(board@.history =~= Seq::<super::MoveHistoryData<C>>::empty());
        }
        Ok(board)
    }

    /// Reads a board from FEN text: the rows of the board, top row first, then the side to
    /// move, the castling rights, the en-passant square and the halfmove clock.
    pub fn from_fen(fen: &str) -> (r: Result<Chessboard<C>, String>)
        ensures
            match fen_spec::<C>(fen@) {
                Ok(d) => r matches Ok(b) && b@ == fen_board::<C>(d) && b@.valid(),
                Err(e) => r matches Err(msg) && msg@ == e.text(),
            },
    {
        match Self::read_fen(fen) {
            Ok(b) => Ok(b),
            Err(e) => Err(e.message()),
        }
    }
}

/// The FEN text of the starting position of the 8x8 board and of the 10x12 board.
pub open spec fn start_fen<C: BoardConfig>() -> Seq<char> {
    if C::spec_width() == 8 && C::spec_height() == 8 {
        start_fen_8()
    } else {
        start_fen_10()
    }
}

/// The starting position of the 8x8 or the 10x12 board: the board its starting FEN
/// describes (which reads, see `lemma_start_fen_reads`).
pub open spec fn start_board<C: BoardConfig>() -> BoardModel<C> {
    fen_board::<C>(fen_spec::<C>(start_fen::<C>())->Ok_0)
}

pub open spec fn start_fen_8() -> Seq<char> {
    "rnbqkbnr/pppppppp/8/8/8/8/PPPPPPPP/RNBQKBNR w KQkq - 0 1"@
}

pub open spec fn start_fen_10() -> Seq<char> {
    "rnbqkbnbnr/pppppppppp/10/10/10/10/10/10/10/10/PPPPPPPPPP/RNBQKBNBNR w KQkq - 0 1"@
}

impl<C: BoardConfig> Chessboard<C> {
    /// The starting position of the 8x8 or the 10x12 board.
    pub fn regular_board() -> (r: Chessboard<C>)
        requires
            (C::spec_width() == 8 && C::spec_height() == 8) || (C::spec_width() == 10
                && C::spec_height() == 12),
        ensures
            r@.valid(),
            r@.history.len() == 0,
            r@ == start_board::<C>(),
    {
        proof {
            lemma_start_fen_reads::<C>();
        }
        let fen = if C::width() == 8 && C::height() == 8 {
            "rnbqkbnr/pppppppp/8/8/8/8/PPPPPPPP/RNBQKBNR w KQkq - 0 1"
        } else {
            "rnbqkbnbnr/pppppppppp/10/10/10/10/10/10/10/10/PPPPPPPPPP/RNBQKBNBNR w KQkq - 0 1"
        };
        match Self::read_fen(fen) {
            Ok(b) => b,
            Err(_) => Self::new(),
        }
    }
}

} // verus!

verus! {

/// Every character of `row` from position `i` on is a piece letter.
pub open spec fn letters_from(row: Seq<char>, i: int) -> bool
    decreases row.len() - i,
{
    i >= row.len() || (is_piece_char(row[i]) && letters_from(row, i + 1))
}

/// A row of piece letters from position `i` on, as many as the columns left, reads as
/// those pieces.
proof fn lemma_letter_row<C: BoardConfig>(row: Seq<char>, i: int, acc: Seq<(int, char)>)
    requires
        0 <= i <= row.len(),
        row.len() == C::spec_width(),
        letters_from(row, i),
    ensures
        scan_row::<C>(row, i, i, acc) is Ok,
    decreases row.len() - i,
{
    if i < row.len() {
        assert(is_piece_char(row[i]));
        lemma_letter_row::<C>(row, i + 1, acc.push((i, row[i])));
    }
}

/// A row written as the number of its columns reads as no piece.
proof fn lemma_number_row<C: BoardConfig>(row: Seq<char>)
    requires
        row.len() == 1 && row[0] == '8' && C::spec_width() == 8 || row.len() == 2 && row[0] == '1'
            && row[1] == '0' && C::spec_width() == 10,
    ensures
        scan_row::<C>(row, 0, 0, Seq::empty()) is Ok,
{
    reveal_with_fuel(scan_row, 2);
    reveal_with_fuel(crate::text::digit_run_end, 3);
    reveal_with_fuel(crate::text::decimal, 3);
    crate::text::lemma_digit_run_end(row, 0);
    assert(row.subrange(0, row.len() as int) =~= row);
    if row.len() == 1 {
        assert(row.drop_last() =~= Seq::<char>::empty());
    } else {
        assert(row.drop_last().len() == 1 && row.drop_last()[0] == '1');
        assert(row.drop_last().drop_last() =~= Seq::<char>::empty());
    }
}

/// Rows that each read on their own read together.
proof fn lemma_rows_read<C: BoardConfig>(rows: Seq<Seq<char>>, r: int, acc: Seq<(int, char)>)
    requires
        0 <= r,
        forall|k: int| r <= k < rows.len() ==> (#[trigger] scan_row::<C>(rows[k], 0, 0, Seq::empty())) is Ok,
    ensures
        scan_rows::<C>(rows, r, acc) is Ok,
    decreases rows.len() - r,
{
    if r < rows.len() {
        let ps = scan_row::<C>(rows[r], 0, 0, Seq::empty())->Ok_0;
        lemma_rows_read::<C>(rows, r + 1, acc + offset_row::<C>(ps, r));
    }
}

/// No white space stands in `s` from `i` up to `j`.
pub open spec fn no_ws_between(s: Seq<char>, i: int, j: int) -> bool
    decreases j - i,
{
    i >= j || (!crate::text::is_ws(s[i]) && no_ws_between(s, i + 1, j))
}

proof fn lemma_no_ws_between(s: Seq<char>, i: int, j: int)
    requires
        no_ws_between(s, i, j),
    ensures
        forall|k: int| i <= k < j ==> !crate::text::is_ws(#[trigger] s[k]),
    decreases j - i,
{
    if i < j {
        lemma_no_ws_between(s, i + 1, j);
    }
}

/// Reading a word across characters that are not white space extends the word.
proof fn lemma_words_run(s: Seq<char>, i: int, j: int, cur: Seq<char>, acc: Seq<Seq<char>>)
    requires
        0 <= i <= j <= s.len(),
        forall|k: int| i <= k < j ==> !crate::text::is_ws(#[trigger] s[k]),
    ensures
        crate::text::words_from(s, i, cur, acc) == crate::text::words_from(
            s,
            j,
            cur + s.subrange(i, j),
            acc,
        ),
    decreases j - i,
{
    if i < j {
        assert(!crate::text::is_ws(s[i]));
        lemma_words_run(s, i + 1, j, cur.push(s[i]), acc);
        assert(cur.push(s[i]) + s.subrange(i + 1, j) =~= cur + s.subrange(i, j));
    } else {
        assert(cur + s.subrange(i, j) =~= cur);
    }
}

/// The character `c` does not stand in `s` from `i` up to `j`.
pub open spec fn no_char_between(s: Seq<char>, c: char, i: int, j: int) -> bool
    decreases j - i,
{
    i >= j || (s[i] != c && no_char_between(s, c, i + 1, j))
}

proof fn lemma_no_char_between(s: Seq<char>, c: char, i: int, j: int)
    requires
        no_char_between(s, c, i, j),
    ensures
        forall|k: int| i <= k < j ==> #[trigger] s[k] != c,
    decreases j - i,
{
    if i < j {
        lemma_no_char_between(s, c, i + 1, j);
    }
}

/// Reading a piece across characters that are not the separator extends the piece.
proof fn lemma_pieces_run(
    s: Seq<char>,
    sep: char,
    i: int,
    j: int,
    cur: Seq<char>,
    acc: Seq<Seq<char>>,
)
    requires
        0 <= i <= j <= s.len(),
        forall|k: int| i <= k < j ==> #[trigger] s[k] != sep,
    ensures
        crate::text::pieces_from(s, sep, i, cur, acc) == crate::text::pieces_from(
            s,
            sep,
            j,
            cur + s.subrange(i, j),
            acc,
        ),
    decreases j - i,
{
    if i < j {
        assert(s[i] != sep);
        lemma_pieces_run(s, sep, i + 1, j, cur.push(s[i]), acc);
        assert(cur.push(s[i]) + s.subrange(i + 1, j) =~= cur + s.subrange(i, j));
    } else {
        assert(cur + s.subrange(i, j) =~= cur);
    }
}

/// The fields of the starting FEN of the 8x8 board; the first is its first 43
/// characters.
#[verifier::spinoff_prover]
proof fn lemma_start_fields_8()
    ensures
        words(start_fen_8()).len() == 6,
        words(start_fen_8())[0] == start_fen_8().subrange(0, 43),
        words(start_fen_8())[1] == "w"@,
        words(start_fen_8())[4] == seq!['0'],
{
    let s = start_fen_8();
    reveal_strlit("rnbqkbnr/pppppppp/8/8/8/8/PPPPPPPP/RNBQKBNR w KQkq - 0 1");
    reveal_strlit("w");
    assert(s.len() == 56);
    assert(no_ws_between(s, 0, 16)) by {
        reveal_with_fuel(no_ws_between, 17);
    }
    lemma_no_ws_between(s, 0, 16);
    assert(no_ws_between(s, 16, 32)) by {
        reveal_with_fuel(no_ws_between, 17);
    }
    lemma_no_ws_between(s, 16, 32);
    assert(no_ws_between(s, 32, 43)) by {
        reveal_with_fuel(no_ws_between, 12);
    }
    lemma_no_ws_between(s, 32, 43);
    lemma_words_run(s, 0, 43, Seq::empty(), Seq::empty());
    let b = Seq::<char>::empty() + s.subrange(0, 43);
    assert(b =~= s.subrange(0, 43));
    reveal_with_fuel(crate::text::words_from, 15);
    let f = words(s);
    assert(f.len() == 6);
    assert(f[0] == b);
    assert(f[1] =~= "w"@);
    assert(f[4] =~= seq!['0']);
}

/// The fields of the starting FEN of the 10x12 board; the first is its first 67
/// characters.
#[verifier::spinoff_prover]
proof fn lemma_start_fields_10()
    ensures
        words(start_fen_10()).len() == 6,
        words(start_fen_10())[0] == start_fen_10().subrange(0, 67),
        words(start_fen_10())[1] == "w"@,
        words(start_fen_10())[4] == seq!['0'],
{
    let s = start_fen_10();
    reveal_strlit("rnbqkbnbnr/pppppppppp/10/10/10/10/10/10/10/10/PPPPPPPPPP/RNBQKBNBNR w KQkq - 0 1");
    reveal_strlit("w");
    assert(s.len() == 80);
    assert(no_ws_between(s, 0, 16)) by {
        reveal_with_fuel(no_ws_between, 17);
    }
    lemma_no_ws_between(s, 0, 16);
    assert(no_ws_between(s, 16, 32)) by {
        reveal_with_fuel(no_ws_between, 17);
    }
    lemma_no_ws_between(s, 16, 32);
    assert(no_ws_between(s, 32, 48)) by {
        reveal_with_fuel(no_ws_between, 17);
    }
    lemma_no_ws_between(s, 32, 48);
    assert(no_ws_between(s, 48, 64)) by {
        reveal_with_fuel(no_ws_between, 17);
    }
    lemma_no_ws_between(s, 48, 64);
    assert(no_ws_between(s, 64, 67)) by {
        reveal_with_fuel(no_ws_between, 4);
    }
    lemma_no_ws_between(s, 64, 67);
    lemma_words_run(s, 0, 67, Seq::empty(), Seq::empty());
    let b = Seq::<char>::empty() + s.subrange(0, 67);
    assert(b =~= s.subrange(0, 67));
    reveal_with_fuel(crate::text::words_from, 15);
    let f = words(s);
    assert(f.len() == 6);
    assert(f[0] == b);
    assert(f[1] =~= "w"@);
    assert(f[4] =~= seq!['0']);
}

/// The rows of the starting position of the 8x8 board each read on their own.
#[verifier::spinoff_prover]
proof fn lemma_start_rows_8<C: BoardConfig>()
    requires
        C::spec_width() == 8,
    ensures
        split_on(start_fen_8().subrange(0, 43), '/').len() == 8,
        forall|k: int| 0 <= k < 8 ==> (#[trigger] scan_row::<C>(
            split_on(start_fen_8().subrange(0, 43), '/')[k],
            0,
            0,
            Seq::empty(),
        )) is Ok,
{
    reveal_strlit("rnbqkbnr/pppppppp/8/8/8/8/PPPPPPPP/RNBQKBNR w KQkq - 0 1");
    let t = start_fen_8().subrange(0, 43);
    assert(t.len() == 43);
    let acc0: Seq<Seq<char>> = Seq::empty();
    assert(no_char_between(t, '/', 0, 8)) by {
        reveal_with_fuel(no_char_between, 9);
    }
    lemma_no_char_between(t, '/', 0, 8);
    lemma_pieces_run(t, '/', 0, 8, Seq::empty(), acc0);
    let e0 = Seq::<char>::empty() + t.subrange(0, 8);
    let acc1 = acc0.push(e0);
    assert(crate::text::pieces_from(t, '/', 8, e0, acc0) == crate::text::pieces_from(t, '/', 9, Seq::empty(), acc1));
    assert(no_char_between(t, '/', 9, 17)) by {
        reveal_with_fuel(no_char_between, 9);
    }
    lemma_no_char_between(t, '/', 9, 17);
    lemma_pieces_run(t, '/', 9, 17, Seq::empty(), acc1);
    let e1 = Seq::<char>::empty() + t.subrange(9, 17);
    let acc2 = acc1.push(e1);
    assert(crate::text::pieces_from(t, '/', 17, e1, acc1) == crate::text::pieces_from(t, '/', 18, Seq::empty(), acc2));
    assert(no_char_between(t, '/', 18, 19)) by {
        reveal_with_fuel(no_char_between, 2);
    }
    lemma_no_char_between(t, '/', 18, 19);
    lemma_pieces_run(t, '/', 18, 19, Seq::empty(), acc2);
    let e2 = Seq::<char>::empty() + t.subrange(18, 19);
    let acc3 = acc2.push(e2);
    assert(crate::text::pieces_from(t, '/', 19, e2, acc2) == crate::text::pieces_from(t, '/', 20, Seq::empty(), acc3));
    assert(no_char_between(t, '/', 20, 21)) by {
        reveal_with_fuel(no_char_between, 2);
    }
    lemma_no_char_between(t, '/', 20, 21);
    lemma_pieces_run(t, '/', 20, 21, Seq::empty(), acc3);
    let e3 = Seq::<char>::empty() + t.subrange(20, 21);
    let acc4 = acc3.push(e3);
    assert(crate::text::pieces_from(t, '/', 21, e3, acc3) == crate::text::pieces_from(t, '/', 22, Seq::empty(), acc4));
    assert(no_char_between(t, '/', 22, 23)) by {
        reveal_with_fuel(no_char_between, 2);
    }
    lemma_no_char_between(t, '/', 22, 23);
    lemma_pieces_run(t, '/', 22, 23, Seq::empty(), acc4);
    let e4 = Seq::<char>::empty() + t.subrange(22, 23);
    let acc5 = acc4.push(e4);
    assert(crate::text::pieces_from(t, '/', 23, e4, acc4) == crate::text::pieces_from(t, '/', 24, Seq::empty(), acc5));
    assert(no_char_between(t, '/', 24, 25)) by {
        reveal_with_fuel(no_char_between, 2);
    }
    lemma_no_char_between(t, '/', 24, 25);
    lemma_pieces_run(t, '/', 24, 25, Seq::empty(), acc5);
    let e5 = Seq::<char>::empty() + t.subrange(24, 25);
    let acc6 = acc5.push(e5);
    assert(crate::text::pieces_from(t, '/', 25, e5, acc5) == crate::text::pieces_from(t, '/', 26, Seq::empty(), acc6));
    assert(no_char_between(t, '/', 26, 34)) by {
        reveal_with_fuel(no_char_between, 9);
    }
    lemma_no_char_between(t, '/', 26, 34);
    lemma_pieces_run(t, '/', 26, 34, Seq::empty(), acc6);
    let e6 = Seq::<char>::empty() + t.subrange(26, 34);
    let acc7 = acc6.push(e6);
    assert(crate::text::pieces_from(t, '/', 34, e6, acc6) == crate::text::pieces_from(t, '/', 35, Seq::empty(), acc7));
    assert(no_char_between(t, '/', 35, 43)) by {
        reveal_with_fuel(no_char_between, 9);
    }
    lemma_no_char_between(t, '/', 35, 43);
    lemma_pieces_run(t, '/', 35, 43, Seq::empty(), acc7);
    let e7 = Seq::<char>::empty() + t.subrange(35, 43);
    let acc8 = acc7.push(e7);
    assert(crate::text::pieces_from(t, '/', 43, e7, acc7) == acc8);
    let rows = split_on(t, '/');
    assert(rows == acc8);
    assert forall|k: int| 0 <= k < 8 implies (#[trigger] scan_row::<C>(rows[k], 0, 0, Seq::empty())) is Ok by {
        if k == 0 || k == 1 || k == 6 || k == 7 {
            assert(letters_from(rows[k], 0)) by {
                reveal_with_fuel(letters_from, 9);
            }
            lemma_letter_row::<C>(rows[k], 0, Seq::empty());
        } else {
            lemma_number_row::<C>(rows[k]);
        }
    }
}

/// The rows of the starting position of the 10x12 board each read on their own.
#[verifier::spinoff_prover]
proof fn lemma_start_rows_10<C: BoardConfig>()
    requires
        C::spec_width() == 10,
    ensures
        split_on(start_fen_10().subrange(0, 67), '/').len() == 12,
        forall|k: int| 0 <= k < 12 ==> (#[trigger] scan_row::<C>(
            split_on(start_fen_10().subrange(0, 67), '/')[k],
            0,
            0,
            Seq::empty(),
        )) is Ok,
{
    reveal_strlit("rnbqkbnbnr/pppppppppp/10/10/10/10/10/10/10/10/PPPPPPPPPP/RNBQKBNBNR w KQkq - 0 1");
    let t = start_fen_10().subrange(0, 67);
    assert(t.len() == 67);
    let acc0: Seq<Seq<char>> = Seq::empty();
    assert(no_char_between(t, '/', 0, 10)) by {
        reveal_with_fuel(no_char_between, 11);
    }
    lemma_no_char_between(t, '/', 0, 10);
    lemma_pieces_run(t, '/', 0, 10, Seq::empty(), acc0);
    let e0 = Seq::<char>::empty() + t.subrange(0, 10);
    let acc1 = acc0.push(e0);
    assert(crate::text::pieces_from(t, '/', 10, e0, acc0) == crate::text::pieces_from(t, '/', 11, Seq::empty(), acc1));
    assert(no_char_between(t, '/', 11, 21)) by {
        reveal_with_fuel(no_char_between, 11);
    }
    lemma_no_char_between(t, '/', 11, 21);
    lemma_pieces_run(t, '/', 11, 21, Seq::empty(), acc1);
    let e1 = Seq::<char>::empty() + t.subrange(11, 21);
    let acc2 = acc1.push(e1);
    assert(crate::text::pieces_from(t, '/', 21, e1, acc1) == crate::text::pieces_from(t, '/', 22, Seq::empty(), acc2));
    assert(no_char_between(t, '/', 22, 24)) by {
        reveal_with_fuel(no_char_between, 3);
    }
    lemma_no_char_between(t, '/', 22, 24);
    lemma_pieces_run(t, '/', 22, 24, Seq::empty(), acc2);
    let e2 = Seq::<char>::empty() + t.subrange(22, 24);
    let acc3 = acc2.push(e2);
    assert(crate::text::pieces_from(t, '/', 24, e2, acc2) == crate::text::pieces_from(t, '/', 25, Seq::empty(), acc3));
    assert(no_char_between(t, '/', 25, 27)) by {
        reveal_with_fuel(no_char_between, 3);
    }
    lemma_no_char_between(t, '/', 25, 27);
    lemma_pieces_run(t, '/', 25, 27, Seq::empty(), acc3);
    let e3 = Seq::<char>::empty() + t.subrange(25, 27);
    let acc4 = acc3.push(e3);
    assert(crate::text::pieces_from(t, '/', 27, e3, acc3) == crate::text::pieces_from(t, '/', 28, Seq::empty(), acc4));
    assert(no_char_between(t, '/', 28, 30)) by {
        reveal_with_fuel(no_char_between, 3);
    }
    lemma_no_char_between(t, '/', 28, 30);
    lemma_pieces_run(t, '/', 28, 30, Seq::empty(), acc4);
    let e4 = Seq::<char>::empty() + t.subrange(28, 30);
    let acc5 = acc4.push(e4);
    assert(crate::text::pieces_from(t, '/', 30, e4, acc4) == crate::text::pieces_from(t, '/', 31, Seq::empty(), acc5));
    assert(no_char_between(t, '/', 31, 33)) by {
        reveal_with_fuel(no_char_between, 3);
    }
    lemma_no_char_between(t, '/', 31, 33);
    lemma_pieces_run(t, '/', 31, 33, Seq::empty(), acc5);
    let e5 = Seq::<char>::empty() + t.subrange(31, 33);
    let acc6 = acc5.push(e5);
    assert(crate::text::pieces_from(t, '/', 33, e5, acc5) == crate::text::pieces_from(t, '/', 34, Seq::empty(), acc6));
    assert(no_char_between(t, '/', 34, 36)) by {
        reveal_with_fuel(no_char_between, 3);
    }
    lemma_no_char_between(t, '/', 34, 36);
    lemma_pieces_run(t, '/', 34, 36, Seq::empty(), acc6);
    let e6 = Seq::<char>::empty() + t.subrange(34, 36);
    let acc7 = acc6.push(e6);
    assert(crate::text::pieces_from(t, '/', 36, e6, acc6) == crate::text::pieces_from(t, '/', 37, Seq::empty(), acc7));
    assert(no_char_between(t, '/', 37, 39)) by {
        reveal_with_fuel(no_char_between, 3);
    }
    lemma_no_char_between(t, '/', 37, 39);
    lemma_pieces_run(t, '/', 37, 39, Seq::empty(), acc7);
    let e7 = Seq::<char>::empty() + t.subrange(37, 39);
    let acc8 = acc7.push(e7);
    assert(crate::text::pieces_from(t, '/', 39, e7, acc7) == crate::text::pieces_from(t, '/', 40, Seq::empty(), acc8));
    assert(no_char_between(t, '/', 40, 42)) by {
        reveal_with_fuel(no_char_between, 3);
    }
    lemma_no_char_between(t, '/', 40, 42);
    lemma_pieces_run(t, '/', 40, 42, Seq::empty(), acc8);
    let e8 = Seq::<char>::empty() + t.subrange(40, 42);
    let acc9 = acc8.push(e8);
    assert(crate::text::pieces_from(t, '/', 42, e8, acc8) == crate::text::pieces_from(t, '/', 43, Seq::empty(), acc9));
    assert(no_char_between(t, '/', 43, 45)) by {
        reveal_with_fuel(no_char_between, 3);
    }
    lemma_no_char_between(t, '/', 43, 45);
    lemma_pieces_run(t, '/', 43, 45, Seq::empty(), acc9);
    let e9 = Seq::<char>::empty() + t.subrange(43, 45);
    let acc10 = acc9.push(e9);
    assert(crate::text::pieces_from(t, '/', 45, e9, acc9) == crate::text::pieces_from(t, '/', 46, Seq::empty(), acc10));
    assert(no_char_between(t, '/', 46, 56)) by {
        reveal_with_fuel(no_char_between, 11);
    }
    lemma_no_char_between(t, '/', 46, 56);
    lemma_pieces_run(t, '/', 46, 56, Seq::empty(), acc10);
    let e10 = Seq::<char>::empty() + t.subrange(46, 56);
    let acc11 = acc10.push(e10);
    assert(crate::text::pieces_from(t, '/', 56, e10, acc10) == crate::text::pieces_from(t, '/', 57, Seq::empty(), acc11));
    assert(no_char_between(t, '/', 57, 67)) by {
        reveal_with_fuel(no_char_between, 11);
    }
    lemma_no_char_between(t, '/', 57, 67);
    lemma_pieces_run(t, '/', 57, 67, Seq::empty(), acc11);
    let e11 = Seq::<char>::empty() + t.subrange(57, 67);
    let acc12 = acc11.push(e11);
    assert(crate::text::pieces_from(t, '/', 67, e11, acc11) == acc12);
    let rows = split_on(t, '/');
    assert(rows == acc12);
    assert forall|k: int| 0 <= k < 12 implies (#[trigger] scan_row::<C>(rows[k], 0, 0, Seq::empty())) is Ok by {
        if k == 0 || k == 1 || k == 10 || k == 11 {
            assert(letters_from(rows[k], 0)) by {
                reveal_with_fuel(letters_from, 11);
            }
            lemma_letter_row::<C>(rows[k], 0, Seq::empty());
        } else {
            lemma_number_row::<C>(rows[k]);
        }
    }
}

/// The starting FEN of either board reads.
#[verifier::spinoff_prover]
pub proof fn lemma_start_fen_reads<C: BoardConfig>()
    requires
        (C::spec_width() == 8 && C::spec_height() == 8) || (C::spec_width() == 10
            && C::spec_height() == 12),
    ensures
        fen_spec::<C>(start_fen::<C>()) is Ok,
{
    let s = start_fen::<C>();
    let f = words(s);
    reveal_strlit("0");
    if C::spec_width() == 8 && C::spec_height() == 8 {
        lemma_start_fields_8();
        lemma_start_rows_8::<C>();
    } else {
        lemma_start_fields_10();
        lemma_start_rows_10::<C>();
    }
    let rows = split_on(f[0], '/');
    lemma_rows_read::<C>(rows, 0, Seq::empty());
    assert(seq!['0'].drop_last() =~= Seq::<char>::empty());
    reveal_with_fuel(crate::text::decimal, 2);
    assert(crate::text::decimal(seq!['0']) == 0);
    assert(crate::text::parse_nat(seq!['0']) == Some(0nat));
}

} // verus!

