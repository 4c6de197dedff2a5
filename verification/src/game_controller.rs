use vstd::prelude::*;

use crate::board_config::{area, BoardConfig};
use crate::chess_board::fen::{fen_board, fen_spec, start_board, FenError};
use crate::chess_board::movegen::{lemma_generated_applicable, lemma_same_move_same, same_squares_and_kind};
use crate::chess_board::{
    lemma_undo_applied, lists_exactly, same_move, BoardModel, Chessboard, CurrentPlayer,
    MoveLegality,
};
use crate::chess_move::{is_promotion_piece, promotion_consistent, MoveFlag, MoveTrait};
use crate::piece::PieceType;
use crate::chess_board::piece_at_spec;
use crate::notation::{
    ascii_upper, char_lowercase, destination, disambiguates,
    disambiguates_exec, is_lowercase, promotion_readable, san_destination, san_promotion,
    split_promotion,
    strip_marks, strip_marks_exec, to_ascii_upper, trim_chars, trim_ws, SanError,
};
use crate::piece::{notation_spec, Piece};
use crate::text::{chars_equal, chars_of, string_from_chars};
use crate::text::parse_decimal;
use crate::uci::{
    all_ascii, promotion_of, square_prefix, uci_move_spec, BoardChoice, Command, CommandModel, GoVariant, LimitsModel, PositionBoard,
    PromotionPiece, SearchLimits, UciMove,
};
use crate::text::{
    all_digits, decimal, digit_run_end, is_digit, lemma_run_end_exact, parse_bounded, parse_nat,
};

verus! {

/// The settings of a game played over UCI.
#[derive(Clone, Debug)]
pub struct GameSettings {
    pub evaluator_name: String,
    pub search_max_depth: u32,
}

impl Default for GameSettings {
    fn default() -> (r: GameSettings)
        ensures
            r.evaluator_name@ == "simple"@,
            r.search_max_depth == 5,
    {
        GameSettings { evaluator_name: String::from_str("simple"), search_max_depth: 5 }
    }
}

/// A game: a board and the moves played on it.
#[derive(Clone, Debug)]
pub struct GameController<C: BoardConfig> {
    chessboard: Chessboard<C>,
}

/// The letter of a file.
pub open spec fn file_letter(file: nat) -> char {
    (97 + file) as char
}

/// The decimal digits of `n`.
pub open spec fn decimal_chars(n: nat) -> Seq<char>
    decreases n,
{
    if n < 10 {
        seq![(48 + n) as char]
    } else {
        decimal_chars(n / 10).push((48 + n % 10) as char)
    }
}

/// A square in coordinate notation: its file letter and its rank number, rank 1 being the
/// bottom row.
pub open spec fn square_text<C: BoardConfig>(sq: nat) -> Seq<char> {
    seq![file_letter(sq % C::spec_width())] + decimal_chars(
        (C::spec_height() - sq / C::spec_width()) as nat,
    )
}

/// The promotion letter of a move in coordinate notation (none when it promotes to nothing).
pub open spec fn promotion_text(p: PieceType) -> Seq<char> {
    match p {
        PieceType::Queen(_) => seq!['q'],
        PieceType::Rook(_) => seq!['r'],
        PieceType::Bishop(_) => seq!['b'],
        PieceType::Knight(_) => seq!['n'],
        _ => Seq::empty(),
    }
}

/// A move in coordinate notation.
pub open spec fn move_text<C: BoardConfig>(m: C::MoveType) -> Seq<char> {
    square_text::<C>(m.from_spec() as nat) + square_text::<C>(m.to_spec() as nat) + promotion_text(
        m.promotion_spec(),
    )
}

/// The generator's move `g` is the move `u` of coordinate notation: same squares, and the
/// promotion piece named exactly when `g` promotes.
pub open spec fn uci_matches<C: BoardConfig>(g: C::MoveType, u: UciMove) -> bool {
    &&& g.from_spec() == u.from.0
    &&& g.to_spec() == u.to.0
    &&& if g.flag_spec() == MoveFlag::Promotion {
        match (u.promotion, g.promotion_spec()) {
            (Some(PromotionPiece::Queen), PieceType::Queen(_)) => true,
            (Some(PromotionPiece::Rook), PieceType::Rook(_)) => true,
            (Some(PromotionPiece::Bishop), PieceType::Bishop(_)) => true,
            (Some(PromotionPiece::Knight), PieceType::Knight(_)) => true,
            _ => false,
        }
    } else {
        u.promotion is None
    }
}

/// Appends the decimal digits of `n`.
pub fn push_decimal(v: &mut Vec<char>, n: usize)
    ensures
        final(v)@ == old(v)@ + decimal_chars(n as nat),
    decreases n,
{
    if n < 10 {
        v.push(((48 + n) as u8) as char);
        assert(((48 + n) as u8) as char == (48 + n) as char);
    } else {
        push_decimal(v, n / 10);
        v.push(((48 + n % 10) as u8) as char);
        assert(((48 + n % 10) as u8) as char == (48 + n % 10) as char);
    }
}

impl<C: BoardConfig> GameController<C> {
    pub closed spec fn board(&self) -> BoardModel<C> {
        self.chessboard@
    }

    /// A game from the starting position of the 8x8 or the 10x12 board.
    pub fn new() -> (r: GameController<C>)
        requires
            (C::spec_width() == 8 && C::spec_height() == 8) || (C::spec_width() == 10
                && C::spec_height() == 12),
        ensures
            r.board().valid(),
            r.board().history.len() == 0,
            r.board() == start_board::<C>(),
    {
        GameController { chessboard: Chessboard::regular_board() }
    }

    /// A game from a position in FEN text.
    pub fn from_fen(fen: &str) -> (r: Result<GameController<C>, String>)
        ensures
            match fen_spec::<C>(fen@) {
                Ok(d) => r matches Ok(g) && g.board() == fen_board::<C>(d) && g.board().valid(),
                Err(e) => r matches Err(msg) && msg@ == e.text(),
            },
    {
        match Chessboard::from_fen(fen) {
            Ok(b) => Ok(GameController { chessboard: b }),
            Err(e) => Err(e),
        }
    }

    /// The game with its board replaced.
    pub fn with_chessboard(self, board: Chessboard<C>) -> (r: GameController<C>)
        ensures
            r.board() == board@,
    {
        let mut s = self;
        s.chessboard = board;
        s
    }

    pub fn height() -> (r: usize)
        ensures
            r as nat == C::spec_height(),
    {
        C::height()
    }

    /// Plays `move_` when it is legal and says whether it was (see
    /// `Chessboard::apply_move_checked`, whose demands on a legal move it shares).
    pub fn move_piece(&mut self, move_: C::MoveType) -> (r: MoveLegality)
        requires
            old(self).board().valid(),
            old(self).board().has_king_of(old(self).board().turn),
            old(self).board().in_check(old(self).board().turn) ==> old(self).board().halfmove_clock
                < 255,
            old(self).board().legal(move_) && move_.flag_spec() == MoveFlag::Castling
                ==> old(self).board().rights_backed(move_.to_spec() > move_.from_spec()),
            old(self).board().legal(move_) && move_.flag_spec() == MoveFlag::Promotion
                ==> move_.promotion_spec() != PieceType::Empty,
        ensures
            r == (if old(self).board().legal(move_) {
                MoveLegality::Legal
            } else {
                MoveLegality::IllegalOther
            }),
            r == MoveLegality::Legal ==> final(self).board() == old(self).board().applied(move_),
            r != MoveLegality::Legal ==> final(self).board() == old(self).board(),
            final(self).board().valid(),
    {
        self.chessboard.apply_move_checked(move_)
    }

    /// Takes back the last move.
    pub fn undo(&mut self)
        requires
            old(self).board().valid(),
            old(self).board().history.len() > 0,
        ensures
            final(self).board() == old(self).board().undone(),
            final(self).board().valid(),
    {
        self.chessboard.undo_move();
    }

    /// A square in coordinate notation.
    fn square_to_uci(square: u8) -> (r: String)
        requires
            (square as nat) < area::<C>(),
        ensures
            r@ == square_text::<C>(square as nat),
    {
        proof {
            C::lemma_dims();
            assert((square as nat) / C::spec_width() < C::spec_height()) by (nonlinear_arith)
                requires
                    (square as nat) < C::spec_width() * C::spec_height(),
                    C::spec_width() > 0,
            ;
        }
        let w = C::width();
        let file = square as usize % w;
        let rank = C::height() - (square as usize / w);
        let mut v: Vec<char> = Vec::new();
        v.push(((97 + file) as u8) as char);
        assert(((97 + file) as u8) as char == file_letter(file as nat));
        push_decimal(&mut v, rank);
        assert(v@ =~= square_text::<C>(square as nat));
        string_from_chars(&v)
    }

    /// A move in coordinate notation: origin, destination and promotion letter.
    pub fn move_to_uci(move_: &C::MoveType) -> (r: String)
        requires
            (move_.from_spec() as nat) < area::<C>(),
            (move_.to_spec() as nat) < area::<C>(),
        ensures
            r@ == move_text::<C>(*move_),
    {
        let from = Self::square_to_uci(move_.from());
        let to = Self::square_to_uci(move_.to());
        let promotion = match move_.promotion() {
            PieceType::Queen(_) => "q",
            PieceType::Rook(_) => "r",
            PieceType::Bishop(_) => "b",
            PieceType::Knight(_) => "n",
            _ => "",
        };
        proof {
            reveal_strlit("q");
            reveal_strlit("r");
            reveal_strlit("b");
            reveal_strlit("n");
            reveal_strlit("");
        }
        let r = from.concat(to.as_str()).concat(promotion);
        assert(r@ =~= move_text::<C>(*move_));
        r
    }
}

impl<C: BoardConfig> GameController<C> {
    /// The generator's move written `uci` in coordinate notation, if the game goes on and
    /// there is one.
    pub fn move_from_uci(&mut self, uci: UciMove) -> (r: Option<C::MoveType>)
        requires
            old(self).board().valid(),
            old(self).board().has_king_of(old(self).board().turn),
            old(self).board().in_check(old(self).board().turn) ==> old(self).board().halfmove_clock
                < 255,
        ensures
            final(self).board() == old(self).board(),
            r matches Some(g) ==> old(self).board().outcome() is None && old(self).board().generated(g)
                && uci_matches::<C>(g, uci),
            r is None ==> !(old(self).board().outcome() is None && exists|g: C::MoveType|
                #[trigger] old(self).board().generated(g) && uci_matches::<C>(g, uci)),
    {
        let ghost b = self.board();
        let moves = match self.chessboard.generate_moves() {
            Ok(v) => v,
            Err(_) => {
                return None;
            },
        };
        let mut i: usize = 0;
        while i < moves.len()
            invariant
                i <= moves@.len(),
                self.board() == b,
                b.outcome() is None,
                b == old(self).board(),
                lists_exactly::<C>(moves@, |m: C::MoveType| b.generated(m)),
                forall|k: int| 0 <= k < i ==> !uci_matches::<C>(#[trigger] moves@[k], uci),
            decreases moves@.len() - i,
        {
            let m = moves[i];
            let promotion_ok = match m.flag() {
                MoveFlag::Promotion => match (uci.promotion, m.promotion()) {
                    (Some(PromotionPiece::Queen), PieceType::Queen(_)) => true,
                    (Some(PromotionPiece::Rook), PieceType::Rook(_)) => true,
                    (Some(PromotionPiece::Bishop), PieceType::Bishop(_)) => true,
                    (Some(PromotionPiece::Knight), PieceType::Knight(_)) => true,
                    _ => false,
                },
                _ => uci.promotion.is_none(),
            };
            if m.from() == uci.from.0 && m.to() == uci.to.0 && promotion_ok {
                proof {
                    let gp = |x: C::MoveType| b.generated(x);
                    assert(gp(moves@[i as int]));
                }
                return Some(m);
            }
            i = i + 1;
        }
        proof {
            if b.outcome() is None && exists|g: C::MoveType|
                #[trigger] b.generated(g) && uci_matches::<C>(g, uci) {
                let g = choose|g: C::MoveType| #[trigger] b.generated(g) && uci_matches::<C>(g, uci);
                let gp = |x: C::MoveType| b.generated(x);
                assert(gp(g));
                let k = choose|k: int| 0 <= k < moves@.len() && same_move::<C>(moves@[k], g);
                assert(uci_matches::<C>(moves@[k], uci));
            }
        }
        None
    }

    /// The generator's move written `input` in coordinate notation, if `input` reads as a
    /// move, the game goes on and there is one.
    pub fn from_uci(&mut self, input: &str) -> (r: Option<C::MoveType>)
        requires
            old(self).board().valid(),
            old(self).board().has_king_of(old(self).board().turn),
            old(self).board().in_check(old(self).board().turn) ==> old(self).board().halfmove_clock
                < 255,
        ensures
            final(self).board() == old(self).board(),
            match uci_move_spec::<C>(input@) {
                Err(_) => r is None,
                Ok(u) => {
                    &&& r matches Some(g) ==> old(self).board().outcome() is None && old(
                        self,
                    ).board().generated(g) && uci_matches::<C>(g, u)
                    &&& r is None ==> !(old(self).board().outcome() is None && exists|g: C::MoveType|
                        #[trigger] old(self).board().generated(g) && uci_matches::<C>(g, u))
                },
            },
    {
        match UciMove::parse_for::<C>(input) {
            Ok(u) => self.move_from_uci(u),
            Err(_) => None,
        }
    }

    /// A square index in coordinate notation: file letter, then the number of the row
    /// counted from the bottom.
    pub fn to_chess_notation(&self, pos: u16) -> (r: String)
        requires
            (pos as nat) / C::spec_width() <= C::spec_height(),
        ensures
            r@ == square_text::<C>(pos as nat),
    {
        proof {
            C::lemma_dims();
        }
        let w = C::width() as u16;
        let rank = pos / w;
        let file = pos % w;
        let mut v: Vec<char> = Vec::new();
        v.push(((97 + file) as u8) as char);
        assert(((97 + file) as u8) as char == file_letter(file as nat));
        push_decimal(&mut v, C::height() - rank as usize);
        assert(v@ =~= square_text::<C>(pos as nat));
        string_from_chars(&v)
    }

    /// The board.
    pub fn chessboard(&self) -> (r: &Chessboard<C>)
        ensures
            r@ == self.board(),
    {
        &self.chessboard
    }

    /// The board, to change it.
    pub fn chessboard_mut(&mut self) -> (r: &mut Chessboard<C>)
        ensures
            (*r)@ == old(self).board(),
            final(self).board() == (*final(r))@,
    {
        &mut self.chessboard
    }

    /// The side to move, by name.
    pub fn current_player(&self) -> (r: &'static str)
        ensures
            r@ == (if self.board().turn == CurrentPlayer::White {
                "White"@
            } else {
                "Black"@
            }),
    {
        match self.chessboard.current_player() {
            CurrentPlayer::White => "White",
            CurrentPlayer::Black => "Black",
        }
    }
}

/// Square `i` holds a piece of the side to move whose letter, in upper case, is `pc`.
pub open spec fn is_candidate<C: BoardConfig>(b: BoardModel<C>, i: nat, pc: char) -> bool {
    &&& i < area::<C>()
    &&& match piece_at_spec(b, i) {
        Piece::White(p) => b.turn == CurrentPlayer::White && ascii_upper(notation_spec(p)) == pc,
        Piece::Black(p) => b.turn == CurrentPlayer::Black && ascii_upper(notation_spec(p)) == pc,
        Piece::Empty => false,
    }
}

/// The game goes on and the generator lists a move from `c` to `d`.
pub open spec fn reaches<C: BoardConfig>(b: BoardModel<C>, c: nat, d: nat) -> bool {
    b.outcome() is None && exists|g: C::MoveType|
        #[trigger] b.generated(g) && g.from_spec() as nat == c && g.to_spec() as nat == d
}

/// The game goes on and the generator lists an en-passant capture from `c` to `d`.
pub open spec fn reaches_en_passant<C: BoardConfig>(b: BoardModel<C>, c: nat, d: nat) -> bool {
    b.outcome() is None && exists|g: C::MoveType|
        #[trigger] b.generated(g) && g.from_spec() as nat == c && g.to_spec() as nat == d
            && g.flag_spec() == MoveFlag::EnPassant
}

/// The candidates below `k` that reach `d`, in increasing order.
pub open spec fn sources<C: BoardConfig>(b: BoardModel<C>, pc: char, d: nat, k: nat) -> Seq<nat>
    decreases k,
{
    if k == 0 {
        Seq::empty()
    } else {
        let s = sources(b, pc, d, (k - 1) as nat);
        if is_candidate(b, (k - 1) as nat, pc) && reaches(b, (k - 1) as nat, d) {
            s.push((k - 1) as nat)
        } else {
            s
        }
    }
}

/// The squares of `v` that agree with the disambiguator `dis`.
pub open spec fn keep_agreeing<C: BoardConfig>(v: Seq<nat>, dis: char) -> Seq<nat>
    decreases v.len(),
{
    if v.len() == 0 {
        v
    } else {
        let s = keep_agreeing::<C>(v.drop_last(), dis);
        if disambiguates::<C>(v.last(), dis) {
            s.push(v.last())
        } else {
            s
        }
    }
}

/// Reading a move in algebraic notation: castling as `O-O` or `O-O-O`; otherwise an optional
/// piece letter (none for a pawn), an optional file or rank of the piece, the destination
/// square and an optional promotion, with `x`, `+` and `#` ignored. The move read is an
/// origin, a destination, a kind and a promotion piece.
pub open spec fn san_spec<C: BoardConfig>(b: BoardModel<C>, input: Seq<char>) -> Result<
    (nat, nat, MoveFlag, PieceType),
    SanError,
> {
    san_read(b, trim_ws(input))
}

/// Reading a move in algebraic notation without surrounding white space (see `san_spec`).
pub open spec fn san_read<C: BoardConfig>(b: BoardModel<C>, t: Seq<char>) -> Result<
    (nat, nat, MoveFlag, PieceType),
    SanError,
> {
    if t == "O-O"@ || t == "O-O-O"@ {
        castle_read(b, t == "O-O"@)
    } else {
        match san_promotion(t) {
            Err(e) => Err(e),
            Ok((promo, w)) => {
                let cl = strip_marks(w);
                match san_destination::<C>(cl) {
                    Err(e) => Err(e),
                    Ok((d, rs)) => source_read(b, t, promo, cl, d, rs),
                }
            },
        }
    }
}

/// Castling on the king's side (`O-O`) or the queen's side (`O-O-O`): the king's move of
/// two squares, when the generator lists a move between those squares.
pub open spec fn castle_read<C: BoardConfig>(b: BoardModel<C>, short: bool) -> Result<
    (nat, nat, MoveFlag, PieceType),
    SanError,
> {
    let offset: nat = if b.turn == CurrentPlayer::White {
        ((C::spec_height() - 1) * C::spec_width()) as nat
    } else {
        0
    };
    let from = offset + 4;
    let to: nat = if short {
        offset + 6
    } else {
        offset + 2
    };
    if reaches(b, from, to) {
        Ok((from, to, MoveFlag::Castling, PieceType::Empty))
    } else {
        Err(SanError::CastlingIllegal)
    }
}

/// The piece that makes the move: the one piece of the named kind that the generator
/// moves to `d` and that agrees with the disambiguator, if any; the kind of the move is a
/// promotion, an en-passant capture, a capture (an `x` in the text) or a quiet move.
pub open spec fn source_read<C: BoardConfig>(
    b: BoardModel<C>,
    t: Seq<char>,
    promo: PieceType,
    cl: Seq<char>,
    d: nat,
    rs: int,
) -> Result<(nat, nat, MoveFlag, PieceType), SanError> {
    source_for(b, t, promo, cl, d, rs, piece_letter(cl))
}

/// The letter of the piece that moves: `P` for a move that starts with a lower-case letter,
/// else its first letter in upper case.
pub open spec fn piece_letter(cl: Seq<char>) -> char {
    if char_lowercase(cl[0]) {
        'P'
    } else {
        ascii_upper(cl[0])
    }
}

/// The piece of letter `pc` that makes the move (see `source_read`).
pub open spec fn source_for<C: BoardConfig>(
    b: BoardModel<C>,
    t: Seq<char>,
    promo: PieceType,
    cl: Seq<char>,
    d: nat,
    rs: int,
    pc: char,
) -> Result<(nat, nat, MoveFlag, PieceType), SanError> {
    if !(exists|i: nat| is_candidate(b, i, pc)) {
        Err(SanError::NoPiece)
    } else {
        let valid = sources(b, pc, d, area::<C>());
        if valid.len() == 0 {
            Err(SanError::NoMove)
        } else {
            pick_source::<C>(
                valid,
                t,
                promo,
                cl,
                d,
                rs,
                pc,
                exists|k: int| 0 <= k < valid.len() && reaches_en_passant(b, #[trigger] valid[k], d),
            )
        }
    }
}

/// The one square of `valid` that agrees with the disambiguator, if any, and the kind of
/// the move: a promotion, an en-passant capture (`ep`), a capture (an `x` in the text) or a
/// quiet move.
pub open spec fn pick_source<C: BoardConfig>(
    valid: Seq<nat>,
    t: Seq<char>,
    promo: PieceType,
    cl: Seq<char>,
    d: nat,
    rs: int,
    pc: char,
    ep: bool,
) -> Result<(nat, nat, MoveFlag, PieceType), SanError> {
    let flag = if promo != PieceType::Empty {
        MoveFlag::Promotion
    } else if ep {
        MoveFlag::EnPassant
    } else if t.contains('x') {
        MoveFlag::Capture
    } else {
        MoveFlag::Quiet
    };
    let has_dis = if pc == 'P' {
        rs - 1 > 0
    } else {
        rs - 1 > 1
    };
    let dis = if pc == 'P' {
        cl[0]
    } else {
        cl[1]
    };
    let kept = if has_dis {
        keep_agreeing::<C>(valid, dis)
    } else {
        valid
    };
    if has_dis && kept.len() == 0 {
        Err(SanError::NoDisambiguated(dis))
    } else if kept.len() > 1 {
        Err(SanError::Ambiguous)
    } else {
        Ok((kept[0], d, flag, promo))
    }
}

/// The moves the generator gave: all of them while the game goes on, none once it is over.
pub open spec fn listed<C: BoardConfig>(b: BoardModel<C>, moves: Seq<C::MoveType>) -> bool {
    ||| b.outcome() is None && lists_exactly::<C>(moves, |m: C::MoveType| b.generated(m))
    ||| b.outcome() is Some && moves.len() == 0
}

/// Whether a listed move goes from `c` to `d`, and whether one of those is en passant.
fn reaches_exec<C: BoardConfig>(moves: &Vec<C::MoveType>, c: usize, d: usize, Ghost(b): Ghost<BoardModel<C>>) -> (r: (
    bool,
    bool,
))
    requires
        listed(b, moves@),
    ensures
        r.0 == reaches(b, c as nat, d as nat),
        r.1 == reaches_en_passant(b, c as nat, d as nat),
{
    let mut found = false;
    let mut ep = false;
    let mut i: usize = 0;
    while i < moves.len()
        invariant
            i <= moves@.len(),
            listed(b, moves@),
            found == exists|k: int|
                0 <= k < i && (#[trigger] moves@[k]).from_spec() as nat == c && moves@[k].to_spec() as nat
                    == d,
            ep == exists|k: int|
                0 <= k < i && (#[trigger] moves@[k]).from_spec() as nat == c && moves@[k].to_spec() as nat
                    == d && moves@[k].flag_spec() == MoveFlag::EnPassant,
        decreases moves@.len() - i,
    {
        let m = moves[i];
        if m.from() as usize == c && m.to() as usize == d {
            found = true;
            if m.flag() == MoveFlag::EnPassant {
                ep = true;
            }
        }
        i = i + 1;
    }
    proof {
        let gp = |x: C::MoveType| b.generated(x);
        if found {
            let k = choose|k: int|
                0 <= k < i && (#[trigger] moves@[k]).from_spec() as nat == c && moves@[k].to_spec() as nat
                    == d;
            assert(gp(moves@[k]));
        }
        if ep {
            let k = choose|k: int|
                0 <= k < i && (#[trigger] moves@[k]).from_spec() as nat == c && moves@[k].to_spec() as nat
                    == d && moves@[k].flag_spec() == MoveFlag::EnPassant;
            assert(gp(moves@[k]));
        }
        if reaches(b, c as nat, d as nat) {
            let g = choose|g: C::MoveType|
                #[trigger] b.generated(g) && g.from_spec() as nat == c && g.to_spec() as nat == d;
            assert(gp(g));
            let k = choose|k: int| 0 <= k < moves@.len() && same_move::<C>(moves@[k], g);
            assert(moves@[k].from_spec() as nat == c);
        }
        if reaches_en_passant(b, c as nat, d as nat) {
            let g = choose|g: C::MoveType|
                #[trigger] b.generated(g) && g.from_spec() as nat == c && g.to_spec() as nat == d
                    && g.flag_spec() == MoveFlag::EnPassant;
            assert(gp(g));
            let k = choose|k: int| 0 <= k < moves@.len() && same_move::<C>(moves@[k], g);
            assert(moves@[k].from_spec() as nat == c);
        }
    }
    (found, ep)
}

/// The squares kept are squares of the list, and no more of them than it has.
proof fn lemma_keep_agreeing_within<C: BoardConfig>(v: Seq<nat>, dis: char)
    ensures
        keep_agreeing::<C>(v, dis).len() <= v.len(),
        forall|k: int|
            0 <= k < keep_agreeing::<C>(v, dis).len() ==> exists|j: int|
                0 <= j < v.len() && v[j] == #[trigger] keep_agreeing::<C>(v, dis)[k],
    decreases v.len(),
{
    if v.len() > 0 {
        lemma_keep_agreeing_within::<C>(v.drop_last(), dis);
        let s = keep_agreeing::<C>(v.drop_last(), dis);
        assert forall|k: int|
            0 <= k < keep_agreeing::<C>(v, dis).len() implies exists|j: int|
                0 <= j < v.len() && v[j] == #[trigger] keep_agreeing::<C>(v, dis)[k] by {
            if k < s.len() {
                let j = choose|j: int| 0 <= j < v.drop_last().len() && v.drop_last()[j] == s[k];
                assert(v[j] == s[k]);
            } else {
                assert(v[v.len() - 1] == v.last());
            }
        }
    }
}

/// The squares of `v` as numbers.
pub open spec fn nats(v: Seq<usize>) -> Seq<nat> {
    v.map_values(|x: usize| x as nat)
}

/// The squares of `v` that agree with the disambiguator `dis`.
fn keep_agreeing_exec<C: BoardConfig>(v: &Vec<usize>, dis: char) -> (r: Vec<usize>)
    ensures
        nats(r@) == keep_agreeing::<C>(nats(v@), dis),
{
    let mut r: Vec<usize> = Vec::new();
    let mut i: usize = 0;
    assert(nats(v@).subrange(0, 0) =~= Seq::<nat>::empty());
    assert(nats(r@) =~= Seq::<nat>::empty());
    while i < v.len()
        invariant
            i <= v@.len(),
            nats(r@) == keep_agreeing::<C>(nats(v@).subrange(0, i as int), dis),
        decreases v@.len() - i,
    {
        let c = v[i];
        let ghost before = r@;
        assert(nats(v@).subrange(0, i + 1).drop_last() =~= nats(v@).subrange(0, i as int));
        assert(nats(v@).subrange(0, i + 1).last() == c as nat);
        if disambiguates_exec::<C>(c, dis) {
            r.push(c);
            assert(nats(r@) =~= nats(before).push(c as nat));
        }
        i = i + 1;
    }
    assert(nats(v@).subrange(0, i as int) =~= nats(v@));
    r
}

impl<C: BoardConfig> GameController<C> {
    /// Whether square `i` holds a piece of the side to move whose letter, in upper case, is
    /// `pc`.
    fn is_candidate_exec(&self, i: usize, pc: char) -> (r: bool)
        requires
            self.board().wf(),
            (i as nat) < area::<C>(),
        ensures
            r == is_candidate(self.board(), i as nat, pc),
    {
        let turn = self.chessboard.current_player();
        match self.chessboard.piece_at(i) {
            Piece::White(p) => turn == CurrentPlayer::White && to_ascii_upper(p.to_notation()) == pc,
            Piece::Black(p) => turn == CurrentPlayer::Black && to_ascii_upper(p.to_notation()) == pc,
            Piece::Empty => false,
        }
    }

    /// Whether some square holds a candidate, the candidates that reach `d` in increasing
    /// order, and whether one of those reaches it en passant.
    fn scan_sources(&self, moves: &Vec<C::MoveType>, pc: char, d: usize) -> (r: (bool, Vec<usize>, bool))
        requires
            self.board().wf(),
            listed(self.board(), moves@),
        ensures
            r.0 == exists|i: nat| is_candidate(self.board(), i, pc),
            nats(r.1@) == sources(self.board(), pc, d as nat, area::<C>()),
            forall|k: int| 0 <= k < r.1@.len() ==> (#[trigger] r.1@[k] as nat) < area::<C>(),
            r.2 == exists|k: int|
                0 <= k < r.1@.len() && reaches_en_passant(self.board(), #[trigger] nats(r.1@)[k], d as nat),
    {
        proof {
            C::lemma_dims();
        }
        let ghost b = self.board();
        let n = C::area();
        let mut any = false;
        let mut valid: Vec<usize> = Vec::new();
        let mut ep = false;
        let mut i: usize = 0;
        assert(nats(valid@) =~= Seq::<nat>::empty());
        while i < n
            invariant
                i <= n,
                n as nat == area::<C>(),
                b == self.board(),
                b.wf(),
                listed(b, moves@),
                any == exists|j: nat| j < i && is_candidate(b, j, pc),
                nats(valid@) == sources(b, pc, d as nat, i as nat),
                forall|k: int| 0 <= k < valid@.len() ==> (#[trigger] valid@[k] as nat) < i,
                ep == exists|k: int|
                    0 <= k < valid@.len() && reaches_en_passant(b, #[trigger] nats(valid@)[k], d as nat),
            decreases n - i,
        {
            let ghost before = valid@;
            if self.is_candidate_exec(i, pc) {
                any = true;
                let (reach, reach_ep) = reaches_exec::<C>(moves, i, d, Ghost(b));
                if reach {
                    valid.push(i);
                    assert(nats(valid@) =~= nats(before).push(i as nat));
                    if reach_ep {
                        ep = true;
                        assert(nats(valid@)[before.len() as int] == i as nat);
                    }
                    proof {
                        if ep && !reach_ep {
                            let k = choose|k: int|
                                0 <= k < before.len() && reaches_en_passant(
                                    b,
                                    #[trigger] nats(before)[k],
                                    d as nat,
                                );
                            assert(nats(valid@)[k] == nats(before)[k]);
                        }
                        if !ep {
                            assert forall|k: int| 0 <= k < valid@.len() implies !reaches_en_passant(
                                b,
                                #[trigger] nats(valid@)[k],
                                d as nat,
                            ) by {
                                if k < before.len() {
                                    assert(nats(valid@)[k] == nats(before)[k]);
                                }
                            }
                        }
                    }
                }
            }
            proof {
                if any {
                    if !is_candidate(b, i as nat, pc) {
                        let j = choose|j: nat| j < i && is_candidate(b, j, pc);
                        assert(j < i + 1 && is_candidate(b, j, pc));
                    } else {
                        assert((i as nat) < i + 1 && is_candidate(b, i as nat, pc));
                    }
                }
            }
            i = i + 1;
        }
        (any, valid, ep)
    }
}

/// The one square of `valid` that agrees with the disambiguator and the kind of the move
/// (see `pick_source`).
fn pick_source_exec<C: BoardConfig>(
    valid: &Vec<usize>,
    t: &Vec<char>,
    promo: PieceType,
    cl: &Vec<char>,
    d: usize,
    rs: usize,
    pc: char,
    is_ep: bool,
) -> (r: Result<C::MoveType, SanError>)
    requires
        (d as nat) < area::<C>(),
        1 <= rs < cl@.len(),
        valid@.len() > 0,
        forall|k: int| 0 <= k < valid@.len() ==> (#[trigger] valid@[k] as nat) < area::<C>(),
        promo == PieceType::Empty || crate::chess_move::is_promotion_piece(promo),
    ensures
        match pick_source::<C>(nats(valid@), t@, promo, cl@, d as nat, rs as int, pc, is_ep) {
            Ok((f, to, fl, p)) => r matches Ok(m) && m.from_spec() as nat == f && m.to_spec() as nat
                == to && m.flag_spec() == fl && m.promotion_spec() == p && m.canonical(),
            Err(e) => r == Err::<C::MoveType, SanError>(e),
        },
{
    proof {
        C::lemma_dims();
    }
    let mut has_x = false;
    let mut k: usize = 0;
    while k < t.len()
        invariant
            k <= t@.len(),
            has_x == exists|j: int| 0 <= j < k && t@[j] == 'x',
        decreases t@.len() - k,
    {
        if t[k] == 'x' {
            has_x = true;
        }
        k = k + 1;
    }
    assert(has_x == t@.contains('x'));
    let flag = if promo != PieceType::Empty {
        MoveFlag::Promotion
    } else if is_ep {
        MoveFlag::EnPassant
    } else if has_x {
        MoveFlag::Capture
    } else {
        MoveFlag::Quiet
    };
    let destination_start = rs - 1;
    let has_disambiguator = if pc == 'P' {
        destination_start > 0
    } else {
        destination_start > 1
    };
    let dis = if pc == 'P' {
        cl[0]
    } else {
        cl[1]
    };
    let kept = if has_disambiguator {
        let kept = keep_agreeing_exec::<C>(valid, dis);
        if kept.len() == 0 {
            return Err(SanError::NoDisambiguated(dis));
        }
        kept
    } else {
        let mut copy: Vec<usize> = Vec::new();
        copy.push(valid[0]);
        if valid.len() > 1 {
            return Err(SanError::Ambiguous);
        }
        assert(copy@ =~= valid@);
        copy
    };
    if kept.len() > 1 {
        return Err(SanError::Ambiguous);
    }
    proof {
        assert(nats(kept@)[0] == kept@[0] as nat);
        lemma_keep_agreeing_within::<C>(nats(valid@), dis);
        if has_disambiguator {
            let j = choose|j: int| 0 <= j < nats(valid@).len() && nats(valid@)[j] == #[trigger] keep_agreeing::<C>(nats(valid@), dis)[0];
            assert(nats(valid@)[j] == valid@[j] as nat);
        }
    }
    Ok(C::MoveType::new(kept[0] as u8, d as u8, flag, promo))
}

impl<C: BoardConfig> GameController<C> {
    /// The moves the generator gives: none once the game is over.
    fn listed_moves(&mut self) -> (r: Vec<C::MoveType>)
        requires
            old(self).board().valid(),
            old(self).board().has_king_of(old(self).board().turn),
            old(self).board().in_check(old(self).board().turn) ==> old(self).board().halfmove_clock
                < 255,
        ensures
            final(self).board() == old(self).board(),
            listed(old(self).board(), r@),
    {
        match self.chessboard.generate_moves() {
            Ok(v) => v,
            Err(_) => Vec::new(),
        }
    }

    /// Castling on the king's side or the queen's side (see `castle_read`).
    fn read_castle(&mut self, short: bool) -> (r: Result<C::MoveType, SanError>)
        requires
            old(self).board().valid(),
            old(self).board().has_king_of(old(self).board().turn),
            old(self).board().in_check(old(self).board().turn) ==> old(self).board().halfmove_clock
                < 255,
        ensures
            final(self).board() == old(self).board(),
            match castle_read(old(self).board(), short) {
                Ok((f, to, fl, p)) => r matches Ok(m) && m.from_spec() as nat == f && m.to_spec() as nat
                    == to && m.flag_spec() == fl && m.promotion_spec() == p && m.canonical(),
                Err(e) => r == Err::<C::MoveType, SanError>(e),
            },
    {
        proof {
            C::lemma_dims();
            assert((C::spec_height() - 1) * C::spec_width() + C::spec_width() == C::spec_height()
                * C::spec_width()) by (nonlinear_arith);
        }
        let ghost b = self.board();
        let w = C::width();
        let h = C::height();
        proof {
            assert((h - 1) * w + w <= 128 && (h - 1) * w + w == w * h) by (nonlinear_arith)
                requires
                    h as nat == C::spec_height(),
                    w as nat == C::spec_width(),
                    C::spec_width() * C::spec_height() <= 128,
                    h >= 3,
            ;
        }
        let offset = if self.chessboard.current_player() == CurrentPlayer::White {
            (h - 1) * w
        } else {
            0
        };
        let from = offset + 4;
        let to = if short {
            offset + 6
        } else {
            offset + 2
        };
        let castle = C::MoveType::new(from as u8, to as u8, MoveFlag::Castling, PieceType::Empty);
        let moves = self.listed_moves();
        let (found, _) = reaches_exec::<C>(&moves, from, to, Ghost(b));
        if found {
            Ok(castle)
        } else {
            Err(SanError::CastlingIllegal)
        }
    }

    /// The piece that makes the move and the kind of the move (see `source_read`).
    #[verifier::rlimit(100)]
    fn read_source(
        &mut self,
        t: &Vec<char>,
        promo: PieceType,
        cl: &Vec<char>,
        d: usize,
        rs: usize,
    ) -> (r: Result<C::MoveType, SanError>)
        requires
            old(self).board().valid(),
            old(self).board().has_king_of(old(self).board().turn),
            old(self).board().in_check(old(self).board().turn) ==> old(self).board().halfmove_clock
                < 255,
            (d as nat) < area::<C>(),
            1 <= rs < cl@.len(),
            promo == PieceType::Empty || crate::chess_move::is_promotion_piece(promo),
        ensures
            final(self).board() == old(self).board(),
            match source_read(old(self).board(), t@, promo, cl@, d as nat, rs as int) {
                Ok((f, to, fl, p)) => r matches Ok(m) && m.from_spec() as nat == f && m.to_spec() as nat
                    == to && m.flag_spec() == fl && m.promotion_spec() == p && m.canonical(),
                Err(e) => r == Err::<C::MoveType, SanError>(e),
            },
    {
        proof {
            C::lemma_dims();
        }
        let ghost b = self.board();
        let pc = if is_lowercase(cl[0]) {
            'P'
        } else {
            to_ascii_upper(cl[0])
        };
        let moves = self.listed_moves();
        let (any, valid, is_ep) = self.scan_sources(&moves, pc, d);
        assert(nats(valid@).len() == valid@.len());
        if !any {
            return Err(SanError::NoPiece);
        }
        if valid.len() == 0 {
            return Err(SanError::NoMove);
        }
        proof {
            let vs = sources(b, pc, d as nat, area::<C>());
            assert(vs == nats(valid@));
            assert(is_ep == exists|k: int| 0 <= k < vs.len() && reaches_en_passant(b, #[trigger] vs[k], d as nat));
        }
        pick_source_exec::<C>(&valid, t, promo, cl, d, rs, pc, is_ep)
    }

    /// Reads a move in algebraic notation without surrounding white space (see `san_read`).
    fn read_notation(&mut self, t: &Vec<char>) -> (r: Result<C::MoveType, SanError>)
        requires
            promotion_readable(t@),
            old(self).board().valid(),
            old(self).board().has_king_of(old(self).board().turn),
            old(self).board().in_check(old(self).board().turn) ==> old(self).board().halfmove_clock
                < 255,
        ensures
            final(self).board() == old(self).board(),
            match san_read(old(self).board(), t@) {
                Ok((f, to, fl, p)) => r matches Ok(m) && m.from_spec() as nat == f && m.to_spec() as nat
                    == to && m.flag_spec() == fl && m.promotion_spec() == p && m.canonical(),
                Err(e) => r == Err::<C::MoveType, SanError>(e),
            },
    {
        proof {
            C::lemma_dims();
        }
        let is_short = chars_equal(t, "O-O");
        let is_long = chars_equal(t, "O-O-O");
        if is_short || is_long {
            return self.read_castle(is_short);
        }
        let (promo, w) = match split_promotion(t) {
            Ok(x) => x,
            Err(e) => {
                return Err(e);
            },
        };
        let cl = strip_marks_exec(&w);
        let (d, rs) = match destination::<C>(&cl) {
            Ok(x) => x,
            Err(e) => {
                return Err(e);
            },
        };
        assert(san_destination::<C>(cl@) matches Ok((dd, rr)) && dd == d && rr == rs);
        self.read_source(t, promo, &cl, d, rs)
    }

    /// Reads a move in algebraic notation (see `san_spec`): the move read, or why it cannot
    /// be read.
    pub fn parse_chess_notation(&mut self, input: &str) -> (r: Result<C::MoveType, String>)
        requires
            old(self).board().valid(),
            old(self).board().has_king_of(old(self).board().turn),
            old(self).board().in_check(old(self).board().turn) ==> old(self).board().halfmove_clock
                < 255,
            promotion_readable(trim_ws(input@)),
        ensures
            final(self).board() == old(self).board(),
            match san_spec(old(self).board(), input@) {
                Ok((f, to, fl, p)) => r matches Ok(m) && m.from_spec() as nat == f && m.to_spec() as nat
                    == to && m.flag_spec() == fl && m.promotion_spec() == p && m.canonical(),
                Err(e) => r matches Err(msg) && msg@ == e.text(trim_ws(input@)),
            },
    {
        let chars = chars_of(input);
        let t = trim_chars(&chars);
        match self.read_notation(&t) {
            Ok(m) => Ok(m),
            Err(e) => Err(e.message(&t)),
        }
    }
}

/// The two characters that show a piece on a printed board: its letter twice, upper case
/// for white, two spaces for an empty square.
pub open spec fn piece_text(p: Piece) -> Seq<char> {
    match p {
        Piece::White(t) => seq![ascii_upper(notation_spec(t)), ascii_upper(notation_spec(t))],
        Piece::Black(t) => seq![notation_spec(t), notation_spec(t)],
        Piece::Empty => seq![' ', ' '],
    }
}

impl<C: BoardConfig> Chessboard<C> {
    /// A square as a file letter and the number of its row counted from the top, starting
    /// at 1.
    pub fn to_chess_notation(&self, pos: u8) -> (r: String)
        ensures
            r@ == seq![file_letter((pos as nat) % C::spec_width())] + decimal_chars(
                (pos as nat) / C::spec_width() + 1,
            ),
    {
        proof {
            C::lemma_dims();
        }
        let w = C::width();
        let file = pos as usize % w;
        let rank = pos as usize / w + 1;
        let mut v: Vec<char> = Vec::new();
        v.push(((97 + file) as u8) as char);
        push_decimal(&mut v, rank);
        string_from_chars(&v)
    }

    /// How a piece shows on a printed board (see `piece_text`).
    pub fn format_piece(piece: Piece) -> (r: String)
        ensures
            r@ == piece_text(piece),
    {
        let mut v: Vec<char> = Vec::new();
        match piece {
            Piece::White(t) => {
                let c = to_ascii_upper(t.to_notation());
                v.push(c);
                v.push(c);
            },
            Piece::Black(t) => {
                let c = t.to_notation();
                v.push(c);
                v.push(c);
            },
            Piece::Empty => {
                v.push(' ');
                v.push(' ');
            },
        }
        assert(v@ =~= piece_text(piece));
        string_from_chars(&v)
    }
}

/// Why the moves of a `position` command could not all be played.
#[derive(Clone, Copy, Debug, PartialEq, Eq, Structural)]
pub enum PlayError {
    /// No move of the game is written so, or the game is over.
    IllegalMove,
    /// The side to move has no king, so its moves cannot be generated.
    NoKing,
    /// The side to move is in check with the halfmove clock at its largest value.
    ClockFull,
    /// The move castles with a right whose king or rook is not on its square.
    RookMissing,
}

/// Playing the coordinate-notation moves `moves` from `b`, each as a move of the
/// generator that it writes, can lead to `e`.
pub open spec fn replays<C: BoardConfig>(b: BoardModel<C>, moves: Seq<UciMove>, e: BoardModel<C>) -> bool
    decreases moves.len(),
{
    if moves.len() == 0 {
        e == b
    } else {
        exists|g: C::MoveType|
            b.outcome() is None && #[trigger] b.generated(g) && uci_matches::<C>(g, moves[0])
                && replays(b.applied(g), moves.drop_first(), e)
    }
}

/// A generator move that the coordinate-notation move `u` writes, in a game that goes on.
pub open spec fn written<C: BoardConfig>(b: BoardModel<C>, g: C::MoveType, u: UciMove) -> bool {
    b.outcome() is None && b.generated(g) && uci_matches::<C>(g, u)
}

/// On board `b`, the move `u` cannot be played for the reason `err`.
pub open spec fn stops_at<C: BoardConfig>(b: BoardModel<C>, u: UciMove, err: PlayError) -> bool {
    match err {
        PlayError::NoKing => !b.has_king_of(b.turn),
        PlayError::ClockFull => b.has_king_of(b.turn) && b.in_check(b.turn) && b.halfmove_clock
            == 255,
        PlayError::IllegalMove => b.has_king_of(b.turn) && (b.in_check(b.turn) ==> b.halfmove_clock
            < 255) && !exists|g: C::MoveType| #[trigger] written(b, g, u),
        PlayError::RookMissing => exists|g: C::MoveType|
            #[trigger] written(b, g, u) && g.flag_spec() == MoveFlag::Castling && !b.rights_backed(
                g.to_spec() > g.from_spec(),
            ),
    }
}

/// One more move played at the end of a replay.
pub proof fn lemma_replays_push<C: BoardConfig>(
    b: BoardModel<C>,
    s: Seq<UciMove>,
    e: BoardModel<C>,
    g: C::MoveType,
    u: UciMove,
)
    requires
        replays(b, s, e),
        e.outcome() is None,
        e.generated(g),
        uci_matches::<C>(g, u),
    ensures
        replays(b, s.push(u), e.applied(g)),
    decreases s.len(),
{
    if s.len() == 0 {
        assert(s.push(u).drop_first() =~= Seq::<UciMove>::empty());
        assert(replays(e.applied(g), s.push(u).drop_first(), e.applied(g)));
        assert(s.push(u)[0] == u);
    } else {
        let g0 = choose|g0: C::MoveType|
            b.outcome() is None && #[trigger] b.generated(g0) && uci_matches::<C>(g0, s[0])
                && replays(b.applied(g0), s.drop_first(), e);
        lemma_replays_push(b.applied(g0), s.drop_first(), e, g, u);
        assert(s.push(u).drop_first() =~= s.drop_first().push(u));
        assert(s.push(u)[0] == s[0]);
    }
}

impl<C: BoardConfig> GameController<C> {
    /// Plays the moves of a `position` command in turn, each as the generator's move that it
    /// writes; stops at the first one that cannot be played.
    #[verifier::rlimit(40)]
    pub fn play_uci_moves(&mut self, moves: &Vec<UciMove>) -> (r: Result<(), PlayError>)
        requires
            old(self).board().valid(),
        ensures
            final(self).board().valid(),
            r is Ok ==> replays(old(self).board(), moves@, final(self).board()),
            r matches Err(err) ==> exists|k: int, bk: BoardModel<C>|
                0 <= k < moves@.len() && #[trigger] replays(old(self).board(), moves@.take(k), bk)
                    && stops_at(bk, moves@[k], err),
    {
        let ghost b0 = self.board();
        let mut i: usize = 0;
        proof {
            assert(moves@.take(0) =~= Seq::<UciMove>::empty());
        }
        while i < moves.len()
            invariant
                i <= moves@.len(),
                self.board().valid(),
                b0 == old(self).board(),
                replays(b0, moves@.take(i as int), self.board()),
            decreases moves@.len() - i,
        {
            let player = self.chessboard.current_player();
            if !self.chessboard.has_king(player) {
                proof {
                    assert(stops_at(self.board(), moves@[i as int], PlayError::NoKing));
                }
                return Err(PlayError::NoKing);
            }
            if self.chessboard.halfmove_clock() == 255 && self.chessboard.is_king_checked(player) {
                proof {
                    assert(stops_at(self.board(), moves@[i as int], PlayError::ClockFull));
                }
                return Err(PlayError::ClockFull);
            }
            let ghost b = self.board();
            let u = moves[i];
            match self.move_from_uci(u) {
                None => {
                    proof {
                        assert forall|g: C::MoveType| !written(b, g, u) by {}
                        assert(stops_at(b, moves@[i as int], PlayError::IllegalMove));
                    }
                    return Err(PlayError::IllegalMove);
                },
                Some(g) => {
                    if g.flag() == MoveFlag::Castling && !self.chessboard.castling_rights_backed(
                        g.to() > g.from(),
                    ) {
                        proof {
                            assert(written(b, g, u));
                            assert(stops_at(b, moves@[i as int], PlayError::RookMissing));
                        }
                        return Err(PlayError::RookMissing);
                    }
                    proof {
                        lemma_generated_applicable::<C>(b, g);
                        assert(b.legal(g));
                    }
                    let _ = self.move_piece(g);
                    proof {
                        lemma_replays_push::<C>(b0, moves@.take(i as int), b, g, u);
                        assert(moves@.take(i as int).push(u) =~= moves@.take(i as int + 1));
                    }
                },
            }
            i = i + 1;
        }
        proof {
            assert(moves@.take(i as int) =~= moves@);
        }
        Ok(())
    }
}

/// What the engine does in answer to a UCI command, once the game and the settings have
/// been brought up to date.
#[derive(Clone, Debug)]
pub enum UciAction {
    /// Name the engine and its options.
    Identify,
    /// Answer that the engine is ready.
    ReadyOk,
    /// Search the current position within these limits.
    Search(SearchLimits),
    /// Count the move paths of this many plies from the current position.
    Perft(u32),
    /// Print the inputs that the models read from the current position.
    PrintInputs,
    /// Wait for the running search, then load this evaluator when one is named.
    ChangeEvaluator(Option<String>),
    /// Stop the running search.
    StopSearch,
    Quit,
    /// Report this error and go on.
    Report(String),
    /// Stop the engine with this message: the command cannot be carried out.
    Fail(String),
    Nothing,
}

/// A board that the board of a `position` command starts from.
pub open spec fn starts_from<C: BoardConfig>(choice: BoardChoice, s: BoardModel<C>) -> bool {
    match choice {
        BoardChoice::StartPos => s.valid() && s == start_board::<C>(),
        BoardChoice::Fen(f) => fen_spec::<C>(f) matches Ok(d) && s == fen_board::<C>(d) && s.valid(),
    }
}

/// The moves of a `position` command stop, from its start, for the reason `err`.
pub open spec fn position_stops<C: BoardConfig>(
    choice: BoardChoice,
    moves: Seq<UciMove>,
    err: PlayError,
) -> bool {
    exists|s: BoardModel<C>, k: int, bk: BoardModel<C>|
        starts_from::<C>(choice, s) && 0 <= k < moves.len() && #[trigger] replays(s, moves.take(k), bk)
            && stops_at(bk, moves[k], err)
}

/// The board of a `position` command is a FEN text that is refused.
pub open spec fn fen_refused<C: BoardConfig>(choice: BoardChoice) -> bool {
    match choice {
        BoardChoice::Fen(f) => fen_spec::<C>(f) is Err,
        BoardChoice::StartPos => false,
    }
}

/// The depth of the `Depth` option written `v`, when it is a number from 1 to 40.
pub open spec fn depth_option(v: Seq<char>) -> Option<u32> {
    match parse_bounded(v, u32::MAX as nat) {
        Some(d) => if 1 <= d <= 40 {
            Some(d as u32)
        } else {
            None
        },
        None => None,
    }
}

/// `r` reports the error `text`.
pub open spec fn reports(r: UciAction, text: Seq<char>) -> bool {
    r matches UciAction::Report(m) && m@ == text
}

/// `r` stops the engine with the message `text`.
pub open spec fn fails_with(r: UciAction, text: Seq<char>) -> bool {
    r matches UciAction::Fail(m) && m@ == text
}

/// `r` asks for the evaluator named by `value`, or for none when there is no value.
pub open spec fn changes_evaluator(r: UciAction, value: Option<Seq<char>>) -> bool {
    match r {
        UciAction::ChangeEvaluator(o) => match (o, value) {
            (Some(a), Some(b)) => a@ == b,
            (None, None) => true,
            _ => false,
        },
        _ => false,
    }
}

/// `r` starts a search within the limits `l`.
pub open spec fn searches(r: UciAction, l: LimitsModel) -> bool {
    r matches UciAction::Search(l2) && l2@ == l
}

impl<C: BoardConfig> GameController<C> {
    /// Carries out a UCI command on the game and the settings, and says what is left for
    /// the engine to do.
    pub fn handle_command(&mut self, settings: &mut GameSettings, command: Command) -> (r: UciAction)
        requires
            (C::spec_width() == 8 && C::spec_height() == 8) || (C::spec_width() == 10
                && C::spec_height() == 12),
            old(self).board().valid(),
        ensures
            final(self).board().valid(),
            match command@ {
                CommandModel::Uci => r is Identify && final(self).board() == old(self).board()
                    && *final(settings) == *old(settings),
                CommandModel::IsReady => r is ReadyOk && final(self).board() == old(self).board()
                    && *final(settings) == *old(settings),
                CommandModel::UciNewGame => r is Nothing && *final(settings) == *old(settings)
                    && starts_from::<C>(BoardChoice::StartPos, final(self).board())
                    && final(self).board().history.len() == 0,
                CommandModel::Position(p) => *final(settings) == *old(settings) && match r {
                    UciAction::Nothing => exists|s: BoardModel<C>|
                        starts_from::<C>(p.board, s) && #[trigger] replays(
                            s,
                            p.moves,
                            final(self).board(),
                        ),
                    UciAction::Report(m) => final(self).board() == old(self).board() && (
                    (m@ == "UCI position error: invalid FEN"@ && fen_refused::<C>(p.board)) || (m@
                        == "UCI position error: illegal move"@ && (position_stops::<C>(
                        p.board,
                        p.moves,
                        PlayError::IllegalMove,
                    ) || position_stops::<C>(p.board, p.moves, PlayError::RookMissing)))),
                    UciAction::Fail(m) => (m@ == "No king of color on the board"@
                        && position_stops::<C>(p.board, p.moves, PlayError::NoKing)) || (m@
                        == "attempt to add with overflow"@ && position_stops::<C>(
                        p.board,
                        p.moves,
                        PlayError::ClockFull,
                    )),
                    _ => false,
                },
                CommandModel::Go(l) => final(self).board() == old(self).board() && *final(settings)
                    == *old(settings) && if l.go_variant == GoVariant::Weights {
                    r is PrintInputs
                } else if l.go_variant == GoVariant::Perft {
                    match l.depth {
                        Some(d) => r matches UciAction::Perft(x) && x == d,
                        None => reports(r, "UCI perft error: provide a depth (go perft depth N)"@),
                    }
                } else {
                    searches(
                        r,
                        (LimitsModel {
                            depth: Some(
                                match l.depth {
                                    Some(d) => d,
                                    None => old(settings).search_max_depth,
                                },
                            ),
                            ..l
                        }),
                    )
                },
                CommandModel::SetOption { name, value } => final(self).board() == old(self).board()
                    && if name == "Depth"@ {
                    match value {
                        Some(v) => match depth_option(v) {
                            Some(d) => r is Nothing && final(settings).search_max_depth == d
                                && final(settings).evaluator_name == old(settings).evaluator_name,
                            None => reports(r, "UCI option error: Depth must be between 1 and 40"@)
                                && *final(settings) == *old(settings),
                        },
                        None => r is Nothing && *final(settings) == *old(settings),
                    }
                } else if name == "Evaluator"@ {
                    *final(settings) == *old(settings) && changes_evaluator(r, value)
                } else {
                    r is Nothing && *final(settings) == *old(settings)
                },
                CommandModel::Stop => r is StopSearch && final(self).board() == old(self).board()
                    && *final(settings) == *old(settings),
                CommandModel::Quit => r is Quit && final(self).board() == old(self).board()
                    && *final(settings) == *old(settings),
                _ => r is Nothing && final(self).board() == old(self).board() && *final(settings)
                    == *old(settings),
            },
    {
        match command {
            Command::Uci => UciAction::Identify,
            Command::IsReady => UciAction::ReadyOk,
            Command::UciNewGame => {
                *self = GameController::new();
                UciAction::Nothing
            },
            Command::Position(position) => {
                let ghost pm = position@;
                let start = match position.board {
                    PositionBoard::StartPos => GameController::new(),
                    PositionBoard::Fen(fen) => match GameController::from_fen(fen.as_str()) {
                        Ok(g) => g,
                        Err(_) => {
                            return UciAction::Report(
                                String::from_str("UCI position error: invalid FEN"),
                            );
                        },
                    },
                };
                let ghost s = start.board();
                let mut next = start;
                proof {
                    assert(starts_from::<C>(pm.board, s));
                }
                match next.play_uci_moves(&position.moves) {
                    Ok(()) => {
                        let ghost e = next.board();
                        proof {
                            assert(replays(s, pm.moves, e));
                        }
                        *self = next;
                        proof {
                            assert(self.board() == e);
                            assert(starts_from::<C>(pm.board, s) && replays(s, pm.moves, self.board()));
                        }
                        UciAction::Nothing
                    },
                    Err(PlayError::NoKing) => UciAction::Fail(
                        String::from_str("No king of color on the board"),
                    ),
                    Err(PlayError::ClockFull) => UciAction::Fail(
                        String::from_str("attempt to add with overflow"),
                    ),
                    Err(_) => UciAction::Report(String::from_str("UCI position error: illegal move")),
                }
            },
            Command::Go(limits) => {
                if limits.go_variant == GoVariant::Weights {
                    UciAction::PrintInputs
                } else if limits.go_variant == GoVariant::Perft {
                    match limits.depth {
                        Some(d) => UciAction::Perft(d),
                        None => UciAction::Report(
                            String::from_str("UCI perft error: provide a depth (go perft depth N)"),
                        ),
                    }
                } else {
                    let depth = match limits.depth {
                        Some(d) => d,
                        None => settings.search_max_depth,
                    };
                    let mut l = limits;
                    l.depth = Some(depth);
                    UciAction::Search(l)
                }
            },
            Command::SetOption { name, value } => {
                let name_chars = chars_of(name.as_str());
                if chars_equal(&name_chars, "Depth") {
                    match value {
                        Some(v) => {
                            let digits = chars_of(v.as_str());
                            let depth = match parse_decimal(&digits, 4294967295u64) {
                                Some(d) => if 1 <= d && d <= 40 {
                                    Some(d as u32)
                                } else {
                                    None
                                },
                                None => None,
                            };
                            proof {
                                assert(digits@ == v@);
                                assert(depth == depth_option(v@));
                            }
                            match depth {
                                Some(d) => {
                                    settings.search_max_depth = d;
                                    UciAction::Nothing
                                },
                                None => UciAction::Report(
                                    String::from_str("UCI option error: Depth must be between 1 and 40"),
                                ),
                            }
                        },
                        None => UciAction::Nothing,
                    }
                } else if chars_equal(&name_chars, "Evaluator") {
                    UciAction::ChangeEvaluator(value)
                } else {
                    UciAction::Nothing
                }
            },
            Command::Stop => UciAction::StopSearch,
            Command::Quit => UciAction::Quit,
            _ => UciAction::Nothing,
        }
    }
}

/// The decimal digits of a number are digits, at least one, and read back as the number.
pub proof fn lemma_decimal_chars(n: nat)
    ensures
        decimal_chars(n).len() >= 1,
        all_digits(decimal_chars(n)),
        decimal(decimal_chars(n)) == n,
        forall|i: int| 0 <= i < decimal_chars(n).len() ==> (#[trigger] decimal_chars(n)[i] as u32) < 128,
    decreases n,
{
    if n >= 10 {
        lemma_decimal_chars(n / 10);
        let t = decimal_chars(n / 10);
        let c = (48 + n % 10) as char;
        assert(decimal_chars(n) == t.push(c));
        assert(t.push(c).drop_last() =~= t);
        assert(forall|i: int| 0 <= i < t.len() ==> t.push(c)[i] == t[i]);
        assert(c as int == 48 + n % 10);
        assert(crate::text::digit_value(c) == n % 10);
        assert((n / 10) * 10 + n % 10 == n) by (nonlinear_arith);
        crate::text::lemma_decimal_push(t, c);
    } else {
        let c = (48 + n) as char;
        assert(decimal_chars(n) == seq![c]);
        assert(seq![c].drop_last() =~= Seq::<char>::empty());
        assert(c as int == 48 + n);
        assert(crate::text::digit_value(c) == n);
        crate::text::lemma_decimal_push(Seq::<char>::empty(), c);
        assert(Seq::<char>::empty().push(c) =~= seq![c]);
    }
}

/// A square written in coordinate notation, followed by the end of the text or by a
/// character that is not a digit, reads back as the square.
pub proof fn lemma_square_text_reads<C: BoardConfig>(s: Seq<char>, start: int, sq: nat)
    requires
        sq < area::<C>(),
        0 <= start,
        start + square_text::<C>(sq).len() <= s.len(),
        s.subrange(start, start + square_text::<C>(sq).len()) == square_text::<C>(sq),
        start + square_text::<C>(sq).len() == s.len() || !is_digit(
            s[start + square_text::<C>(sq).len()],
        ),
    ensures
        square_prefix::<C>(s, start) == Some((sq as u8, square_text::<C>(sq).len() as int)),
{
    C::lemma_dims();
    let w = C::spec_width();
    let h = C::spec_height();
    let t = square_text::<C>(sq);
    let rank = (h - sq / w) as nat;
    let digits = decimal_chars(rank);
    lemma_decimal_chars(rank);
    crate::board_config::lemma_square_coords::<C>(sq);
    assert(t == seq![file_letter(sq % w)] + digits);
    let len = t.len() as int;
    assert(s[start] == t[0]);
    assert forall|k: int| start + 1 <= k < start + len implies is_digit(#[trigger] s[k]) by {
        assert(s[k] == t[k - start]);
        assert(t[k - start] == digits[k - start - 1]);
    }
    lemma_run_end_exact(s, start + 1, start + len);
    assert forall|i: int| 0 <= i < digits.len() implies s.subrange(start + 1, start + len)[i]
        == digits[i] by {
        assert(s[start + 1 + i] == s.subrange(start, start + len)[1 + i]);
        assert(t[1 + i] == digits[i]);
    }
    assert(s.subrange(start + 1, start + len) =~= digits);
    assert(parse_nat(digits) == Some(rank)) by {
        assert(digits[0] != '+');
    }
    assert(h - rank == sq / w);
    assert((sq / w) * w + sq % w == sq);
    assert((h - rank) * w + sq % w == sq);
}

/// All characters of a square in coordinate notation are ASCII.
proof fn lemma_square_text_ascii<C: BoardConfig>(sq: nat)
    requires
        sq < area::<C>(),
    ensures
        all_ascii(square_text::<C>(sq)),
{
    C::lemma_dims();
    let w = C::spec_width();
    let rank = (C::spec_height() - sq / w) as nat;
    lemma_decimal_chars(rank);
    let t = square_text::<C>(sq);
    assert(sq % w < w) by (nonlinear_arith)
        requires
            w > 0,
    ;
    assert forall|i: int| 0 <= i < t.len() implies (#[trigger] t[i] as u32) < 128 by {
        if i > 0 {
            assert(t[i] == decimal_chars(rank)[i - 1]);
        }
    }
}

/// Writing a move in coordinate notation and reading the text back gives the move's
/// squares and promotion piece: what the engine writes, it reads back as the same move.
pub proof fn lemma_uci_round_trip<C: BoardConfig>(g: C::MoveType)
    requires
        (g.from_spec() as nat) < area::<C>(),
        (g.to_spec() as nat) < area::<C>(),
        promotion_consistent(g.flag_spec(), g.promotion_spec()),
    ensures
        uci_move_spec::<C>(move_text::<C>(g)) matches Ok(u) && u.from.0 == g.from_spec() && u.to.0
            == g.to_spec() && uci_matches::<C>(g, u),
{
    C::lemma_dims();
    let from = g.from_spec() as nat;
    let to = g.to_spec() as nat;
    let t1 = square_text::<C>(from);
    let t2 = square_text::<C>(to);
    let p = promotion_text(g.promotion_spec());
    let s = move_text::<C>(g);
    assert(s == t1 + t2 + p);
    lemma_square_text_ascii::<C>(from);
    lemma_square_text_ascii::<C>(to);
    assert(all_ascii(s)) by {
        assert forall|i: int| 0 <= i < s.len() implies (#[trigger] s[i] as u32) < 128 by {
            if i < t1.len() {
                assert(s[i] == t1[i]);
            } else if i < t1.len() + t2.len() {
                assert(s[i] == t2[i - t1.len()]);
            } else {
                assert(s[i] == p[i - t1.len() - t2.len()]);
            }
        }
    }
    let n1 = t1.len() as int;
    let n2 = t2.len() as int;
    assert(s.subrange(0, n1) =~= t1);
    assert(s[n1] == t2[0]);
    lemma_square_text_reads::<C>(s, 0, from);
    assert(s.subrange(n1, n1 + n2) =~= t2);
    if p.len() > 0 {
        assert(s[n1 + n2] == p[0]);
    }
    lemma_square_text_reads::<C>(s, n1, to);
    if p.len() > 0 {
        assert(s[n1 + n2] == p[0]);
        assert(promotion_of(p[0]) is Some);
    }
}

/// Why a count of move paths could not be made.
#[derive(Clone, Copy, Debug, PartialEq, Eq, Structural)]
pub enum PerftError {
    /// A position on the way has no king of the side to move.
    NoKing,
    /// A position on the way has the side to move in check with the halfmove clock at its
    /// largest value.
    ClockFull,
    /// A castling move on the way uses a right whose king or rook is not on its square.
    RookMissing,
    /// The count does not fit in 64 bits.
    Overflow,
}

/// The sum of a list of counts.
pub open spec fn seq_sum(s: Seq<nat>) -> nat
    decreases s.len(),
{
    if s.len() == 0 {
        0
    } else {
        seq_sum(s.drop_last()) + s.last()
    }
}

/// The list holds exactly the generator's moves on `b`, each once.
pub open spec fn lists_generated<C: BoardConfig>(b: BoardModel<C>, v: Seq<C::MoveType>) -> bool {
    lists_exactly::<C>(v, |m: C::MoveType| b.generated(m))
}

/// `c` counts the move paths of `d` plies from `b` (a single ply when `d` is 0): none when
/// the game is over; otherwise, for some listing of the generator's moves, the number of
/// moves, or the sum of the counts after each move.
pub open spec fn perft_is<C: BoardConfig>(b: BoardModel<C>, d: nat, c: nat) -> bool
    decreases d,
{
    if b.outcome() is Some {
        c == 0
    } else if d <= 1 {
        exists|v: Seq<C::MoveType>| #[trigger] lists_generated(b, v) && c == v.len()
    } else {
        exists|v: Seq<C::MoveType>, cs: Seq<nat>|
            #![trigger lists_generated(b, v), seq_sum(cs)]
            lists_generated(b, v) && cs.len() == v.len() && c == seq_sum(cs) && forall|i: int|
                0 <= i < v.len() ==> perft_is(b.applied(v[i]), (d - 1) as nat, #[trigger] cs[i])
    }
}

/// At least `c` move paths of `d` plies start from `b`: none when the game is over;
/// otherwise, for some listing of the generator's moves, `c` is at most the number of
/// moves, or at most the sum of counts, exact or lower bounds, after its first moves.
pub open spec fn perft_at_least<C: BoardConfig>(b: BoardModel<C>, d: nat, c: nat) -> bool
    decreases d,
{
    if b.outcome() is Some {
        c == 0
    } else if d <= 1 {
        exists|v: Seq<C::MoveType>| #[trigger] lists_generated(b, v) && c <= v.len()
    } else {
        exists|v: Seq<C::MoveType>, cs: Seq<nat>|
            #![trigger lists_generated(b, v), seq_sum(cs)]
            lists_generated(b, v) && cs.len() <= v.len() && c <= seq_sum(cs) && forall|i: int|
                0 <= i < cs.len() ==> perft_is(b.applied(v[i]), (d - 1) as nat, #[trigger] cs[i])
                    || perft_at_least(b.applied(v[i]), (d - 1) as nat, cs[i])
    }
}

/// Counting the move paths of `d` plies from `b` meets the obstacle `e`: at `b` or after
/// some of the generator's moves for a missing king, a full clock in check or a castling
/// right without its rook; a count above the 64-bit range for an overflow.
pub open spec fn perft_stops<C: BoardConfig>(b: BoardModel<C>, d: nat, e: PerftError) -> bool
    decreases d,
{
    match e {
        PerftError::Overflow => perft_at_least(b, d, u64::MAX as nat + 1),
        _ => {
            let here = match e {
                PerftError::NoKing => !b.has_king_of(b.turn),
                PerftError::ClockFull => b.has_king_of(b.turn) && b.in_check(b.turn)
                    && b.halfmove_clock == 255,
                _ => d > 1 && b.outcome() is None && exists|g: C::MoveType|
                    #[trigger] b.generated(g) && g.flag_spec() == MoveFlag::Castling
                        && !b.rights_backed(g.to_spec() > g.from_spec()),
            };
            here || (d > 1 && b.outcome() is None && exists|g: C::MoveType|
                #[trigger] b.generated(g) && perft_stops(b.applied(g), (d - 1) as nat, e))
        },
    }
}

impl<C: BoardConfig> GameController<C> {
    /// Counts the move paths of `depth` plies from the current position (a single ply for
    /// depth 0), playing each move and taking it back; the game is left as it was.
    #[verifier::rlimit(40)]
    pub fn perf_mode(&mut self, depth: usize) -> (r: Result<u64, PerftError>)
        requires
            old(self).board().valid(),
        ensures
            final(self).board() == old(self).board(),
            r matches Ok(c) ==> perft_is(old(self).board(), depth as nat, c as nat),
            r matches Err(e) ==> perft_stops(old(self).board(), depth as nat, e),
        decreases depth,
    {
        let ghost b = self.board();
        let player = self.chessboard.current_player();
        if !self.chessboard.has_king(player) {
            return Err(PerftError::NoKing);
        }
        if self.chessboard.halfmove_clock() == 255 && self.chessboard.is_king_checked(player) {
            return Err(PerftError::ClockFull);
        }
        let moves = match self.chessboard.generate_moves() {
            Ok(v) => v,
            Err(_) => {
                return Ok(0);
            },
        };
        let ghost gen = |m: C::MoveType| b.generated(m);
        if depth <= 1 {
            proof {
                assert(lists_generated(b, moves@));
            }
            return Ok(moves.len() as u64);
        }
        let mut count: u64 = 0;
        let ghost mut cs: Seq<nat> = Seq::empty();
        let mut i: usize = 0;
        while i < moves.len()
            invariant
                b == old(self).board(),
                self.board() == b,
                b.valid(),
                b.outcome() is None,
                depth > 1,
                lists_exactly::<C>(moves@, gen),
                gen == (|m: C::MoveType| b.generated(m)),
                i <= moves@.len(),
                cs.len() == i,
                count as nat == seq_sum(cs),
                forall|j: int| 0 <= j < i ==> perft_is(b.applied(moves@[j]), (depth - 1) as nat, #[trigger] cs[j]),
            decreases moves@.len() - i,
        {
            let m = moves[i];
            proof {
                assert(gen(moves@[i as int]));
            }
            if m.flag() == MoveFlag::Castling && !self.chessboard.castling_rights_backed(
                m.to() > m.from(),
            ) {
                return Err(PerftError::RookMissing);
            }
            proof {
                crate::chess_board::movegen::lemma_generated_applicable::<C>(b, m);
                lemma_undo_applied::<C>(b, m);
            }
            let _ = self.chessboard.apply_move(m);
            let sub = self.perf_mode(depth - 1);
            let _ = self.chessboard.undo_move();
            match sub {
                Err(e) => {
                    proof {
                        if e == PerftError::Overflow {
                            let top = u64::MAX as nat + 1;
                            let cs2 = cs.push(top);
                            assert(cs2.drop_last() =~= cs);
                            assert forall|j: int| 0 <= j < cs2.len() implies perft_is(
                                b.applied(moves@[j]),
                                (depth - 1) as nat,
                                #[trigger] cs2[j],
                            ) || perft_at_least(b.applied(moves@[j]), (depth - 1) as nat, cs2[j]) by {
                                if j < i {
                                    assert(cs2[j] == cs[j]);
                                }
                            }
                            assert(lists_generated(b, moves@));
                            assert(top <= seq_sum(cs2));
                        } else {
                            assert(gen(m));
                        }
                    }
                    return Err(e);
                },
                Ok(c) => {
                    if c > u64::MAX - count {
                        proof {
                            let cs2 = cs.push(c as nat);
                            assert(cs2.drop_last() =~= cs);
                            assert forall|j: int| 0 <= j < cs2.len() implies perft_is(
                                b.applied(moves@[j]),
                                (depth - 1) as nat,
                                #[trigger] cs2[j],
                            ) || perft_at_least(b.applied(moves@[j]), (depth - 1) as nat, cs2[j]) by {
                                if j < i {
                                    assert(cs2[j] == cs[j]);
                                }
                            }
                            assert(lists_generated(b, moves@));
                            assert(u64::MAX as nat + 1 <= seq_sum(cs2));
                        }
                        return Err(PerftError::Overflow);
                    }
                    proof {
                        assert(cs.push(c as nat).drop_last() =~= cs);
                        cs = cs.push(c as nat);
                    }
                    count = count + c;
                },
            }
            i = i + 1;
        }
        proof {
            assert(lists_generated(b, moves@));
            assert(count as nat == seq_sum(cs));
        }
        Ok(count)
    }
}

} // verus!
