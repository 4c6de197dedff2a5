use vstd::prelude::*;

use crate::board_config::{BoardConfig, RegularVariant};
use crate::chess_board::CurrentPlayer;
use crate::text::{
    chars_equal, chars_of, digit_run_end, is_digit, join_range, join_words, lemma_run_end_exact,
    parse_bounded, parse_decimal, parse_nat, split_words, string_from_chars, views, words,
};

verus! {

/// A command of the UCI protocol.
#[derive(Clone, Debug, PartialEq, Eq)]
pub enum Command {
    Uci,
    Debug(bool),
    IsReady,
    SetOption { name: String, value: Option<String> },
    UciNewGame,
    Position(Position),
    Go(SearchLimits),
    Stop,
    PonderHit,
    Quit,
    Unknown(String),
}

/// The position of a `position` command: a board and the moves played from it.
#[derive(Clone, Debug, PartialEq, Eq)]
pub struct Position {
    pub board: PositionBoard,
    pub moves: Vec<UciMove>,
}

#[derive(Clone, Debug, PartialEq, Eq)]
pub enum PositionBoard {
    StartPos,
    Fen(String),
}

/// A move in coordinate notation.
#[derive(Clone, Copy, Debug, PartialEq, Eq, Structural)]
pub struct UciMove {
    pub from: Square,
    pub to: Square,
    pub promotion: Option<PromotionPiece>,
}

/// A square index: row by row from the top left.
#[derive(Clone, Copy, Debug, PartialEq, Eq, Structural)]
pub struct Square(pub u8);

#[derive(Clone, Copy, Debug, PartialEq, Eq, Structural)]
pub enum PromotionPiece {
    Queen,
    Rook,
    Bishop,
    Knight,
}

/// The limits of a `go` command.
#[derive(Clone, Debug, PartialEq, Eq)]
pub struct SearchLimits {
    pub search_moves: Vec<UciMove>,
    pub ponder: bool,
    pub wtime: Option<u64>,
    pub btime: Option<u64>,
    pub winc: Option<u64>,
    pub binc: Option<u64>,
    pub moves_to_go: Option<u32>,
    pub depth: Option<u32>,
    pub nodes: Option<u64>,
    pub mate: Option<u32>,
    pub move_time: Option<u64>,
    pub infinite: bool,
    pub go_variant: GoVariant,
}

#[derive(Clone, Copy, Debug, PartialEq, Eq, Structural)]
pub enum GoVariant {
    Regular,
    Perft,
    Weights,
}

/// Why a UCI line is refused.
#[derive(Clone, Debug, PartialEq, Eq)]
pub enum ParseError {
    MissingArgument(&'static str),
    InvalidArgument { argument: String, context: &'static str },
}

/// The content of a parse error.
pub enum ErrorModel {
    Missing(Seq<char>),
    Invalid(Seq<char>, Seq<char>),
}

impl View for ParseError {
    type V = ErrorModel;

    open spec fn view(&self) -> ErrorModel {
        match self {
            ParseError::MissingArgument(c) => ErrorModel::Missing(c@),
            ParseError::InvalidArgument { argument, context } => ErrorModel::Invalid(argument@, context@),
        }
    }
}

impl ErrorModel {
    /// The message of the error.
    pub open spec fn text(self) -> Seq<char> {
        match self {
            ErrorModel::Missing(c) => "missing argument for "@ + c,
            ErrorModel::Invalid(a, c) => "invalid argument '"@ + a + "' for "@ + c,
        }
    }
}

impl ParseError {
    /// The message of the error: `missing argument for <context>` or
    /// `invalid argument '<argument>' for <context>`.
    pub fn message(&self) -> (r: String)
        ensures
            r@ == self@.text(),
    {
        match self {
            ParseError::MissingArgument(context) => String::from_str("missing argument for ").concat(
                context,
            ),
            ParseError::InvalidArgument { argument, context } => String::from_str(
                "invalid argument '",
            ).concat(argument.as_str()).concat("' for ").concat(context),
        }
    }
}

/// The error for an argument that cannot be read.
fn invalid(argument: &Vec<char>, context: &'static str) -> (r: ParseError)
    ensures
        r@ == ErrorModel::Invalid(argument@, context@),
{
    ParseError::InvalidArgument { argument: string_from_chars(argument), context }
}

// ---------------------------------------------------------------------------
// Squares and moves
// ---------------------------------------------------------------------------
/// All characters of `s` are ASCII.
pub open spec fn all_ascii(s: Seq<char>) -> bool {
    forall|i: int| 0 <= i < s.len() ==> (#[trigger] s[i] as u32) < 128
}

/// A square read from `s` at `start`: a file letter and a rank number; the square and the
/// number of characters read.
pub open spec fn square_prefix<C: BoardConfig>(s: Seq<char>, start: int) -> Option<(u8, int)> {
    if start < 0 || start >= s.len() {
        None
    } else {
        let code = s[start] as u32;
        let end = digit_run_end(s, start + 1);
        if code < 97 || code > 122 || C::spec_width() > 26 || C::spec_width() * C::spec_height()
            > 256 {
            None
        } else if end == start + 1 {
            None
        } else {
            let rank = parse_nat(s.subrange(start + 1, end))->Some_0;
            let file = code - 97;
            if file >= C::spec_width() || rank == 0 || rank > C::spec_height() {
                None
            } else {
                Some((((C::spec_height() - rank) * C::spec_width() + file) as u8, end - start))
            }
        }
    }
}

/// The promotion piece a letter names.
pub open spec fn promotion_of(c: char) -> Option<PromotionPiece> {
    if c == 'q' {
        Some(PromotionPiece::Queen)
    } else if c == 'r' {
        Some(PromotionPiece::Rook)
    } else if c == 'b' {
        Some(PromotionPiece::Bishop)
    } else if c == 'n' {
        Some(PromotionPiece::Knight)
    } else {
        None
    }
}

/// A move read from `s`: origin and destination squares, then an optional promotion
/// letter, and nothing else.
pub open spec fn uci_move_spec<C: BoardConfig>(s: Seq<char>) -> Result<UciMove, ErrorModel> {
    if !all_ascii(s) {
        Err(ErrorModel::Invalid(s, "UCI move"@))
    } else {
        match square_prefix::<C>(s, 0) {
            None => Err(ErrorModel::Invalid(s, "square"@)),
            Some((from, n1)) => match square_prefix::<C>(s, n1) {
                None => Err(ErrorModel::Invalid(s, "square"@)),
                Some((to, n2)) => {
                    let k = n1 + n2;
                    if k >= s.len() {
                        Ok(UciMove { from: Square(from), to: Square(to), promotion: None })
                    } else if promotion_of(s[k]) is None || k + 1 != s.len() {
                        Err(ErrorModel::Invalid(s, "UCI move"@))
                    } else {
                        Ok(UciMove { from: Square(from), to: Square(to), promotion: promotion_of(s[k]) })
                    }
                },
            },
        }
    }
}

/// A square read from the whole of `s`.
pub open spec fn square_spec<C: BoardConfig>(s: Seq<char>) -> Result<Square, ErrorModel> {
    match square_prefix::<C>(s, 0) {
        Some((sq, n)) => if n == s.len() {
            Ok(Square(sq))
        } else {
            Err(ErrorModel::Invalid(s, "square"@))
        },
        None => Err(ErrorModel::Invalid(s, "square"@)),
    }
}

impl Square {
    /// Reads a square at `start` of `s` (see `square_prefix`).
    fn parse_prefix<C: BoardConfig>(s: &Vec<char>, start: usize) -> (r: Option<(Square, usize)>)
        ensures
            match square_prefix::<C>(s@, start as int) {
                Some((sq, n)) => r == Some((Square(sq), n as usize)) && 1 <= n && start + n
                    <= s@.len(),
                None => r is None,
            },
    {
        proof {
            C::lemma_dims();
        }
        let n = s.len();
        if start >= n {
            return None;
        }
        let code = s[start] as u32;
        if code < 97 || code > 122 || C::width() > 26 || C::area() > 256 {
            return None;
        }
        let mut end = start + 1;
        let mut digits: Vec<char> = Vec::new();
        while end < n && '0' <= s[end] && s[end] <= '9'
            invariant
                start + 1 <= end <= n,
                n == s@.len(),
                forall|k: int| start + 1 <= k < end ==> is_digit(#[trigger] s@[k]),
                digits@ == s@.subrange(start + 1, end as int),
            decreases n - end,
        {
            digits.push(s[end]);
            end = end + 1;
            assert(digits@ =~= s@.subrange(start + 1, end as int));
        }
        proof {
            lemma_run_end_exact(s@, start + 1, end as int);
        }
        if end == start + 1 {
            return None;
        }
        let h = C::height();
        let w = C::width();
        let rank = match parse_decimal(&digits, h as u64) {
            Some(v) => v as usize,
            None => {
                return None;
            },
        };
        let file = (code - 97) as usize;
        if file >= w || rank == 0 {
            return None;
        }
        proof {
            assert((h - rank) * w + file < h * w) by (nonlinear_arith)
                requires
                    1 <= rank <= h,
                    file < w,
            ;
        }
        Some((Square(((h - rank) * w + file) as u8), end - start))
    }

    /// Reads a square of the 8x8 board.
    pub fn parse(input: &str) -> (r: Result<Square, ParseError>)
        ensures
            match square_spec::<RegularVariant>(input@) {
                Ok(sq) => r == Ok::<Square, ParseError>(sq),
                Err(e) => r matches Err(x) && x@ == e,
            },
    {
        Self::parse_for::<RegularVariant>(input)
    }

    /// Reads a square of the board of `C`: a file letter and a rank number, nothing else.
    pub fn parse_for<C: BoardConfig>(input: &str) -> (r: Result<Square, ParseError>)
        ensures
            match square_spec::<C>(input@) {
                Ok(sq) => r == Ok::<Square, ParseError>(sq),
                Err(e) => r matches Err(x) && x@ == e,
            },
    {
        let s = chars_of(input);
        match Self::parse_prefix::<C>(&s, 0) {
            Some((sq, consumed)) => {
                if consumed != s.len() {
                    return Err(invalid(&s, "square"));
                }
                Ok(sq)
            },
            None => Err(invalid(&s, "square")),
        }
    }
}

impl UciMove {
    /// Reads a move of the 8x8 board.
    pub fn parse(input: &str) -> (r: Result<UciMove, ParseError>)
        ensures
            match uci_move_spec::<RegularVariant>(input@) {
                Ok(m) => r == Ok::<UciMove, ParseError>(m),
                Err(e) => r matches Err(x) && x@ == e,
            },
    {
        Self::parse_for::<RegularVariant>(input)
    }

    /// Reads a move of the board of `C` (see `uci_move_spec`).
    pub fn parse_for<C: BoardConfig>(input: &str) -> (r: Result<UciMove, ParseError>)
        ensures
            match uci_move_spec::<C>(input@) {
                Ok(m) => r == Ok::<UciMove, ParseError>(m),
                Err(e) => r matches Err(x) && x@ == e,
            },
    {
        let s = chars_of(input);
        Self::parse_chars::<C>(&s)
    }

    /// Reads a move from its characters (see `uci_move_spec`).
    pub fn parse_chars<C: BoardConfig>(s: &Vec<char>) -> (r: Result<UciMove, ParseError>)
        ensures
            match uci_move_spec::<C>(s@) {
                Ok(m) => r == Ok::<UciMove, ParseError>(m),
                Err(e) => r matches Err(x) && x@ == e,
            },
    {
        let n = s.len();
        let mut i: usize = 0;
        while i < n
            invariant
                i <= n,
                n == s@.len(),
                forall|k: int| 0 <= k < i ==> (#[trigger] s@[k] as u32) < 128,
            decreases n - i,
        {
            if (s[i] as u32) >= 128 {
                return Err(invalid(s, "UCI move"));
            }
            i = i + 1;
        }
        let (from, from_end) = match Square::parse_prefix::<C>(s, 0) {
            Some(p) => p,
            None => {
                return Err(invalid(s, "square"));
            },
        };
        let (to, to_end) = match Square::parse_prefix::<C>(s, from_end) {
            Some(p) => p,
            None => {
                return Err(invalid(s, "square"));
            },
        };
        let k = from_end + to_end;
        if k >= n {
            return Ok(UciMove { from, to, promotion: None });
        }
        let c = s[k];
        let promotion = if c == 'q' {
            PromotionPiece::Queen
        } else if c == 'r' {
            PromotionPiece::Rook
        } else if c == 'b' {
            PromotionPiece::Bishop
        } else if c == 'n' {
            PromotionPiece::Knight
        } else {
            return Err(invalid(s, "UCI move"));
        };
        if k + 1 != n {
            return Err(invalid(s, "UCI move"));
        }
        Ok(UciMove { from, to, promotion: Some(promotion) })
    }
}

// ---------------------------------------------------------------------------
// Commands
// ---------------------------------------------------------------------------
/// The board of a `position` command.
pub enum BoardChoice {
    StartPos,
    Fen(Seq<char>),
}

pub struct PositionModel {
    pub board: BoardChoice,
    pub moves: Seq<UciMove>,
}

pub struct LimitsModel {
    pub search_moves: Seq<UciMove>,
    pub ponder: bool,
    pub wtime: Option<u64>,
    pub btime: Option<u64>,
    pub winc: Option<u64>,
    pub binc: Option<u64>,
    pub moves_to_go: Option<u32>,
    pub depth: Option<u32>,
    pub nodes: Option<u64>,
    pub mate: Option<u32>,
    pub move_time: Option<u64>,
    pub infinite: bool,
    pub go_variant: GoVariant,
}

pub enum CommandModel {
    Uci,
    Debug(bool),
    IsReady,
    SetOption { name: Seq<char>, value: Option<Seq<char>> },
    UciNewGame,
    Position(PositionModel),
    Go(LimitsModel),
    Stop,
    PonderHit,
    Quit,
    Unknown(Seq<char>),
}

impl View for PositionBoard {
    type V = BoardChoice;

    open spec fn view(&self) -> BoardChoice {
        match self {
            PositionBoard::StartPos => BoardChoice::StartPos,
            PositionBoard::Fen(f) => BoardChoice::Fen(f@),
        }
    }
}

impl View for Position {
    type V = PositionModel;

    open spec fn view(&self) -> PositionModel {
        PositionModel { board: self.board@, moves: self.moves@ }
    }
}

impl View for SearchLimits {
    type V = LimitsModel;

    open spec fn view(&self) -> LimitsModel {
        LimitsModel {
            search_moves: self.search_moves@,
            ponder: self.ponder,
            wtime: self.wtime,
            btime: self.btime,
            winc: self.winc,
            binc: self.binc,
            moves_to_go: self.moves_to_go,
            depth: self.depth,
            nodes: self.nodes,
            mate: self.mate,
            move_time: self.move_time,
            infinite: self.infinite,
            go_variant: self.go_variant,
        }
    }
}

impl View for Command {
    type V = CommandModel;

    open spec fn view(&self) -> CommandModel {
        match self {
            Command::Uci => CommandModel::Uci,
            Command::Debug(b) => CommandModel::Debug(*b),
            Command::IsReady => CommandModel::IsReady,
            Command::SetOption { name, value } => CommandModel::SetOption {
                name: name@,
                value: match value {
                    Some(v) => Some(v@),
                    None => None,
                },
            },
            Command::UciNewGame => CommandModel::UciNewGame,
            Command::Position(p) => CommandModel::Position(p@),
            Command::Go(l) => CommandModel::Go(l@),
            Command::Stop => CommandModel::Stop,
            Command::PonderHit => CommandModel::PonderHit,
            Command::Quit => CommandModel::Quit,
            Command::Unknown(u) => CommandModel::Unknown(u@),
        }
    }
}

/// No limit: every field empty, regular search.
pub open spec fn default_limits() -> LimitsModel {
    LimitsModel {
        search_moves: Seq::empty(),
        ponder: false,
        wtime: None,
        btime: None,
        winc: None,
        binc: None,
        moves_to_go: None,
        depth: None,
        nodes: None,
        mate: None,
        move_time: None,
        infinite: false,
        go_variant: GoVariant::Regular,
    }
}

impl Default for SearchLimits {
    fn default() -> (r: SearchLimits)
        ensures
            r@ == default_limits(),
    {
        SearchLimits {
            search_moves: Vec::new(),
            ponder: false,
            wtime: None,
            btime: None,
            winc: None,
            binc: None,
            moves_to_go: None,
            depth: None,
            nodes: None,
            mate: None,
            move_time: None,
            infinite: false,
            go_variant: GoVariant::Regular,
        }
    }
}

/// The `debug` argument: `on` or `off`.
pub open spec fn debug_spec(args: Seq<Seq<char>>) -> Result<bool, ErrorModel> {
    if args.len() == 0 {
        Err(ErrorModel::Missing("debug"@))
    } else if args[0] == "on"@ {
        Ok(true)
    } else if args[0] == "off"@ {
        Ok(false)
    } else {
        Err(ErrorModel::Invalid(args[0], "debug"@))
    }
}

/// The first position at or after `i` of the word `t`.
pub open spec fn find_word(ts: Seq<Seq<char>>, t: Seq<char>, i: int) -> Option<int>
    decreases ts.len() - i,
{
    if i < 0 || i >= ts.len() {
        None
    } else if ts[i] == t {
        Some(i)
    } else {
        find_word(ts, t, i + 1)
    }
}

/// `setoption name <name...> [value <value...>]`.
pub open spec fn setoption_spec(args: Seq<Seq<char>>) -> Result<CommandModel, ErrorModel> {
    if args.len() == 0 || args[0] != "name"@ {
        Err(ErrorModel::Missing("setoption name"@))
    } else {
        let vi = find_word(args, "value"@, 0);
        let name_end = match vi {
            Some(k) => k,
            None => args.len() as int,
        };
        let name = join_words(args.subrange(1, name_end));
        if name.len() == 0 {
            Err(ErrorModel::Missing("setoption name"@))
        } else {
            Ok(
                CommandModel::SetOption {
                    name,
                    value: match vi {
                        Some(k) => Some(join_words(args.subrange(k + 1, args.len() as int))),
                        None => None,
                    },
                },
            )
        }
    }
}

/// The moves of the words from `i` on, after those in `acc`; the first that cannot be read
/// refuses them all.
pub open spec fn moves_spec<C: BoardConfig>(ts: Seq<Seq<char>>, i: int, acc: Seq<UciMove>) -> Result<
    Seq<UciMove>,
    ErrorModel,
>
    decreases ts.len() - i,
{
    if i < 0 || i >= ts.len() {
        Ok(acc)
    } else {
        match uci_move_spec::<C>(ts[i]) {
            Err(e) => Err(e),
            Ok(m) => moves_spec::<C>(ts, i + 1, acc.push(m)),
        }
    }
}

/// `position (startpos | fen <six fields>) [moves <move...>]`.
pub open spec fn position_spec<C: BoardConfig>(args: Seq<Seq<char>>) -> Result<PositionModel, ErrorModel> {
    if args.len() == 0 {
        Err(ErrorModel::Missing("position"@))
    } else {
        let kind = args[0];
        let rest = args.drop_first();
        let chosen: Result<(BoardChoice, Seq<Seq<char>>), ErrorModel> = if kind == "startpos"@ {
            Ok((BoardChoice::StartPos, rest))
        } else if kind == "fen"@ {
            if rest.len() < 6 {
                Err(ErrorModel::Missing("position fen"@))
            } else {
                Ok((BoardChoice::Fen(join_words(rest.subrange(0, 6))), rest.subrange(6, rest.len() as int)))
            }
        } else {
            Err(ErrorModel::Invalid(kind, "position"@))
        };
        match chosen {
            Err(e) => Err(e),
            Ok((board, remaining)) => {
                if remaining.len() == 0 {
                    Ok(PositionModel { board, moves: Seq::empty() })
                } else if remaining[0] != "moves"@ {
                    Err(ErrorModel::Invalid(remaining[0], "position"@))
                } else {
                    match moves_spec::<C>(remaining, 1, Seq::empty()) {
                        Err(e) => Err(e),
                        Ok(moves) => Ok(PositionModel { board, moves }),
                    }
                }
            },
        }
    }
}

/// A word that starts a part of a `go` command (the moves after `searchmoves` stop there).
pub open spec fn is_go_keyword(t: Seq<char>) -> bool {
    t == "searchmoves"@
        || t == "ponder"@
        || t == "wtime"@
        || t == "btime"@
        || t == "winc"@
        || t == "binc"@
        || t == "movestogo"@
        || t == "depth"@
        || t == "nodes"@
        || t == "mate"@
        || t == "movetime"@
        || t == "infinite"@
}

/// A part of a `go` command followed by a number.
pub open spec fn requires_value(t: Seq<char>) -> bool {
    t == "wtime"@
        || t == "btime"@
        || t == "winc"@
        || t == "binc"@
        || t == "movestogo"@
        || t == "depth"@
        || t == "nodes"@
        || t == "mate"@
        || t == "movetime"@
}

/// The largest number a part of a `go` command takes.
pub open spec fn number_limit(t: Seq<char>) -> nat {
    if t == "wtime"@ {
        u64::MAX as nat
    } else if t == "btime"@ {
        u64::MAX as nat
    } else if t == "winc"@ {
        u64::MAX as nat
    } else if t == "binc"@ {
        u64::MAX as nat
    } else if t == "movestogo"@ {
        u32::MAX as nat
    } else if t == "depth"@ {
        u32::MAX as nat
    } else if t == "nodes"@ {
        u64::MAX as nat
    } else if t == "mate"@ {
        u32::MAX as nat
    } else if t == "movetime"@ {
        u64::MAX as nat
    } else {
        u64::MAX as nat
    }
}

/// What an error about a part of a `go` command names.
pub open spec fn number_context(t: Seq<char>) -> Seq<char> {
    if t == "wtime"@ {
        "go wtime"@
    } else if t == "btime"@ {
        "go btime"@
    } else if t == "winc"@ {
        "go winc"@
    } else if t == "binc"@ {
        "go binc"@
    } else if t == "movestogo"@ {
        "go movestogo"@
    } else if t == "depth"@ {
        "go depth"@
    } else if t == "nodes"@ {
        "go nodes"@
    } else if t == "mate"@ {
        "go mate"@
    } else if t == "movetime"@ {
        "go movetime"@
    } else {
        "go"@
    }
}

/// The limits with the number `v` set for the part `t`.
pub open spec fn set_number(l: LimitsModel, t: Seq<char>, v: nat) -> LimitsModel {
    if t == "wtime"@ {
        LimitsModel { wtime: Some(v as u64), ..l }
    } else if t == "btime"@ {
        LimitsModel { btime: Some(v as u64), ..l }
    } else if t == "winc"@ {
        LimitsModel { winc: Some(v as u64), ..l }
    } else if t == "binc"@ {
        LimitsModel { binc: Some(v as u64), ..l }
    } else if t == "movestogo"@ {
        LimitsModel { moves_to_go: Some(v as u32), ..l }
    } else if t == "depth"@ {
        LimitsModel { depth: Some(v as u32), ..l }
    } else if t == "nodes"@ {
        LimitsModel { nodes: Some(v as u64), ..l }
    } else if t == "mate"@ {
        LimitsModel { mate: Some(v as u32), ..l }
    } else if t == "movetime"@ {
        LimitsModel { move_time: Some(v as u64), ..l }
    } else {
        l
    }
}

/// The moves after `searchmoves`, from position `i` up to the next keyword, after those in
/// `acc`; with the position where they stop.
pub open spec fn search_moves_spec<C: BoardConfig>(args: Seq<Seq<char>>, i: int, acc: Seq<UciMove>) -> Result<
    (Seq<UciMove>, int),
    ErrorModel,
>
    decreases args.len() - i,
{
    if i < 0 || i >= args.len() || is_go_keyword(args[i]) {
        Ok((acc, i))
    } else {
        match uci_move_spec::<C>(args[i]) {
            Err(e) => Err(e),
            Ok(m) => search_moves_spec::<C>(args, i + 1, acc.push(m)),
        }
    }
}

pub proof fn lemma_search_moves_end<C: BoardConfig>(args: Seq<Seq<char>>, i: int, acc: Seq<UciMove>)
    ensures
        search_moves_spec::<C>(args, i, acc) matches Ok((ms, end)) ==> end >= i && (0 <= i <= args.len()
            ==> end <= args.len()),
    decreases args.len() - i,
{
    if !(i < 0 || i >= args.len() || is_go_keyword(args[i])) {
        lemma_search_moves_end::<C>(args, i + 1, acc.push(uci_move_spec::<C>(args[i])->Ok_0));
    }
}

/// The number at position `i`, at most `limit`.
pub open spec fn number_spec(args: Seq<Seq<char>>, i: int, limit: nat, context: Seq<char>) -> Result<
    nat,
    ErrorModel,
> {
    if i < 0 || i >= args.len() {
        Err(ErrorModel::Missing(context))
    } else {
        match parse_bounded(args[i], limit) {
            Some(v) => Ok(v),
            None => Err(ErrorModel::Invalid(args[i], context)),
        }
    }
}

/// The limits of a `go` command read from position `index` on, starting from `l`.
pub open spec fn go_from<C: BoardConfig>(args: Seq<Seq<char>>, index: int, l: LimitsModel) -> Result<
    LimitsModel,
    ErrorModel,
>
    decreases args.len() - index,
{
    if index < 0 || index >= args.len() {
        Ok(l)
    } else {
        let kw = args[index];
        let i = index + 1;
        if kw == "searchmoves"@ {
            match search_moves_spec::<C>(args, i, l.search_moves) {
                Err(e) => Err(e),
                Ok((ms, end)) => if end == i {
                    Err(ErrorModel::Missing("go searchmoves"@))
                } else {
                    proof {
                        lemma_search_moves_end::<C>(args, i, l.search_moves);
                    }
                    go_from::<C>(args, end, LimitsModel { search_moves: ms, ..l })
                },
            }
        } else if kw == "ponder"@ {
            go_from::<C>(args, i, LimitsModel { ponder: true, ..l })
        } else if kw == "infinite"@ {
            go_from::<C>(args, i, LimitsModel { infinite: true, ..l })
        } else if requires_value(kw) {
            match number_spec(args, i, number_limit(kw), number_context(kw)) {
                Err(e) => Err(e),
                Ok(v) => go_from::<C>(args, i + 1, set_number(l, kw, v)),
            }
        } else if kw == "weights"@ {
            go_from::<C>(args, i, LimitsModel { go_variant: GoVariant::Weights, ..l })
        } else {
            Err(ErrorModel::Invalid(kw, "go"@))
        }
    }
}

/// A UCI line: its first word names the command, the rest are its arguments; a line
/// without words is no command.
pub open spec fn command_spec<C: BoardConfig>(s: Seq<char>) -> Result<Option<CommandModel>, ErrorModel> {
    let ts = words(s);
    if ts.len() == 0 {
        Ok(None)
    } else {
        let cmd = ts[0];
        let args = ts.drop_first();
        if cmd == "uci"@ {
            Ok(Some(CommandModel::Uci))
        } else if cmd == "debug"@ {
            match debug_spec(args) {
                Ok(b) => Ok(Some(CommandModel::Debug(b))),
                Err(e) => Err(e),
            }
        } else if cmd == "isready"@ {
            Ok(Some(CommandModel::IsReady))
        } else if cmd == "setoption"@ {
            match setoption_spec(args) {
                Ok(c) => Ok(Some(c)),
                Err(e) => Err(e),
            }
        } else if cmd == "ucinewgame"@ {
            Ok(Some(CommandModel::UciNewGame))
        } else if cmd == "position"@ {
            match position_spec::<C>(args) {
                Ok(p) => Ok(Some(CommandModel::Position(p))),
                Err(e) => Err(e),
            }
        } else if cmd == "go"@ {
            match go_from::<C>(args, 0, default_limits()) {
                Ok(l) => Ok(Some(CommandModel::Go(l))),
                Err(e) => Err(e),
            }
        } else if cmd == "stop"@ {
            Ok(Some(CommandModel::Stop))
        } else if cmd == "ponderhit"@ {
            Ok(Some(CommandModel::PonderHit))
        } else if cmd == "quit"@ {
            Ok(Some(CommandModel::Quit))
        } else {
            Ok(Some(CommandModel::Unknown(cmd)))
        }
    }
}

/// Whether `t` starts a part of a `go` command.
fn is_go_keyword_exec(t: &Vec<char>) -> (r: bool)
    ensures
        r == is_go_keyword(t@),
{
    chars_equal(t, "searchmoves")
        || chars_equal(t, "ponder")
        || chars_equal(t, "wtime")
        || chars_equal(t, "btime")
        || chars_equal(t, "winc")
        || chars_equal(t, "binc")
        || chars_equal(t, "movestogo")
        || chars_equal(t, "depth")
        || chars_equal(t, "nodes")
        || chars_equal(t, "mate")
        || chars_equal(t, "movetime")
        || chars_equal(t, "infinite")
}

/// Whether the part `t` of a `go` command takes a number.
fn requires_value_exec(t: &Vec<char>) -> (r: bool)
    ensures
        r == requires_value(t@),
{
    chars_equal(t, "wtime")
        || chars_equal(t, "btime")
        || chars_equal(t, "winc")
        || chars_equal(t, "binc")
        || chars_equal(t, "movestogo")
        || chars_equal(t, "depth")
        || chars_equal(t, "nodes")
        || chars_equal(t, "mate")
        || chars_equal(t, "movetime")
}

/// The number at position `index` of `args`, at most `limit`.
fn parse_number(args: &Vec<Vec<char>>, index: usize, limit: u64, context: &'static str) -> (r: Result<
    u64,
    ParseError,
>)
    ensures
        match number_spec(views(args@), index as int, limit as nat, context@) {
            Ok(v) => r == Ok::<u64, ParseError>(v as u64),
            Err(e) => r matches Err(x) && x@ == e,
        },
{
    if index >= args.len() {
        return Err(ParseError::MissingArgument(context));
    }
    assert(views(args@)[index as int] == args@[index as int]@);
    match parse_decimal(&args[index], limit) {
        Some(v) => Ok(v),
        None => Err(invalid(&args[index], context)),
    }
}

/// Sets the number `v` of the part `kw` of a `go` command.
fn set_number_exec(limits: &mut SearchLimits, kw: &Vec<char>, v: u64)
    requires
        requires_value(kw@),
        v <= number_limit(kw@),
    ensures
        final(limits)@ == set_number(old(limits)@, kw@, v as nat),
{
    proof {
        reveal_strlit("wtime");
        reveal_strlit("btime");
        reveal_strlit("winc");
        reveal_strlit("binc");
        reveal_strlit("movestogo");
        reveal_strlit("depth");
        reveal_strlit("nodes");
        reveal_strlit("mate");
        reveal_strlit("movetime");
    }
    if chars_equal(kw, "wtime") {
        limits.wtime = Some(v);
    } else if chars_equal(kw, "btime") {
        limits.btime = Some(v);
    } else if chars_equal(kw, "winc") {
        limits.winc = Some(v);
    } else if chars_equal(kw, "binc") {
        limits.binc = Some(v);
    } else if chars_equal(kw, "movestogo") {
        limits.moves_to_go = Some(v as u32);
    } else if chars_equal(kw, "depth") {
        limits.depth = Some(v as u32);
    } else if chars_equal(kw, "nodes") {
        limits.nodes = Some(v);
    } else if chars_equal(kw, "mate") {
        limits.mate = Some(v as u32);
    } else if chars_equal(kw, "movetime") {
        limits.move_time = Some(v);
    }
}

/// The context of an error about the number of the part `kw` of a `go` command.
fn number_context_exec(kw: &Vec<char>) -> (r: (&'static str, u64))
    requires
        requires_value(kw@),
    ensures
        r.0@ == number_context(kw@),
        r.1 as nat == number_limit(kw@),
{
    proof {
        reveal_strlit("wtime");
        reveal_strlit("btime");
        reveal_strlit("winc");
        reveal_strlit("binc");
        reveal_strlit("movestogo");
        reveal_strlit("depth");
        reveal_strlit("nodes");
        reveal_strlit("mate");
        reveal_strlit("movetime");
    }
    if chars_equal(kw, "wtime") {
        ("go wtime", u64::MAX)
    } else if chars_equal(kw, "btime") {
        ("go btime", u64::MAX)
    } else if chars_equal(kw, "winc") {
        ("go winc", u64::MAX)
    } else if chars_equal(kw, "binc") {
        ("go binc", u64::MAX)
    } else if chars_equal(kw, "movestogo") {
        ("go movestogo", u32::MAX as u64)
    } else if chars_equal(kw, "depth") {
        ("go depth", u32::MAX as u64)
    } else if chars_equal(kw, "nodes") {
        ("go nodes", u64::MAX)
    } else if chars_equal(kw, "mate") {
        ("go mate", u32::MAX as u64)
    } else if chars_equal(kw, "movetime") {
        ("go movetime", u64::MAX)
    } else {
        ("go", u64::MAX)
    }
}

/// The limits of a `go` command.
fn parse_go<C: BoardConfig>(args: &Vec<Vec<char>>) -> (r: Result<SearchLimits, ParseError>)
    ensures
        match go_from::<C>(views(args@), 0, default_limits()) {
            Ok(l) => r matches Ok(x) && x@ == l,
            Err(e) => r matches Err(x) && x@ == e,
        },
{
    let ghost a = views(args@);
    let mut limits = SearchLimits::default();
    let mut index: usize = 0;
    while index < args.len()
        invariant
            index <= args@.len(),
            a == views(args@),
            go_from::<C>(a, 0, default_limits()) == go_from::<C>(a, index as int, limits@),
        decreases args@.len() - index,
    {
        let kw = &args[index];
        assert(a[index as int] == kw@);
        index = index + 1;
        if chars_equal(kw, "searchmoves") {
            let start = index;
            let ghost l0 = limits@;
            while index < args.len() && !is_go_keyword_exec(&args[index])
                invariant
                    1 <= start <= index <= args@.len(),
                    a == views(args@),
                    a[start - 1] == "searchmoves"@,
                    go_from::<C>(a, 0, default_limits()) == go_from::<C>(a, start - 1, l0),
                    search_moves_spec::<C>(a, start as int, l0.search_moves) == search_moves_spec::<C>(
                        a,
                        index as int,
                        limits.search_moves@,
                    ),
                    limits@ == (LimitsModel { search_moves: limits.search_moves@, ..l0 }),
                decreases args@.len() - index,
            {
                assert(a[index as int] == args@[index as int]@);
                match UciMove::parse_chars::<C>(&args[index]) {
                    Ok(m) => {
                        limits.search_moves.push(m);
                    },
                    Err(e) => {
                        return Err(e);
                    },
                }
                index = index + 1;
            }
            proof {
                if index < args.len() {
                    assert(a[index as int] == args@[index as int]@);
                }
            }
            if index == start {
                return Err(ParseError::MissingArgument("go searchmoves"));
            }
        } else if chars_equal(kw, "ponder") {
            limits.ponder = true;
        } else if chars_equal(kw, "infinite") {
            limits.infinite = true;
        } else if requires_value_exec(kw) {
            let (context, limit) = number_context_exec(kw);
            match parse_number(args, index, limit, context) {
                Ok(v) => {
                    set_number_exec(&mut limits, kw, v);
                },
                Err(e) => {
                    return Err(e);
                },
            }
            index = index + 1;
        } else if chars_equal(kw, "weights") {
            limits.go_variant = GoVariant::Weights;
        } else {
            return Err(invalid(kw, "go"));
        }
    }
    Ok(limits)
}

/// The `debug` argument.
fn parse_debug(args: &Vec<Vec<char>>) -> (r: Result<bool, ParseError>)
    ensures
        match debug_spec(views(args@)) {
            Ok(b) => r == Ok::<bool, ParseError>(b),
            Err(e) => r matches Err(x) && x@ == e,
        },
{
    if args.len() == 0 {
        return Err(ParseError::MissingArgument("debug"));
    }
    assert(views(args@)[0] == args@[0]@);
    if chars_equal(&args[0], "on") {
        Ok(true)
    } else if chars_equal(&args[0], "off") {
        Ok(false)
    } else {
        Err(invalid(&args[0], "debug"))
    }
}

/// The first position at or after `from` of the word `value`.
fn find_value(args: &Vec<Vec<char>>, from: usize) -> (r: Option<usize>)
    requires
        from <= args@.len(),
    ensures
        match find_word(views(args@), "value"@, from as int) {
            Some(k) => r == Some(k as usize),
            None => r is None,
        },
        r matches Some(k) ==> from <= k < args@.len(),
        find_word(views(args@), "value"@, from as int) matches Some(k) ==> from <= k < args@.len(),
{
    let ghost a = views(args@);
    let n = args.len();
    let mut k: usize = from;
    while k < n
        invariant
            from <= k <= n,
            n == args@.len(),
            a == views(args@),
            find_word(a, "value"@, from as int) == find_word(a, "value"@, k as int),
        decreases n - k,
    {
        assert(a[k as int] == args@[k as int]@);
        if chars_equal(&args[k], "value") {
            return Some(k);
        }
        k = k + 1;
    }
    None
}

/// A `setoption` command.
fn parse_setoption(args: &Vec<Vec<char>>) -> (r: Result<Command, ParseError>)
    ensures
        match setoption_spec(views(args@)) {
            Ok(c) => r matches Ok(x) && x@ == c,
            Err(e) => r matches Err(x) && x@ == e,
        },
{
    let ghost a = views(args@);
    if args.len() == 0 {
        return Err(ParseError::MissingArgument("setoption name"));
    }
    assert(a[0] == args@[0]@);
    if !chars_equal(&args[0], "name") {
        return Err(ParseError::MissingArgument("setoption name"));
    }
    proof {
        reveal_strlit("name");
        reveal_strlit("value");
        assert(a[0].len() == 4);
        assert("value"@.len() == 5);
    }
    let n = args.len();
    assert(find_word(a, "value"@, 0) == find_word(a, "value"@, 1));
    let value_index = find_value(args, 1);
    let name_end = match value_index {
        Some(vi) => vi,
        None => n,
    };
    let name = join_range(args, 1, name_end);
    if name.len() == 0 {
        return Err(ParseError::MissingArgument("setoption name"));
    }
    let value = match value_index {
        Some(vi) => Some(string_from_chars(&join_range(args, vi + 1, n))),
        None => None,
    };
    let name_string = string_from_chars(&name);
    let c = Command::SetOption { name: name_string, value };
    proof {
        let vi = find_word(a, "value"@, 0);
        let ne = match vi {
            Some(k) => k,
            None => a.len() as int,
        };
        assert(a.len() == args@.len());
        assert(vi == find_word(a, "value"@, 1));
        assert(ne == name_end);
        assert(name_string@ == join_words(a.subrange(1, ne)));
        let sv: Option<Seq<char>> = match vi {
            Some(k) => Some(join_words(a.subrange(k + 1, a.len() as int))),
            None => None,
        };
        assert(c@ == CommandModel::SetOption { name: join_words(a.subrange(1, ne)), value: sv });
        assert(setoption_spec(a) == Ok::<CommandModel, ErrorModel>(
            CommandModel::SetOption { name: join_words(a.subrange(1, ne)), value: sv },
        ));
    }
    Ok(c)
}

/// A `position` command.
fn parse_position<C: BoardConfig>(args: &Vec<Vec<char>>) -> (r: Result<Position, ParseError>)
    ensures
        match position_spec::<C>(views(args@)) {
            Ok(p) => r matches Ok(x) && x@ == p,
            Err(e) => r matches Err(x) && x@ == e,
        },
{
    let ghost a = views(args@);
    let n = args.len();
    if n == 0 {
        return Err(ParseError::MissingArgument("position"));
    }
    assert(a[0] == args@[0]@);
    let kind = &args[0];
    let is_start = chars_equal(kind, "startpos");
    let is_fen = !is_start && chars_equal(kind, "fen");
    if !is_start && !is_fen {
        return Err(invalid(kind, "position"));
    }
    if is_fen && n - 1 < 6 {
        return Err(ParseError::MissingArgument("position fen"));
    }
    let start: usize = if is_start {
        1
    } else {
        7
    };
    let board = if is_start {
        assert(a.drop_first() =~= a.subrange(1, n as int));
        PositionBoard::StartPos
    } else {
        let fen = join_range(args, 1, 7);
        assert(a.drop_first().subrange(0, 6) =~= a.subrange(1, 7));
        assert(a.drop_first().subrange(6, a.len() - 1) =~= a.subrange(7, n as int));
        PositionBoard::Fen(string_from_chars(&fen))
    };
    let ghost remaining = a.subrange(start as int, n as int);
    if start >= n {
        return Ok(Position { board, moves: Vec::new() });
    }
    assert(remaining[0] == args@[start as int]@);
    if !chars_equal(&args[start], "moves") {
        return Err(invalid(&args[start], "position"));
    }
    let mut moves: Vec<UciMove> = Vec::new();
    let mut k: usize = start + 1;
    assert(position_spec::<C>(a) == (match moves_spec::<C>(remaining, 1, Seq::empty()) {
        Err(e) => Err(e),
        Ok(mv) => Ok(PositionModel { board: board@, moves: mv }),
    }));
    while k < n
        invariant
            start + 1 <= k <= n,
            n == args@.len(),
            a == views(args@),
            a.len() == n,
            remaining == a.subrange(start as int, n as int),
            position_spec::<C>(a) == (match moves_spec::<C>(remaining, 1, Seq::empty()) {
                Err(e) => Err(e),
                Ok(mv) => Ok(PositionModel { board: board@, moves: mv }),
            }),
            moves_spec::<C>(remaining, 1, Seq::empty()) == moves_spec::<C>(
                remaining,
                k - start,
                moves@,
            ),
        decreases n - k,
    {
        assert(a.subrange(start as int, n as int)[k - start] == a[k as int]);
        assert(a[k as int] == args@[k as int]@);
        match UciMove::parse_chars::<C>(&args[k]) {
            Ok(m) => {
                moves.push(m);
            },
            Err(e) => {
                return Err(e);
            },
        }
        k = k + 1;
    }
    Ok(Position { board, moves })
}

/// Reads a UCI line for the 8x8 board (see `command_spec`).
pub fn parse(input: &str) -> (r: Result<Option<Command>, ParseError>)
    ensures
        match command_spec::<RegularVariant>(input@) {
            Ok(None) => r matches Ok(None),
            Ok(Some(c)) => r matches Ok(Some(x)) && x@ == c,
            Err(e) => r matches Err(x) && x@ == e,
        },
{
    parse_for::<RegularVariant>(input)
}

/// Reads a UCI line for the board of `C` (see `command_spec`).
pub fn parse_for<C: BoardConfig>(input: &str) -> (r: Result<Option<Command>, ParseError>)
    ensures
        match command_spec::<C>(input@) {
            Ok(None) => r matches Ok(None),
            Ok(Some(c)) => r matches Ok(Some(x)) && x@ == c,
            Err(e) => r matches Err(x) && x@ == e,
        },
{
    let chars = chars_of(input);
    let mut tokens = split_words(&chars);
    if tokens.len() == 0 {
        return Ok(None);
    }
    let ghost before = views(tokens@);
    let command = tokens.remove(0);
    assert(views(tokens@) =~= before.drop_first());
    assert(before[0] == command@);
    if chars_equal(&command, "uci") {
        Ok(Some(Command::Uci))
    } else if chars_equal(&command, "debug") {
        match parse_debug(&tokens) {
            Ok(b) => Ok(Some(Command::Debug(b))),
            Err(e) => Err(e),
        }
    } else if chars_equal(&command, "isready") {
        Ok(Some(Command::IsReady))
    } else if chars_equal(&command, "setoption") {
        match parse_setoption(&tokens) {
            Ok(c) => Ok(Some(c)),
            Err(e) => Err(e),
        }
    } else if chars_equal(&command, "ucinewgame") {
        Ok(Some(Command::UciNewGame))
    } else if chars_equal(&command, "position") {
        match parse_position::<C>(&tokens) {
            Ok(p) => Ok(Some(Command::Position(p))),
            Err(e) => Err(e),
        }
    } else if chars_equal(&command, "go") {
        match parse_go::<C>(&tokens) {
            Ok(l) => Ok(Some(Command::Go(l))),
            Err(e) => Err(e),
        }
    } else if chars_equal(&command, "stop") {
        Ok(Some(Command::Stop))
    } else if chars_equal(&command, "ponderhit") {
        Ok(Some(Command::PonderHit))
    } else if chars_equal(&command, "quit") {
        Ok(Some(Command::Quit))
    } else {
        Ok(Some(Command::Unknown(string_from_chars(&command))))
    }
}

/// The time to spend on a move, in milliseconds: none for an infinite or pondering search;
/// the move time when one is given; otherwise, from the clock of the side to move (none
/// without one), its share of the moves to go (30 when not given) plus four fifths of its
/// increment, keeping a reserve of a tenth of the clock, at most 50 ms.
pub open spec fn time_budget_spec(l: LimitsModel, player: CurrentPlayer) -> Option<u64> {
    if l.infinite || l.ponder {
        None
    } else if l.move_time is Some {
        l.move_time
    } else {
        let remaining = if player == CurrentPlayer::White {
            l.wtime
        } else {
            l.btime
        };
        let increment = if player == CurrentPlayer::White {
            l.winc
        } else {
            l.binc
        };
        match remaining {
            None => None,
            Some(rem) => {
                let inc: int = match increment {
                    Some(i) => i as int,
                    None => 0,
                };
                let mtg: int = match l.moves_to_go {
                    Some(m) => m as int,
                    None => 30,
                };
                let moves = if mtg < 1 {
                    1
                } else {
                    mtg
                };
                let reserve: int = if rem / 10 < 50 {
                    (rem / 10) as int
                } else {
                    50
                };
                let available = rem - reserve;
                let inc4 = if inc * 4 > u64::MAX {
                    u64::MAX as int
                } else {
                    inc * 4
                };
                let sum = (rem as int) / moves + inc4 / 5;
                let share = if sum > u64::MAX {
                    u64::MAX as int
                } else {
                    sum
                };
                Some(
                    (if share < available {
                        share
                    } else {
                        available
                    }) as u64,
                )
            },
        }
    }
}

/// Each keyword of `go` sets the limit of its own name to the number given and leaves
/// every other limit as it was.
pub proof fn lemma_go_keyword_sets_its_limit(l: LimitsModel, v: nat)
    ensures
        set_number(l, "wtime"@, v) == (LimitsModel { wtime: Some(v as u64), ..l }),
        set_number(l, "btime"@, v) == (LimitsModel { btime: Some(v as u64), ..l }),
        set_number(l, "winc"@, v) == (LimitsModel { winc: Some(v as u64), ..l }),
        set_number(l, "binc"@, v) == (LimitsModel { binc: Some(v as u64), ..l }),
        set_number(l, "movestogo"@, v) == (LimitsModel { moves_to_go: Some(v as u32), ..l }),
        set_number(l, "depth"@, v) == (LimitsModel { depth: Some(v as u32), ..l }),
        set_number(l, "nodes"@, v) == (LimitsModel { nodes: Some(v as u64), ..l }),
        set_number(l, "mate"@, v) == (LimitsModel { mate: Some(v as u32), ..l }),
        set_number(l, "movetime"@, v) == (LimitsModel { move_time: Some(v as u64), ..l }),
        set_number(l, "winc"@, v).winc == Some(v as u64) && set_number(l, "winc"@, v).binc
            == l.binc,
        set_number(l, "binc"@, v).binc == Some(v as u64) && set_number(l, "binc"@, v).winc
            == l.winc,
        set_number(l, "wtime"@, v).wtime == Some(v as u64) && set_number(l, "wtime"@, v).btime
            == l.btime,
        set_number(l, "btime"@, v).btime == Some(v as u64) && set_number(l, "btime"@, v).wtime
            == l.wtime,
{
    reveal_strlit("wtime");
    reveal_strlit("btime");
    reveal_strlit("winc");
    reveal_strlit("binc");
    reveal_strlit("movestogo");
    reveal_strlit("depth");
    reveal_strlit("nodes");
    reveal_strlit("mate");
    reveal_strlit("movetime");
    let ks = seq!["wtime"@, "btime"@, "winc"@, "binc"@, "movestogo"@, "depth"@, "nodes"@, "mate"@, "movetime"@];
    assert forall|i: int, j: int| 0 <= i < j < 9 implies #[trigger] ks[i] != #[trigger] ks[j] by {
        if ks[i].len() == ks[j].len() {
            if ks[i][0] == ks[j][0] {
                assert(ks[i][1] != ks[j][1]);
            } else {
                assert(ks[i][0] != ks[j][0]);
            }
        }
    }
    assert(ks[0] == "wtime"@ && ks[1] == "btime"@ && ks[2] == "winc"@ && ks[3] == "binc"@ && ks[4]
        == "movestogo"@ && ks[5] == "depth"@ && ks[6] == "nodes"@ && ks[7] == "mate"@ && ks[8]
        == "movetime"@);
}

/// The budget of the side to move rests on its own clock and increment alone: Black's is
/// White's budget with Black's time and increment in White's place, and neither side's
/// budget changes with the other side's time or increment.
pub proof fn lemma_budget_uses_own_clock(l: LimitsModel, t: Option<u64>, i: Option<u64>)
    ensures
        time_budget_spec(l, CurrentPlayer::Black) == time_budget_spec(
            LimitsModel { wtime: l.btime, winc: l.binc, ..l },
            CurrentPlayer::White,
        ),
        time_budget_spec(l, CurrentPlayer::White) == time_budget_spec(
            LimitsModel { btime: t, binc: i, ..l },
            CurrentPlayer::White,
        ),
        time_budget_spec(l, CurrentPlayer::Black) == time_budget_spec(
            LimitsModel { wtime: t, winc: i, ..l },
            CurrentPlayer::Black,
        ),
{
}

/// With a clock of `rem` ms and an increment of `inc` ms, no move time and no ponder or
/// infinite search, the budget is the clock shared over the moves to go (30 when not
/// given, at least one) plus four fifths of the increment, kept below the clock less its
/// reserve (a tenth, at most 50 ms).
pub proof fn lemma_budget_formula(l: LimitsModel, player: CurrentPlayer, rem: u64, inc: u64)
    requires
        !l.infinite,
        !l.ponder,
        l.move_time is None,
        player == CurrentPlayer::White ==> l.wtime == Some(rem) && l.winc == Some(inc),
        player == CurrentPlayer::Black ==> l.btime == Some(rem) && l.binc == Some(inc),
        inc * 4 <= u64::MAX,
    ensures
        ({
            let moves: int = match l.moves_to_go {
                Some(m) => if m == 0 { 1 } else { m as int },
                None => 30,
            };
            let reserve: int = if rem / 10 < 50 { (rem / 10) as int } else { 50 };
            let share: int = rem as int / moves + (inc * 4) / 5;
            time_budget_spec(l, player) == Some(
                (if share < rem - reserve { share } else { rem - reserve }) as u64,
            )
        }),
{
    let moves: int = match l.moves_to_go {
        Some(m) => if m == 0 { 1 } else { m as int },
        None => 30,
    };
    assert(rem as int / moves <= rem) by (nonlinear_arith)
        requires
            moves >= 1,
    ;
}

/// No budget for an infinite or pondering search; a fixed move time is the budget; a side
/// without a clock has no budget.
pub proof fn lemma_budget_overrides(l: LimitsModel, player: CurrentPlayer)
    ensures
        l.infinite || l.ponder ==> time_budget_spec(l, player) is None,
        !l.infinite && !l.ponder && l.move_time is Some ==> time_budget_spec(l, player)
            == l.move_time,
        !l.infinite && !l.ponder && l.move_time is None && (if player == CurrentPlayer::White {
            l.wtime is None
        } else {
            l.btime is None
        }) ==> time_budget_spec(l, player) is None,
{
}

impl SearchLimits {
    /// The time to spend on a move, in milliseconds (see `time_budget_spec`).
    pub fn time_budget(&self, player: CurrentPlayer) -> (r: Option<u64>)
        ensures
            r == time_budget_spec(self@, player),
    {
        if self.infinite || self.ponder {
            return None;
        }
        if let Some(ms) = self.move_time {
            return Some(ms);
        }
        let (remaining, increment) = match player {
            CurrentPlayer::White => (self.wtime, self.winc),
            CurrentPlayer::Black => (self.btime, self.binc),
        };
        let remaining = match remaining {
            Some(r) => r,
            None => {
                return None;
            },
        };
        let increment = match increment {
            Some(i) => i,
            None => 0,
        };
        let mtg = match self.moves_to_go {
            Some(m) => m,
            None => 30,
        };
        let moves = if mtg < 1 {
            1u64
        } else {
            mtg as u64
        };
        let reserve = if remaining / 10 < 50 {
            remaining / 10
        } else {
            50
        };
        let available = remaining - reserve;
        let inc4 = if increment > u64::MAX / 4 {
            u64::MAX
        } else {
            increment * 4
        };
        let budget = (remaining / moves).saturating_add(inc4 / 5);
        Some(
            if budget < available {
                budget
            } else {
                available
            },
        )
    }
}

} // verus!
