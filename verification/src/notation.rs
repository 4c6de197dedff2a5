use vstd::prelude::*;

use crate::bishop::Bishop;
use crate::board_config::BoardConfig;
use crate::knight::Knight;
use crate::piece::PieceType;
use crate::queen::Queen;
use crate::rook::Rook;
use crate::text::{
    digit_value, is_digit, is_whitespace, is_ws, parse_bounded, parse_decimal, string_from_chars,
};

verus! {

/// What `char::is_lowercase` answers: whether a character has the Unicode `Lowercase`
/// property.
pub uninterp spec fn char_lowercase(c: char) -> bool;

/// Calls `char::is_lowercase`. The contract names its result, and states what its
/// documentation gives for ASCII: exactly `a` to `z` are lower case there. Which other
/// characters are lower case is left to the name.
#[verifier::external_body]
pub(crate) fn is_lowercase(c: char) -> (r: bool)
    ensures
        r == char_lowercase(c),
        (c as u32) < 128 ==> (r <==> 97 <= (c as u32) <= 122),
{
    c.is_lowercase()
}

/// `char::to_ascii_uppercase`: ASCII lower-case letters become upper case, every other
/// character stays.
pub open spec fn ascii_upper(c: char) -> char {
    if 97 <= (c as u32) <= 122 {
        ((c as u32 - 32) as u8) as char
    } else {
        c
    }
}

pub fn to_ascii_upper(c: char) -> (r: char)
    ensures
        r == ascii_upper(c),
{
    let code = c as u32;
    if 97 <= code && code <= 122 {
        ((code - 32) as u8) as char
    } else {
        c
    }
}

/// The number of leading white-space characters of `s`.
pub open spec fn leading_ws(s: Seq<char>, i: int) -> int
    decreases s.len() - i,
{
    if 0 <= i < s.len() && is_ws(s[i]) {
        leading_ws(s, i + 1)
    } else {
        i
    }
}

/// The position after the last character of `s` before `j` that is not white space.
pub open spec fn trailing_end(s: Seq<char>, lo: int, j: int) -> int
    decreases j - lo,
{
    if lo < j && is_ws(s[j - 1]) {
        trailing_end(s, lo, j - 1)
    } else {
        j
    }
}

/// `s` without its leading and trailing white space, as `str::trim` gives it.
pub open spec fn trim_ws(s: Seq<char>) -> Seq<char> {
    let lo = leading_ws(s, 0);
    s.subrange(lo, trailing_end(s, lo, s.len() as int))
}

proof fn lemma_leading_ws(s: Seq<char>, i: int)
    requires
        0 <= i <= s.len(),
    ensures
        i <= leading_ws(s, i) <= s.len(),
    decreases s.len() - i,
{
    if i < s.len() && is_ws(s[i]) {
        lemma_leading_ws(s, i + 1);
    }
}

proof fn lemma_trailing_end(s: Seq<char>, lo: int, j: int)
    requires
        0 <= lo <= j <= s.len(),
    ensures
        lo <= trailing_end(s, lo, j) <= j,
    decreases j - lo,
{
    if lo < j && is_ws(s[j - 1]) {
        lemma_trailing_end(s, lo, j - 1);
    }
}

/// The characters of `s` without its leading and trailing white space.
pub fn trim_chars(s: &Vec<char>) -> (r: Vec<char>)
    ensures
        r@ == trim_ws(s@),
{
    let n = s.len();
    let mut lo: usize = 0;
    while lo < n && is_whitespace(s[lo])
        invariant
            lo <= n,
            n == s@.len(),
            leading_ws(s@, 0) == leading_ws(s@, lo as int),
        decreases n - lo,
    {
        lo = lo + 1;
    }
    let mut hi: usize = n;
    while hi > lo && is_whitespace(s[hi - 1])
        invariant
            lo <= hi <= n,
            n == s@.len(),
            leading_ws(s@, 0) == lo,
            trailing_end(s@, lo as int, n as int) == trailing_end(s@, lo as int, hi as int),
        decreases hi,
    {
        hi = hi - 1;
    }
    let mut r: Vec<char> = Vec::new();
    let mut i: usize = lo;
    while i < hi
        invariant
            lo <= i <= hi <= n,
            n == s@.len(),
            r@ == s@.subrange(lo as int, i as int),
        decreases hi - i,
    {
        r.push(s[i]);
        i = i + 1;
        assert(r@ =~= s@.subrange(lo as int, i as int));
    }
    r
}

/// The piece an upper-case letter `Q`, `R`, `B` or `N` names.
pub open spec fn promotion_letter(c: char) -> Option<PieceType> {
    if c == 'Q' {
        Some(PieceType::Queen(Queen))
    } else if c == 'R' {
        Some(PieceType::Rook(Rook))
    } else if c == 'B' {
        Some(PieceType::Bishop(Bishop))
    } else if c == 'N' {
        Some(PieceType::Knight(Knight))
    } else {
        None
    }
}

pub fn promotion_from_letter(c: char) -> (r: Option<PieceType>)
    ensures
        r == promotion_letter(c),
{
    if c == 'Q' {
        Some(PieceType::Queen(Queen))
    } else if c == 'R' {
        Some(PieceType::Rook(Rook))
    } else if c == 'B' {
        Some(PieceType::Bishop(Bishop))
    } else if c == 'N' {
        Some(PieceType::Knight(Knight))
    } else {
        None
    }
}

/// Why a move in algebraic notation is refused.
#[derive(Clone, Copy, Debug, PartialEq, Eq, Structural)]
pub enum SanError {
    CastlingIllegal,
    InvalidPromotion(char),
    TooShort,
    InvalidRank,
    InvalidFile,
    InvalidSquare,
    NoPiece,
    NoMove,
    NoDisambiguated(char),
    Ambiguous,
}

impl SanError {
    /// The message of the error about the move `t`.
    pub open spec fn text(self, t: Seq<char>) -> Seq<char> {
        match self {
            SanError::CastlingIllegal => "Castling move is illegal in this position"@,
            SanError::InvalidPromotion(c) => "Invalid promotion piece: "@ + seq![c],
            SanError::TooShort => "Invalid chess notation: too short ('"@ + t + "')"@,
            SanError::InvalidRank => "Invalid chess notation: invalid destination rank"@,
            SanError::InvalidFile => "Invalid chess notation: invalid destination file"@,
            SanError::InvalidSquare => "Invalid chess notation: invalid destination square"@,
            SanError::NoPiece => "No valid source piece found for move '"@ + t + "'"@,
            SanError::NoMove => "No piece of that type can move to the destination square in '"@
                + t + "'"@,
            SanError::NoDisambiguated(d) => "No valid move found matching the disambiguator '"@
                + seq![d] + "'"@,
            SanError::Ambiguous => "Ambiguous move '"@ + t + "'. Multiple pieces can move there."@,
        }
    }

    /// The message of the error about the move `t`.
    pub fn message(&self, t: &Vec<char>) -> (r: String)
        ensures
            r@ == self.text(t@),
    {
        let ts = string_from_chars(t);
        match self {
            SanError::CastlingIllegal => String::from_str("Castling move is illegal in this position"),
            SanError::InvalidPromotion(c) => {
                let mut v: Vec<char> = Vec::new();
                v.push(*c);
                let cs = string_from_chars(&v);
                String::from_str("Invalid promotion piece: ").concat(cs.as_str())
            },
            SanError::TooShort => String::from_str("Invalid chess notation: too short ('").concat(
                ts.as_str(),
            ).concat("')"),
            SanError::InvalidRank => String::from_str("Invalid chess notation: invalid destination rank"),
            SanError::InvalidFile => String::from_str("Invalid chess notation: invalid destination file"),
            SanError::InvalidSquare => String::from_str(
                "Invalid chess notation: invalid destination square",
            ),
            SanError::NoPiece => String::from_str("No valid source piece found for move '").concat(
                ts.as_str(),
            ).concat("'"),
            SanError::NoMove => String::from_str(
                "No piece of that type can move to the destination square in '",
            ).concat(ts.as_str()).concat("'"),
            SanError::NoDisambiguated(d) => {
                let mut v: Vec<char> = Vec::new();
                v.push(*d);
                let ds = string_from_chars(&v);
                String::from_str("No valid move found matching the disambiguator '").concat(
                    ds.as_str(),
                ).concat("'")
            },
            SanError::Ambiguous => String::from_str("Ambiguous move '").concat(ts.as_str()).concat(
                "'. Multiple pieces can move there.",
            ),
        }
    }
}

/// The first position of `c` in `s` at or after `i`.
pub open spec fn find_char(s: Seq<char>, c: char, i: int) -> Option<int>
    decreases s.len() - i,
{
    if i < 0 || i >= s.len() {
        None
    } else if s[i] == c {
        Some(i)
    } else {
        find_char(s, c, i + 1)
    }
}

/// The number of bytes of `c` in UTF-8.
pub open spec fn utf8_len(c: char) -> nat {
    if (c as u32) < 0x80 {
        1
    } else if (c as u32) < 0x800 {
        2
    } else if (c as u32) < 0x10000 {
        3
    } else {
        4
    }
}

/// How many more bytes than characters the first `n` characters of `t` take in UTF-8.
pub open spec fn extra_bytes(t: Seq<char>, n: int) -> nat
    decreases n,
{
    if n <= 0 {
        0
    } else {
        extra_bytes(t, n - 1) + (utf8_len(t[n - 1]) - 1) as nat
    }
}

/// Where the promotion letter is read when `=` stands at `e`: the position of `=` counted
/// in bytes, plus one, taken as a count of characters (the same place as the character
/// after `=` when everything before `=` is ASCII).
pub open spec fn promotion_index(t: Seq<char>, e: int) -> int {
    e + 1 + extra_bytes(t, e)
}

/// A character stands where the promotion letter is read, whenever one is read.
pub open spec fn promotion_readable(t: Seq<char>) -> bool {
    match find_char(t, '=', 0) {
        Some(e) => e + 1 < t.len() ==> promotion_index(t, e) < t.len(),
        None => true,
    }
}

/// The promotion piece a move names and the rest of the move: a letter after `=` (see
/// `promotion_index`), or, for a move that starts with a lower-case letter, a last letter
/// `Q`, `R`, `B` or `N` (in either case).
pub open spec fn san_promotion(t: Seq<char>) -> Result<(PieceType, Seq<char>), SanError> {
    match find_char(t, '=', 0) {
        Some(e) => if e + 1 < t.len() {
            match promotion_letter(ascii_upper(t[promotion_index(t, e)])) {
                Some(p) => Ok((p, t.subrange(0, e))),
                None => Err(SanError::InvalidPromotion(t[promotion_index(t, e)])),
            }
        } else {
            Ok((PieceType::Empty, t))
        },
        None => if t.len() > 0 && char_lowercase(t[0]) {
            match promotion_letter(ascii_upper(t.last())) {
                Some(p) => Ok((p, t.drop_last())),
                None => Ok((PieceType::Empty, t)),
            }
        } else {
            Ok((PieceType::Empty, t))
        },
    }
}

/// The characters of `w` without the marks `+`, `#` and `x`.
pub open spec fn strip_marks(w: Seq<char>) -> Seq<char>
    decreases w.len(),
{
    if w.len() == 0 {
        Seq::empty()
    } else {
        let rest = strip_marks(w.drop_last());
        let c = w.last();
        if c == '+' || c == '#' || c == 'x' {
            rest
        } else {
            rest.push(c)
        }
    }
}

/// Where the digits at the end of `s` start (`s.len()` when it does not end in a digit).
pub open spec fn trailing_digits_start(s: Seq<char>, j: int) -> int
    decreases j,
{
    if j > 0 && is_digit(s[j - 1]) {
        trailing_digits_start(s, j - 1)
    } else {
        j
    }
}

pub proof fn lemma_trailing_digits(s: Seq<char>, j: int)
    requires
        0 <= j <= s.len(),
    ensures
        0 <= trailing_digits_start(s, j) <= j,
        forall|k: int| trailing_digits_start(s, j) <= k < j ==> is_digit(#[trigger] s[k]),
        trailing_digits_start(s, j) > 0 ==> !is_digit(s[trailing_digits_start(s, j) - 1]),
    decreases j,
{
    if j > 0 && is_digit(s[j - 1]) {
        lemma_trailing_digits(s, j - 1);
    }
}

/// The destination square of a move without marks, and where its rank number starts.
pub open spec fn san_destination<C: BoardConfig>(cl: Seq<char>) -> Result<(nat, int), SanError> {
    if cl.len() < 2 {
        Err(SanError::TooShort)
    } else {
        let rs = trailing_digits_start(cl, cl.len() as int);
        if rs == cl.len() {
            Err(SanError::InvalidRank)
        } else if rs == 0 {
            Err(SanError::InvalidFile)
        } else {
            let code = cl[rs - 1] as u32;
            match parse_bounded(cl.subrange(rs, cl.len() as int), usize::MAX as nat) {
                None => Err(SanError::InvalidRank),
                Some(rank) => if code < 97 || code > 122 || code - 97 >= C::spec_width() || rank
                    < 1 || rank > C::spec_height() {
                    Err(SanError::InvalidSquare)
                } else {
                    Ok((((C::spec_height() - rank) * C::spec_width() + (code - 97)) as nat, rs))
                },
            }
        }
    }
}

/// The candidate `c` agrees with the disambiguator `d`: a file letter `a` to `h` names its
/// column, a digit its rank number.
pub open spec fn disambiguates<C: BoardConfig>(c: nat, d: char) -> bool {
    if 97 <= (d as u32) <= 104 {
        c % C::spec_width() == (d as u32) - 97
    } else if is_digit(d) {
        c / C::spec_width() == C::spec_height() - digit_value(d)
    } else {
        false
    }
}

/// A rank digit keeps exactly the squares on that rank counted from White's side: the
/// square's row (counted from the top) and the digit add up to the board's height, so `1`
/// keeps the bottom row and the height's digit the top row.
pub proof fn lemma_rank_disambiguator<C: BoardConfig>(c: nat, d: char)
    requires
        '0' <= d <= '9',
    ensures
        disambiguates::<C>(c, d) <==> c / C::spec_width() + digit_value(d) == C::spec_height(),
        d == '1' ==> (disambiguates::<C>(c, d) <==> c / C::spec_width() == C::spec_height() - 1),
{
    assert((d as u32) as int == d as int);
    assert('0' as int == 48 && '9' as int == 57 && '1' as int == 49);
    assert(!(97 <= (d as u32) <= 104));
    assert(is_digit(d));
    C::lemma_dims();
}

/// A file letter keeps exactly the squares of that column, `a` the first.
pub proof fn lemma_file_disambiguator<C: BoardConfig>(c: nat, d: char)
    requires
        'a' <= d <= 'h',
    ensures
        disambiguates::<C>(c, d) <==> c % C::spec_width() + 97 == d as u32,
        d == 'a' ==> (disambiguates::<C>(c, d) <==> c % C::spec_width() == 0),
{
    assert((d as u32) as int == d as int);
    assert('a' as int == 97 && 'h' as int == 104);
    C::lemma_dims();
}

/// Reading more characters never lowers the count of extra bytes.
proof fn lemma_extra_bytes_grow(t: Seq<char>, a: int, b: int)
    requires
        0 <= a <= b,
    ensures
        extra_bytes(t, a) <= extra_bytes(t, b),
    decreases b - a,
{
    if a < b {
        lemma_extra_bytes_grow(t, a, b - 1);
    }
}

/// The number of bytes of `c` in UTF-8, less one.
fn utf8_extra(c: char) -> (r: usize)
    ensures
        r == utf8_len(c) - 1,
{
    let v = c as u32;
    if v < 0x80 {
        0
    } else if v < 0x800 {
        1
    } else if v < 0x10000 {
        2
    } else {
        3
    }
}

/// Where the promotion letter is read when `=` stands at `e` (see `promotion_index`).
fn promotion_index_exec(t: &Vec<char>, e: usize) -> (r: usize)
    requires
        e < t@.len(),
        promotion_index(t@, e as int) < t@.len(),
    ensures
        r == promotion_index(t@, e as int),
{
    let n = t.len();
    let mut extra: usize = 0;
    let mut k: usize = 0;
    while k < e
        invariant
            k <= e < t@.len(),
            n == t@.len(),
            promotion_index(t@, e as int) < t@.len(),
            extra == extra_bytes(t@, k as int),
        decreases e - k,
    {
        proof {
            lemma_extra_bytes_grow(t@, k as int + 1, e as int);
            assert(extra_bytes(t@, k as int + 1) == extra_bytes(t@, k as int) + (utf8_len(t@[k as int]) - 1) as nat);
        }
        extra = extra + utf8_extra(t[k]);
        k = k + 1;
    }
    e + 1 + extra
}

/// The first position of `c` in `s`.
pub fn find_char_exec(s: &Vec<char>, c: char) -> (r: Option<usize>)
    ensures
        match find_char(s@, c, 0) {
            Some(k) => r == Some(k as usize) && 0 <= k < s@.len(),
            None => r is None,
        },
{
    let n = s.len();
    let mut i: usize = 0;
    while i < n
        invariant
            i <= n,
            n == s@.len(),
            find_char(s@, c, 0) == find_char(s@, c, i as int),
        decreases n - i,
    {
        if s[i] == c {
            return Some(i);
        }
        i = i + 1;
    }
    None
}

fn prefix(s: &Vec<char>, k: usize) -> (r: Vec<char>)
    requires
        k <= s@.len(),
    ensures
        r@ == s@.subrange(0, k as int),
{
    let mut r: Vec<char> = Vec::new();
    let mut i: usize = 0;
    while i < k
        invariant
            i <= k <= s@.len(),
            r@ == s@.subrange(0, i as int),
        decreases k - i,
    {
        r.push(s[i]);
        i = i + 1;
        assert(r@ =~= s@.subrange(0, i as int));
    }
    r
}

fn suffix(s: &Vec<char>, k: usize) -> (r: Vec<char>)
    requires
        k <= s@.len(),
    ensures
        r@ == s@.subrange(k as int, s@.len() as int),
{
    let mut r: Vec<char> = Vec::new();
    let mut i: usize = k;
    while i < s.len()
        invariant
            k <= i <= s@.len(),
            r@ == s@.subrange(k as int, i as int),
        decreases s@.len() - i,
    {
        r.push(s[i]);
        i = i + 1;
        assert(r@ =~= s@.subrange(k as int, i as int));
    }
    r
}

/// The promotion piece a move names and the rest of the move (see `san_promotion`).
pub fn split_promotion(t: &Vec<char>) -> (r: Result<(PieceType, Vec<char>), SanError>)
    requires
        promotion_readable(t@),
    ensures
        match san_promotion(t@) {
            Ok((p, w)) => r matches Ok((q, v)) && q == p && v@ == w,
            Err(e) => r matches Err(x) && x == e,
        },
{
    match find_char_exec(t, '=') {
        Some(e) => {
            if e < t.len() - 1 {
                let c = t[promotion_index_exec(t, e)];
                match promotion_from_letter(to_ascii_upper(c)) {
                    Some(p) => Ok((p, prefix(t, e))),
                    None => Err(SanError::InvalidPromotion(c)),
                }
            } else {
                Ok((PieceType::Empty, prefix(t, t.len())))
            }
        },
        None => {
            if t.len() > 0 && is_lowercase(t[0]) {
                let last = t[t.len() - 1];
                match promotion_from_letter(to_ascii_upper(last)) {
                    Some(p) => {
                        let w = prefix(t, t.len() - 1);
                        assert(w@ =~= t@.drop_last());
                        Ok((p, w))
                    },
                    None => Ok((PieceType::Empty, prefix(t, t.len()))),
                }
            } else {
                Ok((PieceType::Empty, prefix(t, t.len())))
            }
        },
    }
}

/// The characters of `w` without the marks `+`, `#` and `x`.
pub fn strip_marks_exec(w: &Vec<char>) -> (r: Vec<char>)
    ensures
        r@ == strip_marks(w@),
{
    let mut r: Vec<char> = Vec::new();
    let mut i: usize = 0;
    while i < w.len()
        invariant
            i <= w@.len(),
            r@ == strip_marks(w@.subrange(0, i as int)),
        decreases w@.len() - i,
    {
        let c = w[i];
        assert(w@.subrange(0, i as int + 1).drop_last() =~= w@.subrange(0, i as int));
        if !(c == '+' || c == '#' || c == 'x') {
            r.push(c);
        }
        i = i + 1;
    }
    assert(w@.subrange(0, i as int) =~= w@);
    r
}

/// The destination square of a move without marks and where its rank number starts (see
/// `san_destination`).
pub fn destination<C: BoardConfig>(cl: &Vec<char>) -> (r: Result<(usize, usize), SanError>)
    ensures
        match san_destination::<C>(cl@) {
            Ok((d, rs)) => r == Ok::<(usize, usize), SanError>((d as usize, rs as usize)) && d
                < C::spec_width() * C::spec_height() && 1 <= rs < cl@.len(),
            Err(e) => r matches Err(x) && x == e,
        },
{
    proof {
        C::lemma_dims();
    }
    let n = cl.len();
    if n < 2 {
        return Err(SanError::TooShort);
    }
    let mut rs: usize = n;
    while rs > 0 && '0' <= cl[rs - 1] && cl[rs - 1] <= '9'
        invariant
            rs <= n,
            n == cl@.len(),
            trailing_digits_start(cl@, n as int) == trailing_digits_start(cl@, rs as int),
        decreases rs,
    {
        rs = rs - 1;
    }
    proof {
        lemma_trailing_digits(cl@, n as int);
    }
    if rs == n {
        return Err(SanError::InvalidRank);
    }
    if rs == 0 {
        return Err(SanError::InvalidFile);
    }
    let code = cl[rs - 1] as u32;
    let digits = suffix(cl, rs);
    let rank = match parse_decimal(&digits, usize::MAX as u64) {
        Some(v) => v,
        None => {
            return Err(SanError::InvalidRank);
        },
    };
    let w = C::width();
    let h = C::height();
    if code < 97 || code > 122 || (code - 97) as usize >= w || rank < 1 || rank > h as u64 {
        return Err(SanError::InvalidSquare);
    }
    let rank = rank as usize;
    let file = (code - 97) as usize;
    proof {
        assert((h - rank) * w + file < h * w) by (nonlinear_arith)
            requires
                1 <= rank <= h,
                file < w,
        ;
    }
    Ok(((h - rank) * w + file, rs))
}

/// Whether the candidate `c` agrees with the disambiguator `d` (see `disambiguates`).
pub fn disambiguates_exec<C: BoardConfig>(c: usize, d: char) -> (r: bool)
    ensures
        r == disambiguates::<C>(c as nat, d),
{
    proof {
        C::lemma_dims();
    }
    let code = d as u32;
    let w = C::width();
    if 97 <= code && code <= 104 {
        c % w == (code - 97) as usize
    } else if '0' <= d && d <= '9' {
        let digit = (code - 48) as usize;
        assert(digit as nat == digit_value(d)) by {
            assert((d as u32) as int == d as int);
        }
        let h = C::height();
        if digit > h {
            false
        } else {
            c / w == h - digit
        }
    } else {
        false
    }
}

} // verus!
