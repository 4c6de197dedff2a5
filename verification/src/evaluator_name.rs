use vstd::prelude::*;

use crate::text::{chars_of, string_from_chars};

verus! {

/// The evaluator that the `Evaluator` option names.
#[derive(Clone, Debug, PartialEq, Eq)]
pub enum EvaluatorChoice {
    /// The material count.
    Simple,
    /// A learned model read from the file at the path.
    Ml(String),
    /// A layered learned model read from the file at the path.
    LayeredMl(String),
}

/// Why a name names no evaluator.
#[derive(Clone, Copy, Debug, PartialEq, Eq, Structural)]
pub enum EvaluatorNameError {
    /// Starts as `ml` but is not `ml(path)`.
    MlFormat,
    /// Starts as `layeredml` but is not `layeredml(path)`.
    LayeredMlFormat,
    /// Names nothing known.
    Unknown,
}

/// `p` begins `s`.
pub open spec fn has_prefix(s: Seq<char>, p: Seq<char>) -> bool {
    p.len() <= s.len() && s.subrange(0, p.len() as int) == p
}

/// What stands between `open` and a closing bracket that ends `s`, when `s` is written so.
pub open spec fn bracketed(s: Seq<char>, open: Seq<char>) -> Option<Seq<char>> {
    if has_prefix(s, open) && s.len() > open.len() && s.last() == ')' {
        Some(s.subrange(open.len() as int, s.len() - 1))
    } else {
        None
    }
}

pub open spec fn simple_name() -> Seq<char> {
    seq!['s', 'i', 'm', 'p', 'l', 'e']
}

pub open spec fn ml_name() -> Seq<char> {
    seq!['m', 'l']
}

pub open spec fn layered_name() -> Seq<char> {
    seq!['l', 'a', 'y', 'e', 'r', 'e', 'd', 'm', 'l']
}

/// Whether the characters of `s` begin with those of `p`.
fn starts_with_chars(s: &Vec<char>, p: &Vec<char>) -> (r: bool)
    ensures
        r == has_prefix(s@, p@),
{
    if p.len() > s.len() {
        return false;
    }
    let mut i: usize = 0;
    while i < p.len()
        invariant
            p@.len() <= s@.len(),
            i <= p@.len(),
            forall|j: int| 0 <= j < i ==> s@[j] == p@[j],
        decreases p@.len() - i,
    {
        if s[i] != p[i] {
            assert(s@.subrange(0, p@.len() as int)[i as int] != p@[i as int]);
            return false;
        }
        i = i + 1;
    }
    assert(s@.subrange(0, p@.len() as int) =~= p@);
    true
}

/// The characters of `s` from `lo` up to `hi`.
fn chars_between(s: &Vec<char>, lo: usize, hi: usize) -> (r: Vec<char>)
    requires
        lo <= hi <= s@.len(),
    ensures
        r@ == s@.subrange(lo as int, hi as int),
{
    let mut r: Vec<char> = Vec::new();
    let mut i: usize = lo;
    while i < hi
        invariant
            lo <= i <= hi <= s@.len(),
            r@ == s@.subrange(lo as int, i as int),
        decreases hi - i,
    {
        r.push(s[i]);
        i = i + 1;
        assert(r@ =~= s@.subrange(lo as int, i as int));
    }
    r
}

/// The inside of `s` written as `open`, an inside and a closing bracket.
fn bracketed_exec(s: &Vec<char>, open: &Vec<char>) -> (r: Option<String>)
    ensures
        match bracketed(s@, open@) {
            Some(inner) => r matches Some(t) && t@ == inner,
            None => r is None,
        },
{
    if starts_with_chars(s, open) && s.len() > open.len() && s[s.len() - 1] == ')' {
        let inner = chars_between(s, open.len(), s.len() - 1);
        Some(string_from_chars(&inner))
    } else {
        None
    }
}

/// Reads the value of the `Evaluator` option: `simple`, `ml(path)` or `layeredml(path)`.
/// A name that starts as `ml` or `layeredml` without the brackets around a path is refused
/// with the form it should have had.
pub fn choose_evaluator(name: &str) -> (r: Result<EvaluatorChoice, EvaluatorNameError>)
    ensures
        name@ == simple_name() ==> r matches Ok(EvaluatorChoice::Simple),
        name@ != simple_name() && has_prefix(name@, ml_name()) ==> match bracketed(
            name@,
            ml_name().push('('),
        ) {
            Some(path) => r matches Ok(EvaluatorChoice::Ml(p)) && p@ == path,
            None => r == Err::<EvaluatorChoice, EvaluatorNameError>(EvaluatorNameError::MlFormat),
        },
        name@ != simple_name() && !has_prefix(name@, ml_name()) && has_prefix(
            name@,
            layered_name(),
        ) ==> match bracketed(name@, layered_name().push('(')) {
            Some(path) => r matches Ok(EvaluatorChoice::LayeredMl(p)) && p@ == path,
            None => r == Err::<EvaluatorChoice, EvaluatorNameError>(
                EvaluatorNameError::LayeredMlFormat,
            ),
        },
        name@ != simple_name() && !has_prefix(name@, ml_name()) && !has_prefix(
            name@,
            layered_name(),
        ) ==> r == Err::<EvaluatorChoice, EvaluatorNameError>(EvaluatorNameError::Unknown),
{
    let s = chars_of(name);
    let simple = vec!['s', 'i', 'm', 'p', 'l', 'e'];
    let ml = vec!['m', 'l'];
    let layered = vec!['l', 'a', 'y', 'e', 'r', 'e', 'd', 'm', 'l'];
    proof {
        assert(simple@ =~= simple_name());
        assert(ml@ =~= ml_name());
        assert(layered@ =~= layered_name());
    }
    if s.len() == simple.len() && starts_with_chars(&s, &simple) {
        proof {
            assert(s@ =~= s@.subrange(0, simple@.len() as int));
        }
        return Ok(EvaluatorChoice::Simple);
    }
    proof {
        if s@ == simple_name() {
            assert(s@.subrange(0, simple@.len() as int) =~= s@);
        }
    }
    if starts_with_chars(&s, &ml) {
        let mut open = ml.clone();
        open.push('(');
        proof {
            assert(open@ =~= ml_name().push('('));
        }
        return match bracketed_exec(&s, &open) {
            Some(path) => Ok(EvaluatorChoice::Ml(path)),
            None => Err(EvaluatorNameError::MlFormat),
        };
    }
    if starts_with_chars(&s, &layered) {
        let mut open = layered.clone();
        open.push('(');
        proof {
            assert(open@ =~= layered_name().push('('));
        }
        return match bracketed_exec(&s, &open) {
            Some(path) => Ok(EvaluatorChoice::LayeredMl(path)),
            None => Err(EvaluatorNameError::LayeredMlFormat),
        };
    }
    Err(EvaluatorNameError::Unknown)
}

} // verus!
