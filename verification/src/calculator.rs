//! The calculator protocol: a client sends `"<number> <operator> <number>"`,
//! the server answers with the sum or difference, or with an error text.
use crate::number::{i32_to_string, parse_i32, spec_decimal, spec_parse_i32};
use crate::text::{
    chars_of,
    spec_split,
    spec_trim,
    split,
    trim,
    views,
};
use vstd::prelude::*;

verus! {

/// Why the server refuses a calculation.
#[derive(Debug, Clone, Copy, PartialEq, Eq)]
pub enum CalcError {
    /// The first or the third word is not an `i32`.
    InvalidNumbers,
    /// The request has more than three words.
    InvalidLength,
    /// The operator is neither `+` nor `-`.
    InvalidOperator,
}

impl CalcError {
    /// The text that the server reports for this error.
    pub open spec fn spec_message(self) -> Seq<char> {
        match self {
            CalcError::InvalidNumbers => "Invalid numbers"@,
            CalcError::InvalidLength => "Invalid calculation length. Has to be 2 numbers with 1 operator"@,
            CalcError::InvalidOperator => "Invalid operator. Valid are + and -"@,
        }
    }

    /// The text that the server reports for this error.
    pub fn message(&self) -> (r: String)
        ensures
            r@ == self.spec_message(),
    {
        match self {
            CalcError::InvalidNumbers => String::from_str("Invalid numbers"),
            CalcError::InvalidLength => String::from_str(
                "Invalid calculation length. Has to be 2 numbers with 1 operator",
            ),
            CalcError::InvalidOperator => String::from_str("Invalid operator. Valid are + and -"),
        }
    }
}

/// The words of a request: the trimmed text split at each single space.
pub open spec fn request_words(request: Seq<char>) -> Seq<Seq<char>> {
    spec_split(spec_trim(request), seq![' '])
}

/// What the server computes for `request`; `None` where it aborts (fewer
/// than three words, or a result outside `i32`).
pub open spec fn spec_calculate(request: Seq<char>) -> Option<Result<i32, CalcError>> {
    let w = request_words(request);
    if w.len() < 3 {
        None
    } else {
        match (spec_parse_i32(w[0]), spec_parse_i32(w[2])) {
            (Some(a), Some(b)) => if w.len() != 3 {
                Some(Err(CalcError::InvalidLength))
            } else if w[1] == seq!['+'] {
                if i32::MIN <= a + b <= i32::MAX {
                    Some(Ok((a + b) as i32))
                } else {
                    None
                }
            } else if w[1] == seq!['-'] {
                if i32::MIN <= a - b <= i32::MAX {
                    Some(Ok((a - b) as i32))
                } else {
                    None
                }
            } else {
                Some(Err(CalcError::InvalidOperator))
            },
            _ => Some(Err(CalcError::InvalidNumbers)),
        }
    }
}

/// Whether `w` is the one-character word `c`.
fn is_word(w: &Vec<char>, c: char) -> (r: bool)
    ensures
        r == (w@ == seq![c]),
{
    let r = w.len() == 1 && w[0] == c;
    if r {
        assert(w@ == seq![c]);
    }
    r
}

/// The server's answer to `request`, or `None` where the server aborts:
/// where the trimmed request has fewer than three words, or where the sum
/// or difference leaves the `i32` range.
pub fn calculate_checked(request: &str) -> (r: Option<Result<i32, CalcError>>)
    ensures
        r == spec_calculate(request@),
{
    let text = chars_of(request);
    let trimmed = trim(&text);
    let space = vec![' '];
    assert(space@ == seq![' ']);
    let words = split(&trimmed, &space);
    assert(views(words@) == request_words(request@));
    if words.len() < 3 {
        return None;
    }
    assert(words@[0]@ == request_words(request@)[0]);
    assert(words@[1]@ == request_words(request@)[1]);
    assert(words@[2]@ == request_words(request@)[2]);
    let first = parse_i32(&words[0]);
    let second = parse_i32(&words[2]);
    match (first, second) {
        (Some(a), Some(b)) => {
            if words.len() != 3 {
                Some(Err(CalcError::InvalidLength))
            } else if is_word(&words[1], '+') {
                let s = a as i64 + b as i64;
                if s < i32::MIN as i64 || s > i32::MAX as i64 {
                    None
                } else {
                    Some(Ok(s as i32))
                }
            } else if is_word(&words[1], '-') {
                let d = a as i64 - b as i64;
                if d < i32::MIN as i64 || d > i32::MAX as i64 {
                    None
                } else {
                    Some(Ok(d as i32))
                }
            } else {
                Some(Err(CalcError::InvalidOperator))
            }
        },
        _ => Some(Err(CalcError::InvalidNumbers)),
    }
}

/// The server's answer to `request`: the sum or difference of the two
/// numbers, or why the request is refused. Requests on which the server
/// aborts are not admitted (see `calculate_checked`).
pub fn calculate(request: &str) -> (r: Result<i32, CalcError>)
    requires
        spec_calculate(request@) is Some,
    ensures
        spec_calculate(request@) == Some(r),
{
    match calculate_checked(request) {
        Some(r) => r,
        None => {
            assert(false);
            Err(CalcError::InvalidNumbers)
        },
    }
}

/// What a calculator server does with a request: the result text to send
/// back, if any, and the error text to report (empty on success).
pub struct Answer {
    pub result: Option<String>,
    pub error: String,
}

/// The answer to `request`: on success the decimal result is sent and the
/// error text is empty; on refusal nothing is sent and the error text says
/// why. `None` where the server aborts (see `calculate_checked`).
pub fn answer(request: &str) -> (r: Option<Answer>)
    ensures
        r is None <==> spec_calculate(request@) is None,
        r matches Some(a) ==> match spec_calculate(request@) {
            Some(Ok(v)) => a.result matches Some(t) && t@ == spec_decimal(v as int) && a.error@
                == Seq::<char>::empty(),
            Some(Err(e)) => a.result is None && a.error@ == e.spec_message(),
            None => false,
        },
{
    match calculate_checked(request) {
        None => None,
        Some(Ok(v)) => Some(Answer { result: Some(i32_to_string(v)), error: String::new() }),
        Some(Err(e)) => Some(Answer { result: None, error: e.message() }),
    }
}

/// A calculation has exactly three words: a request whose trimmed text
/// splits at single spaces into more than three words, the first and third
/// of them numbers, is refused as too long and never computed.
pub proof fn lemma_more_than_three_words_refused(request: Seq<char>)
    requires
        spec_split(spec_trim(request), seq![' ']).len() > 3,
        spec_parse_i32(spec_split(spec_trim(request), seq![' '])[0]) is Some,
        spec_parse_i32(spec_split(spec_trim(request), seq![' '])[2]) is Some,
    ensures
        spec_calculate(request) == Some(Err::<i32, CalcError>(CalcError::InvalidLength)),
{
}

/// Three words, two of them numbers and `+` or `-` between: the answer is
/// the sum or the difference, and the server aborts exactly where that
/// leaves the `i32` range; any other middle word is refused as an operator.
pub proof fn lemma_three_words_computed(request: Seq<char>, a: i32, b: i32)
    requires
        spec_split(spec_trim(request), seq![' ']).len() == 3,
        spec_parse_i32(spec_split(spec_trim(request), seq![' '])[0]) == Some(a),
        spec_parse_i32(spec_split(spec_trim(request), seq![' '])[2]) == Some(b),
    ensures
        spec_split(spec_trim(request), seq![' '])[1] == seq!['+'] ==> spec_calculate(request) == (
        if i32::MIN <= a + b <= i32::MAX {
            Some(Ok::<i32, CalcError>((a + b) as i32))
        } else {
            None
        }),
        spec_split(spec_trim(request), seq![' '])[1] == seq!['-'] ==> spec_calculate(request) == (
        if i32::MIN <= a - b <= i32::MAX {
            Some(Ok::<i32, CalcError>((a - b) as i32))
        } else {
            None
        }),
        spec_split(spec_trim(request), seq![' '])[1] != seq!['+'] && spec_split(
            spec_trim(request),
            seq![' '],
        )[1] != seq!['-'] ==> spec_calculate(request) == Some(
            Err::<i32, CalcError>(CalcError::InvalidOperator),
        ),
{
    let w = spec_split(spec_trim(request), seq![' ']);
    if w[1] == seq!['-'] {
        assert(w[1][0] == '-');
        assert(seq!['+'][0] == '+');
    }
}

/// A request of three or more words whose first or third word is not a
/// number is refused for its numbers; one of fewer than three words makes
/// the server abort.
pub proof fn lemma_bad_numbers_refused(request: Seq<char>)
    ensures
        spec_split(spec_trim(request), seq![' ']).len() < 3 ==> spec_calculate(request) is None,
        spec_split(spec_trim(request), seq![' ']).len() >= 3 && (spec_parse_i32(
            spec_split(spec_trim(request), seq![' '])[0],
        ) is None || spec_parse_i32(spec_split(spec_trim(request), seq![' '])[2]) is None)
            ==> spec_calculate(request) == Some(Err::<i32, CalcError>(CalcError::InvalidNumbers)),
{
}

} // verus!
