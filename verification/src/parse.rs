//! Reading an adjacency matrix from text.
//!
//! Every line of the text is one row of the matrix. The numbers of a row are
//! the runs of digits in its line; whatever stands between them is skipped.

use vstd::prelude::*;

verus! {

/// The pattern of one number: a run of one or more digits.
pub const DIGIT_RUN: &'static str = "\\d+";

/// Why a text could not be read as a matrix.
#[derive(Clone, Copy, Debug, PartialEq, Eq, Structural)]
pub enum ParseError {
    /// The pattern for a number does not compile.
    Pattern,
    /// A run of digits is not a number that fits an `i32`.
    Number,
}

/// The error with which the `regex` crate refuses a pattern.
#[verifier::external_type_specification]
#[verifier::external_body]
pub struct ExRegexError(regex::Error);

/// The successive non-overlapping matches of a pattern in a text, each as the
/// characters it covers, or `None` where the pattern does not compile.
pub uninterp spec fn regex_matches(pattern: Seq<char>, text: Seq<char>) -> Option<Seq<Seq<char>>>;

/// Compiles `pattern` with `regex::Regex::new` and collects what
/// `regex::Regex::find_iter` yields on `text`, each match as the characters
/// of `Match::as_str`.
///
/// Nothing is proved of this function. Its contract claims only that the
/// outcome is determined by the pattern and the text: it is the value that
/// [`regex_matches`] names, and the error of `Regex::new` where there is none.
#[verifier::external_body]
fn find_matches(pattern: &str, text: &str) -> (r: Result<Vec<Vec<char>>, regex::Error>)
    ensures
        match r {
            Ok(found) => regex_matches(pattern@, text@) == Some(found.deep_view()),
            Err(_) => regex_matches(pattern@, text@) is None,
        },
{
    match regex::Regex::new(pattern) {
        Ok(re) => {
            let mut found: Vec<Vec<char>> = Vec::new();
            for m in re.find_iter(text) {
                found.push(m.as_str().chars().collect());
            }
            Ok(found)
        },
        Err(e) => Err(e),
    }
}

/// One of the characters `0` to `9`.
pub open spec fn is_digit(c: char) -> bool {
    48 <= c as u32 <= 57
}

/// The number that a run of digits writes in base ten.
pub open spec fn decimal_value(run: Seq<char>) -> int
    decreases run.len(),
{
    if run.len() == 0 {
        0
    } else {
        10 * decimal_value(run.drop_last()) + (run.last() as u32 - 48)
    }
}

/// The run is a number that an `i32` can hold: one or more of the digits `0`
/// to `9`, with a value of at most `i32::MAX`.
pub open spec fn is_number(run: Seq<char>) -> bool {
    &&& run.len() > 0
    &&& forall|i: int| 0 <= i < run.len() ==> is_digit(#[trigger] run[i])
    &&& decimal_value(run) <= i32::MAX
}

/// The value of a run, where it is a number.
pub open spec fn number_of(run: Seq<char>) -> Option<i32> {
    if is_number(run) {
        Some(decimal_value(run) as i32)
    } else {
        None
    }
}

/// The row that a list of runs stands for: the value of each run, and an error
/// if one of them is no number.
pub open spec fn row_of_runs(runs: Seq<Seq<char>>) -> Result<Seq<i32>, ParseError> {
    if forall|i: int| 0 <= i < runs.len() ==> is_number(#[trigger] runs[i]) {
        Ok(Seq::new(runs.len(), |i: int| decimal_value(runs[i]) as i32))
    } else {
        Err(ParseError::Number)
    }
}

/// The row that a line of text stands for when its numbers are the matches of
/// `pattern`.
pub open spec fn row_of_matches(pattern: Seq<char>, line: Seq<char>) -> Result<
    Seq<i32>,
    ParseError,
> {
    match regex_matches(pattern, line) {
        Some(runs) => row_of_runs(runs),
        None => Err(ParseError::Pattern),
    }
}

/// The row that a line of text stands for.
pub open spec fn row_of_line(line: Seq<char>) -> Result<Seq<i32>, ParseError> {
    row_of_matches(DIGIT_RUN@, line)
}

/// A row with its numbers taken by their view.
pub open spec fn row_view(r: Result<Vec<i32>, ParseError>) -> Result<Seq<i32>, ParseError> {
    match r {
        Ok(row) => Ok(row@),
        Err(e) => Err(e),
    }
}

/// The digits of a run that are read first write a number no greater than the
/// whole run does.
proof fn lemma_decimal_grows(run: Seq<char>, k: int)
    requires
        forall|i: int| 0 <= i < run.len() ==> is_digit(#[trigger] run[i]),
        0 <= k <= run.len(),
    ensures
        0 <= decimal_value(run.take(k)) <= decimal_value(run),
    decreases run.len() - k,
{
    let front = run.take(k);
    assert forall|i: int| 0 <= i < front.len() implies is_digit(#[trigger] front[i]) by {
        assert(front[i] == run[i]);
    }
    lemma_decimal_nonnegative(front);
    if k == run.len() {
        assert(front =~= run);
    } else {
        lemma_decimal_grows(run, k + 1);
        assert(run.take(k + 1).drop_last() =~= front);
        assert(is_digit(run[k]));
        assert(run.take(k + 1).last() == run[k]);
    }
}

/// A run of digits writes a number that is not negative.
proof fn lemma_decimal_nonnegative(run: Seq<char>)
    requires
        forall|i: int| 0 <= i < run.len() ==> is_digit(#[trigger] run[i]),
    ensures
        0 <= decimal_value(run),
    decreases run.len(),
{
    if run.len() > 0 {
        lemma_decimal_nonnegative(run.drop_last());
        assert(is_digit(run[run.len() - 1]));
    }
}

/// Reads a run of digits as an `i32`.
///
/// The result is `None` for an empty run, for a run that holds anything but
/// the digits `0` to `9`, and for a number greater than `i32::MAX`.
pub fn parse_number(run: &Vec<char>) -> (r: Option<i32>)
    ensures
        r == number_of(run@),
{
    let len = run.len();
    if len == 0 {
        return None;
    }
    let mut value: i64 = 0;
    let mut i: usize = 0;
    while i < len
        invariant
            i <= len,
            len == run@.len(),
            forall|j: int| 0 <= j < i ==> is_digit(#[trigger] run@[j]),
            value == decimal_value(run@.take(i as int)),
            0 <= value <= i32::MAX,
        decreases len - i,
    {
        let code = run[i] as u32;
        if code < 48 || code > 57 {
            assert(!is_digit(run@[i as int]));
            return None;
        }
        proof {
            assert(run@.take(i + 1).drop_last() =~= run@.take(i as int));
            assert(run@.take(i + 1).last() == run@[i as int]);
        }
        value = value * 10 + (code - 48) as i64;
        if value > i32::MAX as i64 {
            proof {
                if is_number(run@) {
                    lemma_decimal_grows(run@, i + 1);
                }
            }
            return None;
        }
        i += 1;
    }
    assert(run@.take(len as int) =~= run@);
    Some(value as i32)
}

/// Reads every run of a list as a number.
pub fn numbers_from_runs(runs: &Vec<Vec<char>>) -> (r: Result<Vec<i32>, ParseError>)
    ensures
        row_view(r) == row_of_runs(runs.deep_view()),
{
    let ghost all = runs.deep_view();
    let mut row: Vec<i32> = Vec::new();
    let mut i: usize = 0;
    while i < runs.len()
        invariant
            i <= runs@.len(),
            all == runs.deep_view(),
            row@.len() == i,
            forall|j: int| 0 <= j < i ==> is_number(#[trigger] all[j]),
            forall|j: int| 0 <= j < i ==> row@[j] == decimal_value(all[j]) as i32,
        decreases runs@.len() - i,
    {
        assert(all[i as int] =~= runs@[i as int]@);
        match parse_number(&runs[i]) {
            Some(value) => row.push(value),
            None => {
                assert(!is_number(all[i as int]));
                return Err(ParseError::Number);
            },
        }
        i += 1;
    }
    assert(row@ =~= Seq::new(all.len(), |i: int| decimal_value(all[i]) as i32));
    Ok(row)
}

/// Reads the matches of a pattern in a line of text as the numbers of a row.
///
/// A pattern that does not compile gives [`ParseError::Pattern`], and a match
/// that is no number [`ParseError::Number`].
pub fn parse_row_with(pattern: &str, line: &str) -> (r: Result<Vec<i32>, ParseError>)
    ensures
        row_view(r) == row_of_matches(pattern@, line@),
{
    match find_matches(pattern, line) {
        Ok(runs) => numbers_from_runs(&runs),
        Err(_) => Err(ParseError::Pattern),
    }
}

/// Reads one line of text as a row of the matrix: the runs of digits in the
/// line, each as a number.
pub fn parse_row(line: &str) -> (r: Result<Vec<i32>, ParseError>)
    ensures
        row_view(r) == row_of_line(line@),
{
    parse_row_with(DIGIT_RUN, line)
}

/// Reads the lines of a text as the rows of a matrix.
///
/// The result holds one row for each line, in order. Where a line cannot be
/// read, the error of the first such line is returned.
pub fn parse_matrix(lines: &Vec<String>) -> (r: Result<Vec<Vec<i32>>, ParseError>)
    ensures
        match r {
            Ok(matrix) => {
                &&& matrix@.len() == lines@.len()
                &&& forall|i: int|
                    0 <= i < lines@.len() ==> row_of_line(#[trigger] lines@[i]@) == Ok::<
                        Seq<i32>,
                        ParseError,
                    >(matrix@[i]@)
            },
            Err(e) => exists|i: int|
                {
                    &&& 0 <= i < lines@.len()
                    &&& row_of_line(#[trigger] lines@[i]@) == Err::<Seq<i32>, ParseError>(e)
                    &&& forall|j: int| 0 <= j < i ==> row_of_line(#[trigger] lines@[j]@) is Ok
                },
        },
{
    let mut matrix: Vec<Vec<i32>> = Vec::new();
    let mut i: usize = 0;
    while i < lines.len()
        invariant
            i <= lines@.len(),
            matrix@.len() == i,
            forall|j: int|
                0 <= j < i ==> row_of_line(#[trigger] lines@[j]@) == Ok::<Seq<i32>, ParseError>(
                    matrix@[j]@,
                ),
        decreases lines@.len() - i,
    {
        match parse_row(lines[i].as_str()) {
            Ok(row) => matrix.push(row),
            Err(e) => {
                assert(row_of_line(lines@[i as int]@) == Err::<Seq<i32>, ParseError>(e));
                return Err(e);
            },
        }
        i += 1;
    }
    Ok(matrix)
}

} // verus!
