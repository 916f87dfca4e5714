//! Calibration values: each line contributes ten times its first digit
//! plus its last digit. One variant reads digit characters only; the
//! other also reads the spelled-out words `one` through `nine`, taking
//! the earliest and the latest occurrence on each line.

use vstd::prelude::*;

use crate::text;

verus! {

/// The digit a token names: a spelled-out word `one` through `nine`, or
/// anything `u64` parsing accepts.
pub open spec fn parse_digit_spec(s: Seq<char>) -> Option<u64> {
    if s == seq!['o', 'n', 'e'] {
        Some(1u64)
    } else if s == seq!['t', 'w', 'o'] {
        Some(2u64)
    } else if s == seq!['t', 'h', 'r', 'e', 'e'] {
        Some(3u64)
    } else if s == seq!['f', 'o', 'u', 'r'] {
        Some(4u64)
    } else if s == seq!['f', 'i', 'v', 'e'] {
        Some(5u64)
    } else if s == seq!['s', 'i', 'x'] {
        Some(6u64)
    } else if s == seq!['s', 'e', 'v', 'e', 'n'] {
        Some(7u64)
    } else if s == seq!['e', 'i', 'g', 'h', 't'] {
        Some(8u64)
    } else if s == seq!['n', 'i', 'n', 'e'] {
        Some(9u64)
    } else {
        text::u64_token_value(s)
    }
}

/// Reads a digit word or a number.
pub fn parse_digit(input: &str) -> (r: Option<u64>)
    ensures
        r == parse_digit_spec(input@),
{
    let chars = text::str_chars(input);
    proof {
        reveal_strlit("one");
        reveal_strlit("two");
        reveal_strlit("three");
        reveal_strlit("four");
        reveal_strlit("five");
        reveal_strlit("six");
        reveal_strlit("seven");
        reveal_strlit("eight");
        reveal_strlit("nine");
        assert("one"@ =~= seq!['o', 'n', 'e']);
        assert("two"@ =~= seq!['t', 'w', 'o']);
        assert("three"@ =~= seq!['t', 'h', 'r', 'e', 'e']);
        assert("four"@ =~= seq!['f', 'o', 'u', 'r']);
        assert("five"@ =~= seq!['f', 'i', 'v', 'e']);
        assert("six"@ =~= seq!['s', 'i', 'x']);
        assert("seven"@ =~= seq!['s', 'e', 'v', 'e', 'n']);
        assert("eight"@ =~= seq!['e', 'i', 'g', 'h', 't']);
        assert("nine"@ =~= seq!['n', 'i', 'n', 'e']);
    }
    if text::vec_eq_str(&chars, "one") {
        Some(1)
    } else if text::vec_eq_str(&chars, "two") {
        Some(2)
    } else if text::vec_eq_str(&chars, "three") {
        Some(3)
    } else if text::vec_eq_str(&chars, "four") {
        Some(4)
    } else if text::vec_eq_str(&chars, "five") {
        Some(5)
    } else if text::vec_eq_str(&chars, "six") {
        Some(6)
    } else if text::vec_eq_str(&chars, "seven") {
        Some(7)
    } else if text::vec_eq_str(&chars, "eight") {
        Some(8)
    } else if text::vec_eq_str(&chars, "nine") {
        Some(9)
    } else {
        text::parse_u64_token(&chars)
    }
}

/// The digit named at position `i` of the line: a spelled-out word
/// starting there, or a digit character standing there. At most one can
/// match, since no two words share a starting prefix.
pub open spec fn word_at(s: Seq<char>, i: int) -> Option<u64> {
    if text::starts_with_at(s, seq!['o', 'n', 'e'], i) {
        Some(1u64)
    } else if text::starts_with_at(s, seq!['t', 'w', 'o'], i) {
        Some(2u64)
    } else if text::starts_with_at(s, seq!['t', 'h', 'r', 'e', 'e'], i) {
        Some(3u64)
    } else if text::starts_with_at(s, seq!['f', 'o', 'u', 'r'], i) {
        Some(4u64)
    } else if text::starts_with_at(s, seq!['f', 'i', 'v', 'e'], i) {
        Some(5u64)
    } else if text::starts_with_at(s, seq!['s', 'i', 'x'], i) {
        Some(6u64)
    } else if text::starts_with_at(s, seq!['s', 'e', 'v', 'e', 'n'], i) {
        Some(7u64)
    } else if text::starts_with_at(s, seq!['e', 'i', 'g', 'h', 't'], i) {
        Some(8u64)
    } else if text::starts_with_at(s, seq!['n', 'i', 'n', 'e'], i) {
        Some(9u64)
    } else if 0 <= i < s.len() && text::is_digit_char(s[i]) {
        Some((s[i] as u32 - 48) as u64)
    } else {
        None
    }
}

/// Only a digit character counts at position `i`.
pub open spec fn digit_at(s: Seq<char>, i: int) -> Option<u64> {
    if 0 <= i < s.len() && text::is_digit_char(s[i]) {
        Some((s[i] as u32 - 48) as u64)
    } else {
        None
    }
}

/// The earliest match at or after position `i`.
pub open spec fn first_match_from(s: Seq<char>, i: int, words: bool) -> Option<u64>
    decreases s.len() - i,
{
    if i < 0 || i >= s.len() {
        None
    } else {
        match (if words {
            word_at(s, i)
        } else {
            digit_at(s, i)
        }) {
            Some(v) => Some(v),
            None => first_match_from(s, i + 1, words),
        }
    }
}

/// The latest match at or before position `i`.
pub open spec fn last_match_before(s: Seq<char>, i: int, words: bool) -> Option<u64>
    decreases i + 1,
{
    if i < 0 || i >= s.len() {
        None
    } else {
        match (if words {
            word_at(s, i)
        } else {
            digit_at(s, i)
        }) {
            Some(v) => Some(v),
            None => last_match_before(s, i - 1, words),
        }
    }
}

/// What one line contributes: ten times its first match plus its last,
/// or nothing when the line has no match.
pub open spec fn line_value(s: Seq<char>, words: bool) -> Option<int> {
    match first_match_from(s, 0, words) {
        None => None,
        Some(f) => match last_match_before(s, s.len() - 1, words) {
            None => None,
            Some(l) => Some(f * 10 + l),
        },
    }
}

/// The sum of the line values from line `i` onward; a line without a
/// match fails the whole input.
pub open spec fn calibration_sum(lines: Seq<Seq<char>>, i: int, words: bool) -> Option<int>
    decreases lines.len() - i,
{
    if i < 0 || i >= lines.len() {
        Some(0)
    } else {
        match line_value(lines[i], words) {
            None => None,
            Some(v) => match calibration_sum(lines, i + 1, words) {
                None => None,
                Some(rest) => Some(v + rest),
            },
        }
    }
}

pub proof fn lemma_line_value_bounds(s: Seq<char>, words: bool)
    ensures
        line_value(s, words) matches Some(v) ==> 0 <= v <= 99 + 9,
{
    lemma_match_bounds(s, 0, words);
    lemma_last_bounds(s, s.len() - 1, words);
}

pub proof fn lemma_match_bounds(s: Seq<char>, i: int, words: bool)
    ensures
        first_match_from(s, i, words) matches Some(v) ==> 0 <= v <= 9,
    decreases s.len() - i,
{
    if 0 <= i < s.len() {
        lemma_match_bounds(s, i + 1, words);
    }
}

pub proof fn lemma_last_bounds(s: Seq<char>, i: int, words: bool)
    ensures
        last_match_before(s, i, words) matches Some(v) ==> 0 <= v <= 9,
    decreases i + 1,
{
    if 0 <= i < s.len() {
        lemma_last_bounds(s, i - 1, words);
    }
}

pub proof fn lemma_calibration_nonneg(lines: Seq<Seq<char>>, i: int, words: bool)
    ensures
        calibration_sum(lines, i, words) matches Some(t) ==> t >= 0,
    decreases lines.len() - i,
{
    if 0 <= i < lines.len() {
        lemma_calibration_nonneg(lines, i + 1, words);
        lemma_line_value_bounds(lines[i], words);
    }
}

/// Checks for a word or digit match at one position of a line.
#[verifier::loop_isolation(false)]
fn word_at_exec(line: &Vec<char>, i: usize, words: bool) -> (r: Option<u64>)
    requires
        i < line@.len(),
    ensures
        r == (if words {
            word_at(line@, i as int)
        } else {
            digit_at(line@, i as int)
        }),
{
    proof {
        reveal_strlit("one");
        reveal_strlit("two");
        reveal_strlit("three");
        reveal_strlit("four");
        reveal_strlit("five");
        reveal_strlit("six");
        reveal_strlit("seven");
        reveal_strlit("eight");
        reveal_strlit("nine");
        assert("one"@ =~= seq!['o', 'n', 'e']);
        assert("two"@ =~= seq!['t', 'w', 'o']);
        assert("three"@ =~= seq!['t', 'h', 'r', 'e', 'e']);
        assert("four"@ =~= seq!['f', 'o', 'u', 'r']);
        assert("five"@ =~= seq!['f', 'i', 'v', 'e']);
        assert("six"@ =~= seq!['s', 'i', 'x']);
        assert("seven"@ =~= seq!['s', 'e', 'v', 'e', 'n']);
        assert("eight"@ =~= seq!['e', 'i', 'g', 'h', 't']);
        assert("nine"@ =~= seq!['n', 'i', 'n', 'e']);
    }
    if words {
        let one = text::str_chars("one");
        let two = text::str_chars("two");
        let three = text::str_chars("three");
        let four = text::str_chars("four");
        let five = text::str_chars("five");
        let six = text::str_chars("six");
        let seven = text::str_chars("seven");
        let eight = text::str_chars("eight");
        let nine = text::str_chars("nine");
        if text::matches_at(line, &one, i) {
            return Some(1);
        }
        if text::matches_at(line, &two, i) {
            return Some(2);
        }
        if text::matches_at(line, &three, i) {
            return Some(3);
        }
        if text::matches_at(line, &four, i) {
            return Some(4);
        }
        if text::matches_at(line, &five, i) {
            return Some(5);
        }
        if text::matches_at(line, &six, i) {
            return Some(6);
        }
        if text::matches_at(line, &seven, i) {
            return Some(7);
        }
        if text::matches_at(line, &eight, i) {
            return Some(8);
        }
        if text::matches_at(line, &nine, i) {
            return Some(9);
        }
    }
    let u = line[i] as u32;
    if 48 <= u && u <= 57 {
        Some((u - 48) as u64)
    } else {
        None
    }
}

/// Sums the calibration values of all lines: ten times the first match
/// plus the last match of each line, reading digit words as well when
/// `words` is set.
#[verifier::loop_isolation(false)]
fn extract(input: String, words: bool) -> (r: Option<u64>)
    requires
        text::split_lines(input@).len() * 99 <= u64::MAX,
    ensures
        r matches Some(c) ==> calibration_sum(text::split_lines(input@), 0, words) == Some(
            c as int,
        ),
        r is None ==> calibration_sum(text::split_lines(input@), 0, words) is None,
{
    let chars = text::str_chars(input.as_str());
    let lines = text::split_lines_exec(&chars);
    let ghost linesv = text::split_lines(input@);
    let n = lines.len();
    let mut count: u64 = 0;
    let mut i: usize = 0;
    while i < n
        invariant
            i <= n,
            n == linesv.len(),
            lines.deep_view() == linesv,
            count <= 99 * i,
            calibration_sum(linesv, 0, words) == (match calibration_sum(linesv, i as int, words) {
                None => None,
                Some(rest) => Some(count as int + rest),
            }),
        decreases n - i,
    {
        proof {
            assert(lines@[i as int]@ == linesv[i as int]);
        }
        let line = &lines[i];
        let m = line.len();
        // first match
        let mut first: Option<u64> = None;
        let mut k: usize = 0;
        while k < m
            invariant
                k <= m,
                m == linesv[i as int].len(),
                line@ == linesv[i as int],
                first is None,
                first_match_from(linesv[i as int], 0, words) == first_match_from(
                    linesv[i as int],
                    k as int,
                    words,
                ),
            decreases m - k,
        {
            match word_at_exec(line, k, words) {
                Some(v) => {
                    first = Some(v);
                    proof {
                        assert(first_match_from(linesv[i as int], k as int, words) == Some(v));
                    }
                    break;
                },
                None => {
                },
            }
            k += 1;
        }
        let f = match first {
            Some(f) => f,
            None => {
                proof {
                    assert(first_match_from(linesv[i as int], 0, words) is None);
                    assert(line_value(linesv[i as int], words) is None);
                    assert(calibration_sum(linesv, i as int, words) is None);
                }
                return None;
            },
        };
        proof {
            assert(first_match_from(linesv[i as int], 0, words) == Some(f));
        }
        // last match
        let mut last: Option<u64> = None;
        let mut k2: usize = m;
        while k2 > 0
            invariant
                k2 <= m,
                m == linesv[i as int].len(),
                line@ == linesv[i as int],
                last is None,
                last_match_before(linesv[i as int], m - 1, words) == last_match_before(
                    linesv[i as int],
                    k2 - 1,
                    words,
                ),
            decreases k2,
        {
            match word_at_exec(line, k2 - 1, words) {
                Some(v) => {
                    last = Some(v);
                    proof {
                        assert(last_match_before(linesv[i as int], k2 - 1, words) == Some(v));
                    }
                    break;
                },
                None => {
                },
            }
            k2 -= 1;
        }
        let l = match last {
            Some(l) => l,
            None => {
                proof {
                    assert(last_match_before(linesv[i as int], m - 1, words) is None);
                    assert(line_value(linesv[i as int], words) is None);
                    assert(calibration_sum(linesv, i as int, words) is None);
                }
                return None;
            },
        };
        proof {
            assert(last_match_before(linesv[i as int], m - 1, words) == Some(l));
            assert(line_value(linesv[i as int], words) == Some(f * 10 + l));
            lemma_match_bounds(linesv[i as int], 0, words);
            lemma_last_bounds(linesv[i as int], m - 1, words);
            lemma_calibration_nonneg(linesv, i + 1, words);
            assert(calibration_sum(linesv, i as int, words) == (
            match calibration_sum(linesv, i + 1, words) {
                None => None::<int>,
                Some(rest) => Some(f * 10 + l + rest),
            }));
            assert(f <= 9 && l <= 9);
            assert(count as int + (f * 10 + l) <= 99 * (i + 1));
            assert(99 * (i + 1) <= 99 * (n as int));
        }
        count = count + (f * 10 + l);
        i += 1;
    }
    proof {
        assert(calibration_sum(linesv, n as int, words) == Some(0int));
    }
    Some(count)
}

/// Sums the calibration values reading digit characters only.
pub fn extract_digits(input: String) -> (r: Option<u64>)
    requires
        text::split_lines(input@).len() * 99 <= u64::MAX,
    ensures
        r matches Some(c) ==> calibration_sum(text::split_lines(input@), 0, false) == Some(
            c as int,
        ),
        r is None ==> calibration_sum(text::split_lines(input@), 0, false) is None,
{
    extract(input, false)
}

/// Sums the calibration values reading digit words as well.
pub fn extract_digits_written(input: String) -> (r: Option<u64>)
    requires
        text::split_lines(input@).len() * 99 <= u64::MAX,
    ensures
        r matches Some(c) ==> calibration_sum(text::split_lines(input@), 0, true) == Some(
            c as int,
        ),
        r is None ==> calibration_sum(text::split_lines(input@), 0, true) is None,
{
    extract(input, true)
}

} // verus!
