//! Solvers for a series of daily text-puzzle exercises.
//!
//! Each day's module parses a plain-text puzzle description into its own
//! data model and computes a numeric answer; the contracts state exactly
//! what each parser and each computation returns.

use vstd::prelude::*;

pub mod day01;
pub mod day02;
pub mod day03;
pub mod day04;
pub mod day05;
pub mod day06;
pub mod day07;
pub mod day08;
pub mod day09;
pub mod day10;
pub mod nums;
pub mod text;
pub mod vendor;

verus! {

/// Splits whitespace-delimited text into the unsigned values of its
/// numeric tokens; tokens that do not parse as `u64` are skipped.
pub fn parse_number_list(s: &str) -> (r: Vec<u64>)
    ensures
        r@ == text::u64s_of_tokens(text::split_ws(s@)),
{
    let chars = text::str_chars(s);
    let tokens = text::split_ws_exec(&chars);
    text::parse_u64_tokens(&tokens)
}

} // verus!
