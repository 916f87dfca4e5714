//! Scratchcards: each line lists winning numbers and assigned numbers; a
//! card scores one point per (assigned, winning) pair that agrees, doubled
//! points feed part one, and cascading card copies feed part two.

use vstd::prelude::*;

use crate::nums;
use crate::text;

verus! {

/// How often `x` occurs in `w`.
pub open spec fn count_in(w: Seq<u64>, x: u64) -> int
    decreases w.len(),
{
    if w.len() == 0 {
        0
    } else {
        count_in(w.drop_last(), x) + if w.last() == x {
            1int
        } else {
            0int
        }
    }
}

/// How many (assigned, winning) pairs agree, counting duplicates on both
/// sides.
pub open spec fn match_count(assigned: Seq<u64>, winners: Seq<u64>) -> int
    decreases assigned.len(),
{
    if assigned.len() == 0 {
        0
    } else {
        match_count(assigned.drop_last(), winners) + count_in(winners, assigned.last())
    }
}

pub proof fn lemma_count_in_nonneg(w: Seq<u64>, x: u64)
    ensures
        count_in(w, x) >= 0,
    decreases w.len(),
{
    if w.len() > 0 {
        lemma_count_in_nonneg(w.drop_last(), x);
    }
}

pub proof fn lemma_count_in_prefix_le(w: Seq<u64>, x: u64, i: int)
    requires
        0 <= i <= w.len(),
    ensures
        count_in(w.take(i), x) <= count_in(w, x),
    decreases w.len() - i,
{
    if i < w.len() {
        assert(w.take(i + 1).drop_last() =~= w.take(i));
        lemma_count_in_prefix_le(w, x, i + 1);
    } else {
        assert(w.take(i) =~= w);
    }
}

pub proof fn lemma_match_count_nonneg(assigned: Seq<u64>, winners: Seq<u64>)
    ensures
        match_count(assigned, winners) >= 0,
    decreases assigned.len(),
{
    if assigned.len() > 0 {
        lemma_match_count_nonneg(assigned.drop_last(), winners);
        lemma_count_in_nonneg(winners, assigned.last());
    }
}

pub proof fn lemma_match_count_prefix_le(assigned: Seq<u64>, winners: Seq<u64>, i: int)
    requires
        0 <= i <= assigned.len(),
    ensures
        match_count(assigned.take(i), winners) <= match_count(assigned, winners),
    decreases assigned.len() - i,
{
    if i < assigned.len() {
        assert(assigned.take(i + 1).drop_last() =~= assigned.take(i));
        lemma_count_in_nonneg(winners, assigned[i]);
        lemma_match_count_prefix_le(assigned, winners, i + 1);
    } else {
        assert(assigned.take(i) =~= assigned);
    }
}

/// The winning numbers of a card line (before the `|`).
pub open spec fn winners_of(line: Seq<char>) -> Seq<u64> {
    let data = text::split_str(
        text::split_str(line, seq![':', ' '])[1],
        seq![' ', '|', ' '],
    );
    text::u64s_of_tokens(text::split_str(data[0], seq![' ']))
}

/// The assigned numbers of a card line (after the `|`).
pub open spec fn assigned_of(line: Seq<char>) -> Seq<u64> {
    let data = text::split_str(
        text::split_str(line, seq![':', ' '])[1],
        seq![' ', '|', ' '],
    );
    text::u64s_of_tokens(text::split_str(data[1], seq![' ']))
}

/// The score of a card line: its number of agreeing pairs.
pub open spec fn line_score(line: Seq<char>) -> int {
    match_count(assigned_of(line), winners_of(line))
}

/// The line has a `: ` separator and a ` | ` separator.
pub open spec fn line_ok(line: Seq<char>) -> bool {
    &&& text::split_str(line, seq![':', ' ']).len() >= 2
    &&& text::split_str(text::split_str(line, seq![':', ' '])[1], seq![' ', '|', ' ']).len()
        >= 2
}

/// Counts the (assigned, winning) pairs of one card line that agree.
#[verifier::loop_isolation(false)]
pub fn score_line(line: &str) -> (r: u64)
    requires
        line_ok(line@),
        line_score(line@) <= u64::MAX,
    ensures
        r as int == line_score(line@),
{
    let chars = text::str_chars(line);
    let mut colon_sep: Vec<char> = Vec::new();
    colon_sep.push(':');
    colon_sep.push(' ');
    let mut bar_sep: Vec<char> = Vec::new();
    bar_sep.push(' ');
    bar_sep.push('|');
    bar_sep.push(' ');
    let mut space_sep: Vec<char> = Vec::new();
    space_sep.push(' ');
    proof {
        assert(colon_sep@ =~= seq![':', ' ']);
        assert(bar_sep@ =~= seq![' ', '|', ' ']);
        assert(space_sep@ =~= seq![' ']);
    }
    let meta = text::split_str_exec(&chars, &colon_sep);
    proof {
        assert(meta@[1]@ == text::split_str(line@, seq![':', ' '])[1]);
    }
    let data = text::split_str_exec(&meta[1], &bar_sep);
    proof {
        assert(data@[0]@ == text::split_str(
            text::split_str(line@, seq![':', ' '])[1],
            seq![' ', '|', ' '],
        )[0]);
        assert(data@[1]@ == text::split_str(
            text::split_str(line@, seq![':', ' '])[1],
            seq![' ', '|', ' '],
        )[1]);
    }
    let wtoks = text::split_str_exec(&data[0], &space_sep);
    let winners = text::parse_u64_tokens(&wtoks);
    let atoks = text::split_str_exec(&data[1], &space_sep);
    let assigned = text::parse_u64_tokens(&atoks);
    let ghost wv = winners_of(line@);
    let ghost av = assigned_of(line@);
    let na = assigned.len();
    let nw = winners.len();
    let mut score: u64 = 0;
    let mut i: usize = 0;
    proof {
        assert(av.take(0) =~= Seq::<u64>::empty());
    }
    while i < na
        invariant
            i <= na,
            score as int == match_count(av.take(i as int), wv),
        decreases na - i,
    {
        let mut j: usize = 0;
        proof {
            assert(wv.take(0) =~= Seq::<u64>::empty());
        }
        while j < nw
            invariant
                j <= nw,
                i < na,
                score as int == match_count(av.take(i as int), wv) + count_in(
                    wv.take(j as int),
                    av[i as int],
                ),
            decreases nw - j,
        {
            proof {
                assert(wv.take(j + 1).drop_last() =~= wv.take(j as int));
                lemma_match_count_prefix_le(av, wv, i + 1);
                lemma_count_in_prefix_le(wv, av[i as int], j + 1);
                lemma_match_count_nonneg(av.take(i as int), wv);
                lemma_count_in_nonneg(wv.take(j as int), av[i as int]);
                assert(av.take(i + 1).drop_last() =~= av.take(i as int));
            }
            if assigned[i] == winners[j] {
                score = score + 1;
            }
            j += 1;
        }
        proof {
            assert(wv.take(nw as int) =~= wv);
            assert(av.take(i + 1).drop_last() =~= av.take(i as int));
            assert(av.take(i + 1).last() == av[i as int]);
        }
        i += 1;
    }
    proof {
        assert(av.take(na as int) =~= av);
    }
    score
}

/// Two to the power `k`.
pub open spec fn pow2(k: nat) -> int
    decreases k,
{
    if k == 0 {
        1
    } else {
        2 * pow2((k - 1) as nat)
    }
}

pub proof fn lemma_pow2_mono(i: nat, j: nat)
    requires
        i <= j,
    ensures
        pow2(i) <= pow2(j),
        pow2(i) >= 1,
    decreases j,
{
    if i < j {
        lemma_pow2_mono(i, (j - 1) as nat);
    } else if i > 0 {
        lemma_pow2_mono((i - 1) as nat, (j - 1) as nat);
    }
}

pub proof fn lemma_pow2_63()
    ensures
        pow2(63) == 0x8000_0000_0000_0000,
{
    reveal_with_fuel(pow2, 64);
}

#[verifier::loop_isolation(false)]
fn pow2_exec(k: u64) -> (r: u64)
    requires
        k <= 63,
    ensures
        r as int == pow2(k as nat),
{
    let mut r: u64 = 1;
    let mut i: u64 = 0;
    while i < k
        invariant
            i <= k <= 63,
            r as int == pow2(i as nat),
        decreases k - i,
    {
        proof {
            lemma_pow2_mono((i + 1) as nat, 63);
            lemma_pow2_63();
        }
        r = r * 2;
        i += 1;
    }
    r
}

/// The doubled-points value of a card line: `2 ^ (score - 1)`, or 0 for no
/// match.
pub open spec fn line_value(line: Seq<char>) -> int {
    if line_score(line) > 0 {
        pow2((line_score(line) - 1) as nat)
    } else {
        0
    }
}

/// Every line parses and scores at most 64 matches.
pub open spec fn part1_ok(contents: Seq<char>) -> bool {
    let lines = text::split_lines(contents);
    forall|k: int|
        0 <= k < lines.len() ==> line_ok(#[trigger] lines[k]) && line_score(lines[k]) <= 64
}

/// The sum of the doubled-points values of all card lines.
#[verifier::loop_isolation(false)]
pub fn part1(contents: &str) -> (r: u64)
    requires
        part1_ok(contents@),
        nums::sum(text::split_lines(contents@).map_values(|l: Seq<char>| line_value(l)))
            <= u64::MAX,
    ensures
        r as int == nums::sum(
            text::split_lines(contents@).map_values(|l: Seq<char>| line_value(l)),
        ),
{
    let chars = text::str_chars(contents);
    let lines = text::split_lines_exec(&chars);
    let ghost linesv = text::split_lines(contents@);
    let ghost vals = linesv.map_values(|l: Seq<char>| line_value(l));
    let n = lines.len();
    let mut total: u64 = 0;
    let mut i: usize = 0;
    proof {
        assert(vals.take(0) =~= Seq::<int>::empty());
        assert forall|k: int| 0 <= k < vals.len() implies #[trigger] vals[k] >= 0 by {
            if line_score(linesv[k]) > 0 {
                lemma_pow2_mono((line_score(linesv[k]) - 1) as nat, 63);
            }
        }
    }
    while i < n
        invariant
            i <= n,
            n == linesv.len(),
            total as int == nums::sum(vals.take(i as int)),
        decreases n - i,
    {
        proof {
            assert(lines@[i as int]@ == linesv[i as int]);
        }
        let line_str = text::chars_to_string(&lines[i]);
        let score = score_line(&line_str);
        proof {
            assert(vals.take(i + 1).drop_last() =~= vals.take(i as int));
            assert(vals.take(i + 1).last() == vals[i as int]);
            nums::lemma_sum_prefix_le(vals, i + 1);
        }
        if score > 0 {
            let v = pow2_exec(score - 1);
            total = total + v;
        }
        i += 1;
    }
    proof {
        assert(vals.take(n as int) =~= vals);
    }
    total
}

/// One copy of every card, then each card `i` with `m` matches adds its
/// own copies to the next `m` cards: the card counts after card `i` has
/// been processed.
pub open spec fn copies_after(lines: Seq<Seq<char>>, i: int) -> Seq<int>
    decreases i,
{
    if i <= 0 {
        Seq::new(lines.len(), |k: int| 1int)
    } else {
        let prev = copies_after(lines, i - 1);
        Seq::new(
            lines.len(),
            |k: int|
                if i <= k < i + line_score(lines[i - 1]) {
                    prev[k] + prev[i - 1]
                } else {
                    prev[k]
                },
        )
    }
}

/// Every line parses, no card's matches run past the last card, and no
/// card count outgrows `u64`.
pub open spec fn part2_ok(contents: Seq<char>) -> bool {
    let lines = text::split_lines(contents);
    &&& forall|k: int| 0 <= k < lines.len() ==> line_ok(#[trigger] lines[k])
    &&& forall|k: int|
        0 <= k < lines.len() ==> line_score(#[trigger] lines[k]) <= lines.len() - 1 - k
    &&& forall|i: int, k: int|
        0 <= i <= lines.len() && 0 <= k < lines.len() ==> #[trigger] copies_after(lines, i)[k]
            <= u64::MAX
}

/// The total number of cards once every copy has been processed.
#[verifier::loop_isolation(false)]
pub fn part2(contents: &str) -> (r: u64)
    requires
        part2_ok(contents@),
        nums::sum(copies_after(text::split_lines(contents@), text::split_lines(contents@).len() as int))
            <= u64::MAX,
    ensures
        r as int == nums::sum(
            copies_after(
                text::split_lines(contents@),
                text::split_lines(contents@).len() as int,
            ),
        ),
{
    let chars = text::str_chars(contents);
    let lines = text::split_lines_exec(&chars);
    let ghost linesv = text::split_lines(contents@);
    let n = lines.len();
    let mut copies: Vec<u64> = Vec::new();
    let mut k: usize = 0;
    while k < n
        invariant
            k <= n,
            copies@.len() == k,
            forall|t: int| 0 <= t < k ==> copies@[t] == 1u64,
        decreases n - k,
    {
        copies.push(1);
        k += 1;
    }
    proof {
        assert forall|t: int| 0 <= t < n implies copies@[t] as int == copies_after(linesv, 0)[t]
        by {
        }
    }
    let mut i: usize = 0;
    while i < n
        invariant
            i <= n,
            n == linesv.len(),
            copies@.len() == n,
            forall|t: int|
                0 <= t < n ==> #[trigger] copies@[t] as int == copies_after(linesv, i as int)[t],
        decreases n - i,
    {
        proof {
            assert(lines@[i as int]@ == linesv[i as int]);
            lemma_match_count_nonneg(assigned_of(linesv[i as int]), winners_of(linesv[i as int]));
        }
        let line_str = text::chars_to_string(&lines[i]);
        let matches = score_line(&line_str);
        let m = matches as usize;
        let ghost prev = copies_after(linesv, i as int);
        let base = copies[i];
        let mut j: usize = 0;
        while j < m
            invariant
                j <= m,
                i < n,
                m == line_score(linesv[i as int]),
                m <= n - 1 - i,
                copies@.len() == n,
                base as int == prev[i as int],
                forall|t: int|
                    0 <= t < n ==> #[trigger] copies@[t] as int == (if i + 1 <= t < i + 1 + j {
                        prev[t] + prev[i as int]
                    } else {
                        prev[t]
                    }),
            decreases m - j,
        {
            proof {
                assert(copies_after(linesv, i + 1)[i + j + 1] <= u64::MAX);
            }
            let idx = i + j + 1;
            let updated = copies[idx] + base;
            copies.set(idx, updated);
            j += 1;
        }
        i += 1;
        proof {
            assert forall|t: int| 0 <= t < n implies #[trigger] copies@[t] as int == copies_after(
                linesv,
                i as int,
            )[t] by {
            }
        }
    }
    let ghost finalv = copies_after(linesv, n as int);
    let mut total: u64 = 0;
    let mut t: usize = 0;
    proof {
        assert(finalv.take(0) =~= Seq::<int>::empty());
        assert forall|k2: int| 0 <= k2 < finalv.len() implies #[trigger] finalv[k2] >= 0 by {
            lemma_copies_nonneg(linesv, n as int, k2);
        }
    }
    while t < n
        invariant
            t <= n,
            copies@.len() == n,
            n == linesv.len(),
            forall|t2: int| 0 <= t2 < n ==> #[trigger] copies@[t2] as int == finalv[t2],
            total as int == nums::sum(finalv.take(t as int)),
        decreases n - t,
    {
        proof {
            assert(finalv.take(t + 1).drop_last() =~= finalv.take(t as int));
            assert(finalv.take(t + 1).last() == finalv[t as int]);
            nums::lemma_sum_prefix_le(finalv, t + 1);
            assert forall|k2: int| 0 <= k2 < finalv.len() implies #[trigger] finalv[k2] >= 0 by {
                lemma_copies_nonneg(linesv, n as int, k2);
            }
        }
        total = total + copies[t];
        t += 1;
    }
    proof {
        assert(finalv.take(n as int) =~= finalv);
    }
    total
}

pub proof fn lemma_copies_nonneg(lines: Seq<Seq<char>>, i: int, k: int)
    requires
        0 <= k < lines.len(),
    ensures
        copies_after(lines, i)[k] >= 0,
    decreases i,
{
    if i > 0 {
        lemma_copies_nonneg(lines, i - 1, k);
        if 0 <= i - 1 < lines.len() {
            lemma_copies_nonneg(lines, i - 1, i - 1);
        }
    }
}

} // verus!
