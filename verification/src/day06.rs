//! Boat races: holding the button for `t` time units gives speed `t` for
//! the remaining `time_limit - t` units; a race is won when the distance
//! beats the record. The answer multiplies the winning hold counts of all
//! races.

use vstd::prelude::*;

use crate::text;

verus! {

/// Whether holding for `t` units wins a race of the given limit and
/// record.
pub open spec fn wins(time_limit: u64, record: u64, t: int) -> bool {
    t * (time_limit - t) > record
}

/// How many of the hold times `0 .. n` win.
pub open spec fn ways_upto(time_limit: u64, record: u64, n: int) -> int
    decreases n,
{
    if n <= 0 {
        0
    } else {
        ways_upto(time_limit, record, n - 1) + if wins(time_limit, record, n - 1) {
            1int
        } else {
            0int
        }
    }
}

/// One race: its time limit and its distance record.
pub struct Race {
    pub time_limit: u64,
    pub record: u64,
}

impl Race {
    pub fn new(time_limit: u64, record: u64) -> (r: Self)
        ensures
            r == (Race { time_limit, record }),
    {
        Self { time_limit, record }
    }

    /// How many hold times `0 .. time_limit` beat the record.
    #[verifier::loop_isolation(false)]
    pub fn ways_to_win(&self) -> (r: u64)
        requires
            self.time_limit * self.time_limit <= u64::MAX,
        ensures
            r as int == ways_upto(self.time_limit, self.record, self.time_limit as int),
    {
        let mut ways: u64 = 0;
        let mut t: u64 = 0;
        while t < self.time_limit
            invariant
                t <= self.time_limit,
                ways <= t,
                ways as int == ways_upto(self.time_limit, self.record, t as int),
            decreases self.time_limit - t,
        {
            proof {
                vstd::arithmetic::mul::lemma_mul_upper_bound(
                    t as int,
                    self.time_limit as int,
                    (self.time_limit - t) as int,
                    self.time_limit as int,
                );
                vstd::arithmetic::mul::lemma_mul_nonnegative(
                    t as int,
                    (self.time_limit - t) as int,
                );
            }
            let velocity = t;
            let distance = velocity * (self.time_limit - t);
            if distance > self.record {
                ways += 1;
            }
            t += 1;
        }
        ways
    }
}

/// The winning hold count of race `k` of the two parsed lines.
pub open spec fn race_ways(times: Seq<u64>, records: Seq<u64>, k: int) -> int {
    ways_upto(times[k], records[k], times[k] as int)
}

/// The product of the winning hold counts of the first `k` races.
pub open spec fn prod_ways(times: Seq<u64>, records: Seq<u64>, k: int) -> int
    decreases k,
{
    if k <= 0 {
        1
    } else {
        prod_ways(times, records, k - 1) * race_ways(times, records, k - 1)
    }
}

/// The numbers after the `:` of line `k`.
pub open spec fn nums_of_line(contents: Seq<char>, k: int) -> Seq<u64> {
    let parts = text::split_str(text::split_lines(contents)[k], seq![':']);
    text::u64s_of_tokens(text::split_ws(parts[parts.len() - 1]))
}

/// How many races the two lines describe: as many as the shorter list.
pub open spec fn race_count(contents: Seq<char>) -> int {
    let times = nums_of_line(contents, 0);
    let records = nums_of_line(contents, 1);
    if times.len() <= records.len() {
        times.len() as int
    } else {
        records.len() as int
    }
}

pub proof fn lemma_prod_ways_nonneg(times: Seq<u64>, records: Seq<u64>, k: int)
    ensures
        prod_ways(times, records, k) >= 0,
    decreases k,
{
    if k > 0 {
        lemma_prod_ways_nonneg(times, records, k - 1);
        lemma_ways_upto_nonneg(times[k - 1], records[k - 1], times[k - 1] as int);
        vstd::arithmetic::mul::lemma_mul_nonnegative(
            prod_ways(times, records, k - 1),
            race_ways(times, records, k - 1),
        );
    }
}

pub proof fn lemma_ways_upto_nonneg(time_limit: u64, record: u64, n: int)
    ensures
        ways_upto(time_limit, record, n) >= 0,
    decreases n,
{
    if n > 0 {
        lemma_ways_upto_nonneg(time_limit, record, n - 1);
    }
}

/// Parses the `Time:` and `Distance:` lines and multiplies every race's
/// winning hold count.
#[verifier::loop_isolation(false)]
pub fn part1(contents: &str) -> (r: u64)
    requires
        text::split_lines(contents@).len() >= 2,
        forall|k: int|
            0 <= k < race_count(contents@) ==> (#[trigger] nums_of_line(contents@, 0)[k])
                * nums_of_line(contents@, 0)[k] <= u64::MAX,
        forall|k: int|
            0 <= k <= race_count(contents@) ==> #[trigger] prod_ways(
                nums_of_line(contents@, 0),
                nums_of_line(contents@, 1),
                k,
            ) <= u64::MAX,
    ensures
        r as int == prod_ways(
            nums_of_line(contents@, 0),
            nums_of_line(contents@, 1),
            race_count(contents@),
        ),
{
    let chars = text::str_chars(contents);
    let lines = text::split_lines_exec(&chars);
    let mut colon: Vec<char> = Vec::new();
    colon.push(':');
    proof {
        assert(colon@ =~= seq![':']);
        assert(lines@[0]@ == text::split_lines(contents@)[0]);
        assert(lines@[1]@ == text::split_lines(contents@)[1]);
    }
    let tparts = text::split_str_exec(&lines[0], &colon);
    let rparts = text::split_str_exec(&lines[1], &colon);
    proof {
        assert(tparts@[tparts@.len() - 1]@ == text::split_str(
            text::split_lines(contents@)[0],
            seq![':'],
        )[text::split_str(text::split_lines(contents@)[0], seq![':']).len() - 1]);
        assert(rparts@[rparts@.len() - 1]@ == text::split_str(
            text::split_lines(contents@)[1],
            seq![':'],
        )[text::split_str(text::split_lines(contents@)[1], seq![':']).len() - 1]);
    }
    let ttoks = text::split_ws_exec(&tparts[tparts.len() - 1]);
    let times = text::parse_u64_tokens(&ttoks);
    let rtoks = text::split_ws_exec(&rparts[rparts.len() - 1]);
    let records = text::parse_u64_tokens(&rtoks);
    let ghost timesv = nums_of_line(contents@, 0);
    let ghost recordsv = nums_of_line(contents@, 1);
    let n = if times.len() <= records.len() {
        times.len()
    } else {
        records.len()
    };
    let mut out: u64 = 1;
    let mut i: usize = 0;
    while i < n
        invariant
            i <= n,
            n == race_count(contents@),
            out as int == prod_ways(timesv, recordsv, i as int),
        decreases n - i,
    {
        let race = Race::new(times[i], records[i]);
        let ways = race.ways_to_win();
        proof {
            lemma_prod_ways_nonneg(timesv, recordsv, i as int);
            lemma_ways_upto_nonneg(timesv[i as int], recordsv[i as int], timesv[i as int] as int);
            assert(prod_ways(timesv, recordsv, i + 1) == prod_ways(timesv, recordsv, i as int)
                * race_ways(timesv, recordsv, i as int));
        }
        out = out * ways;
        i += 1;
    }
    out
}

} // verus!
