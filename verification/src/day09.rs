//! Sequence extrapolation: repeatedly taking differences until everything
//! is zero, then extending every level by one value on the right (or the
//! left) to predict the next (or previous) term.

use vstd::prelude::*;

use crate::nums;
use crate::text;

verus! {

pub open spec fn all_zero(s: Seq<i64>) -> bool {
    forall|k: int| 0 <= k < s.len() ==> #[trigger] s[k] == 0i64
}

/// The sequence of neighbor differences, one shorter than `s`.
pub open spec fn diffs_of(s: Seq<i64>) -> Seq<i64> {
    Seq::new((s.len() - 1) as nat, |k: int| (s[k + 1] - s[k]) as i64)
}

/// Every neighbor difference of `s` fits in `i64`.
pub open spec fn diffs_fit(s: Seq<i64>) -> bool {
    forall|k: int|
        0 <= k + 1 < s.len() ==> i64::MIN <= #[trigger] (s[k + 1] - s[k]) <= i64::MAX
}

/// The derivative levels below `s`, down to (and including) the first
/// all-zero level.
pub open spec fn levels_below(s: Seq<i64>) -> Seq<Seq<i64>>
    decreases s.len(),
{
    if all_zero(s) {
        seq![]
    } else {
        seq![diffs_of(s)] + levels_below(diffs_of(s))
    }
}

/// All derivative levels of `s`, starting with `s` itself.
pub open spec fn levels_of(s: Seq<i64>) -> Seq<Seq<i64>> {
    seq![s] + levels_below(s)
}

/// The differences of every level down to the first all-zero one fit in
/// `i64`.
pub open spec fn levels_fit(s: Seq<i64>) -> bool
    decreases s.len(),
{
    if all_zero(s) {
        true
    } else {
        diffs_fit(s) && levels_fit(diffs_of(s))
    }
}

/// The neighbor differences of `v`.
#[verifier::loop_isolation(false)]
pub fn derivative(v: &Vec<i64>) -> (r: Vec<i64>)
    requires
        v@.len() >= 1,
        diffs_fit(v@),
    ensures
        r@ == diffs_of(v@),
{
    let n = v.len();
    let mut r: Vec<i64> = Vec::new();
    let mut i: usize = 0;
    while i < n - 1
        invariant
            i <= n - 1,
            r@ =~= diffs_of(v@).take(i as int),
        decreases n - 1 - i,
    {
        r.push(v[i + 1] - v[i]);
        proof {
            assert(diffs_of(v@).take(i + 1) =~= diffs_of(v@).take(i as int).push(
                diffs_of(v@)[i as int],
            ));
        }
        i += 1;
    }
    proof {
        assert(diffs_of(v@).take((n - 1) as int) =~= diffs_of(v@));
    }
    r
}

/// All derivative levels of `v`, from `v` itself down to the first
/// all-zero level.
#[verifier::loop_isolation(false)]
pub fn autoderive(v: &Vec<i64>) -> (r: Vec<Vec<i64>>)
    requires
        levels_fit(v@),
    ensures
        r.deep_view() == levels_of(v@),
{
    let mut result: Vec<Vec<i64>> = Vec::new();
    result.push(v.clone());
    let mut next: Vec<i64> = v.clone();
    proof {
        assert(result.deep_view() =~~= seq![v@]);
    }
    loop
        invariant
            result.deep_view().len() > 0,
            result.deep_view().last() == next@,
            levels_fit(next@),
            levels_of(v@) =~~= result.deep_view() + levels_below(next@),
        decreases next@.len(),
    {
        let n = next.len();
        let mut zeroes = true;
        let mut k: usize = 0;
        while k < n
            invariant
                k <= n,
                n == next@.len(),
                zeroes == (forall|t: int| 0 <= t < k ==> #[trigger] next@[t] == 0i64),
            decreases n - k,
        {
            if next[k] != 0 {
                zeroes = false;
                proof {
                    assert(next@[k as int] != 0i64);
                }
                break;
            }
            k += 1;
        }
        if zeroes {
            proof {
                assert(all_zero(next@));
                assert(levels_below(next@) =~~= Seq::<Seq<i64>>::empty());
                assert(result.deep_view() =~~= levels_of(v@));
            }
            return result;
        }
        proof {
            assert(!all_zero(next@));
            assert(next@.len() >= 1);
            assert(levels_below(next@) == seq![diffs_of(next@)] + levels_below(diffs_of(next@)));
        }
        let d = derivative(&next);
        let ghost old_result = result;
        result.push(d.clone());
        next = d;
        proof {
            assert(result.deep_view() =~~= old_result.deep_view().push(next@));
            assert(levels_of(v@) =~~= result.deep_view() + levels_below(next@));
        }
    }
}

/// The value level `k` gains on the right: 0 at the bottom, else the
/// level's last value plus the gain of the level below.
pub open spec fn right_gain(levels: Seq<Seq<i64>>, k: int) -> int
    decreases levels.len() - k,
{
    if k < 0 || k >= levels.len() - 1 {
        0
    } else {
        levels[k].last() + right_gain(levels, k + 1)
    }
}

/// The value level `k` gains on the left: the level's first value minus
/// what stands first in the level below — the bottom level itself gains
/// only a trailing 0 and contributes its own first value (or 0 when
/// empty).
pub open spec fn left_gain(levels: Seq<Seq<i64>>, k: int) -> int
    decreases levels.len() - k,
{
    if k < 0 || k >= levels.len() - 1 {
        0
    } else {
        let below = if k == levels.len() - 2 {
            if levels[k + 1].len() == 0 {
                0
            } else {
                levels[k + 1][0] as int
            }
        } else {
            left_gain(levels, k + 1)
        };
        levels[k][0] - below
    }
}

/// Extends every level by one value on the right, bottom-up: the bottom
/// level gains a 0, every level above gains its last value plus the value
/// the level below just gained.
#[verifier::loop_isolation(false)]
pub fn extrapolate(v: &mut Vec<Vec<i64>>)
    requires
        old(v)@.len() >= 1,
        forall|k: int| 0 <= k < old(v)@.len() - 1 ==> (#[trigger] old(v).deep_view()[k]).len() >= 1,
        forall|k: int|
            0 <= k < old(v)@.len() ==> i64::MIN <= #[trigger] right_gain(old(v).deep_view(), k)
                <= i64::MAX,
    ensures
        final(v)@.len() == old(v)@.len(),
        forall|k: int|
            0 <= k < old(v)@.len() ==> #[trigger] final(v).deep_view()[k]
                == old(v).deep_view()[k].push(right_gain(old(v).deep_view(), k) as i64),
{
    let ghost orig = old(v).deep_view();
    let n = v.len();
    v[n - 1].push(0);
    proof {
        assert(right_gain(orig, n - 1) == 0);
        assert(v.deep_view()[n - 1] =~= orig[n - 1].push(right_gain(orig, n - 1) as i64));
        assert forall|k: int| 0 <= k < n - 1 implies #[trigger] v.deep_view()[k] == orig[k] by {
            assert(v.deep_view()[k] =~= orig[k]);
        }
    }
    let mut i: usize = 1;
    while i < n
        invariant
            1 <= i <= n,
            n == v@.len(),
            forall|k: int|
                n - i <= k < n ==> #[trigger] v.deep_view()[k] == orig[k].push(
                    right_gain(orig, k) as i64,
                ),
            forall|k: int| 0 <= k < n - i ==> #[trigger] v.deep_view()[k] == orig[k],
        decreases n - i,
    {
        let level_idx = n - i - 1;
        proof {
            assert(v@[level_idx + 1]@ == v.deep_view()[level_idx + 1]);
            assert(v.deep_view()[level_idx + 1] == orig[level_idx + 1].push(
                right_gain(orig, level_idx + 1) as i64,
            ));
        }
        let lower_len = v[level_idx + 1].len();
        let last_lower = v[level_idx + 1][lower_len - 1];
        proof {
            assert(last_lower as int == right_gain(orig, level_idx + 1));
            assert(v.deep_view()[level_idx as int] == orig[level_idx as int]);
            assert(v@[level_idx as int]@ == v.deep_view()[level_idx as int]);
            assert(orig[level_idx as int].len() >= 1);
        }
        let level_len = v[level_idx].len();
        let last_here = v[level_idx][level_len - 1];
        proof {
            assert(last_here == orig[level_idx as int].last());
            assert(right_gain(orig, level_idx as int) == orig[level_idx as int].last()
                + right_gain(orig, level_idx + 1));
        }
        let gained = last_here + last_lower;
        let ghost before = v.deep_view();
        v[level_idx].push(gained);
        proof {
            assert(v.deep_view()[level_idx as int] =~= before[level_idx as int].push(gained));
            assert forall|k: int| 0 <= k < n && k != level_idx implies #[trigger] v.deep_view()[k]
                == before[k] by {
                assert(v.deep_view()[k] =~= before[k]);
            }
        }
        i += 1;
    }
}

/// Extends the bottom level by a trailing 0, then extends every level
/// above by one value on the left: its first value minus what stands
/// first in the level below.
#[verifier::loop_isolation(false)]
pub fn extrapolate_left(v: &mut Vec<Vec<i64>>)
    requires
        old(v)@.len() >= 1,
        forall|k: int| 0 <= k < old(v)@.len() - 1 ==> (#[trigger] old(v).deep_view()[k]).len() >= 1,
        forall|k: int|
            0 <= k < old(v)@.len() ==> i64::MIN <= #[trigger] left_gain(old(v).deep_view(), k)
                <= i64::MAX,
    ensures
        final(v)@.len() == old(v)@.len(),
        final(v).deep_view()[old(v)@.len() - 1] == old(v).deep_view()[old(v)@.len() - 1].push(
            0i64,
        ),
        forall|k: int|
            0 <= k < old(v)@.len() - 1 ==> #[trigger] final(v).deep_view()[k] == seq![
                left_gain(old(v).deep_view(), k) as i64,
            ] + old(v).deep_view()[k],
{
    let ghost orig = old(v).deep_view();
    let n = v.len();
    v[n - 1].push(0);
    proof {
        assert(v.deep_view()[n - 1] =~= orig[n - 1].push(0i64));
        assert forall|k: int| 0 <= k < n - 1 implies #[trigger] v.deep_view()[k] == orig[k] by {
            assert(v.deep_view()[k] =~= orig[k]);
        }
    }
    let mut i: usize = 1;
    while i < n
        invariant
            1 <= i <= n,
            n == v@.len(),
            v.deep_view()[n - 1] == orig[n - 1].push(0i64),
            forall|k: int|
                n - i <= k < n - 1 ==> #[trigger] v.deep_view()[k] == seq![
                    left_gain(orig, k) as i64,
                ] + orig[k],
            forall|k: int| 0 <= k < n - i ==> #[trigger] v.deep_view()[k] == orig[k],
        decreases n - i,
    {
        let level_idx = n - i - 1;
        proof {
            assert(v@[level_idx + 1]@ == v.deep_view()[level_idx + 1]);
            if level_idx + 1 == n - 1 {
                assert(v.deep_view()[n - 1].len() >= 1);
            } else {
                assert(v.deep_view()[level_idx + 1].len() >= 1);
            }
        }
        let first_lower = v[level_idx + 1][0];
        proof {
            if level_idx + 1 == n - 1 {
                assert(v.deep_view()[n - 1] == orig[n - 1].push(0i64));
                if orig[n - 1].len() == 0 {
                    assert(first_lower == 0i64);
                } else {
                    assert(first_lower == orig[n - 1][0]);
                }
            } else {
                assert(v.deep_view()[level_idx + 1] == seq![left_gain(orig, level_idx + 1) as i64]
                    + orig[level_idx + 1]);
                assert(first_lower as int == left_gain(orig, level_idx + 1));
            }
            assert(v.deep_view()[level_idx as int] == orig[level_idx as int]);
            assert(orig[level_idx as int].len() >= 1);
        }
        let first_here = v[level_idx][0];
        proof {
            assert(first_here == orig[level_idx as int][0]);
            assert(first_here as int - first_lower as int == left_gain(orig, level_idx as int));
            assert(i64::MIN <= left_gain(orig, level_idx as int) <= i64::MAX);
        }
        let gained = first_here - first_lower;
        let ghost before = v.deep_view();
        v[level_idx].insert(0, gained);
        proof {
            assert(gained as int == left_gain(orig, level_idx as int));
            assert(v.deep_view()[level_idx as int] =~= seq![gained] + before[level_idx as int]);
            assert forall|k: int| 0 <= k < n && k != level_idx implies #[trigger] v.deep_view()[k]
                == before[k] by {
                assert(v.deep_view()[k] =~= before[k]);
            }
        }
        i += 1;
    }
}

/// The next value a history line predicts: what its top level gains on
/// the right.
pub open spec fn next_value(s: Seq<i64>) -> int {
    right_gain(levels_of(s), 0)
}

/// The previous value a history line predicts: what its top level gains
/// on the left.
pub open spec fn prev_value(s: Seq<i64>) -> int {
    left_gain(levels_of(s), 0)
}

/// The numbers of line `k`.
pub open spec fn nums_of_line(contents: Seq<char>, k: int) -> Seq<i64> {
    text::i64s_of_tokens(text::split_ws(text::split_lines(contents)[k]))
}

pub open spec fn line_fits(contents: Seq<char>, k: int) -> bool {
    let s = nums_of_line(contents, k);
    &&& levels_fit(s)
    &&& forall|t: int|
        0 <= t < levels_of(s).len() ==> i64::MIN <= #[trigger] right_gain(levels_of(s), t)
            <= i64::MAX
    &&& forall|t: int|
        0 <= t < levels_of(s).len() ==> i64::MIN <= #[trigger] left_gain(levels_of(s), t)
            <= i64::MAX
    &&& forall|t: int| 0 <= t < levels_of(s).len() - 1 ==> (#[trigger] levels_of(s)[t]).len() >= 1
}

/// The sums of the predicted next values of the first `k` lines.
pub open spec fn next_sum(contents: Seq<char>, k: int) -> int
    decreases k,
{
    if k <= 0 {
        0
    } else {
        next_sum(contents, k - 1) + next_value(nums_of_line(contents, k - 1))
    }
}

/// The sums of the predicted previous values of the first `k` lines.
pub open spec fn prev_sum(contents: Seq<char>, k: int) -> int
    decreases k,
{
    if k <= 0 {
        0
    } else {
        prev_sum(contents, k - 1) + prev_value(nums_of_line(contents, k - 1))
    }
}

/// Sums the next value every history line predicts.
#[verifier::loop_isolation(false)]
pub fn part1(input: String) -> (r: i64)
    requires
        forall|k: int| 0 <= k < text::split_lines(input@).len() ==> #[trigger] line_fits(input@, k),
        forall|k: int|
            0 <= k <= text::split_lines(input@).len() ==> i64::MIN <= #[trigger] next_sum(
                input@,
                k,
            ) <= i64::MAX,
    ensures
        r as int == next_sum(input@, text::split_lines(input@).len() as int),
{
    let chars = text::str_chars(input.as_str());
    let lines = text::split_lines_exec(&chars);
    let n = lines.len();
    let mut result: i64 = 0;
    let mut i: usize = 0;
    while i < n
        invariant
            i <= n,
            n == text::split_lines(input@).len(),
            result as int == next_sum(input@, i as int),
        decreases n - i,
    {
        proof {
            assert(lines@[i as int]@ == text::split_lines(input@)[i as int]);
            assert(line_fits(input@, i as int));
        }
        let toks = text::split_ws_exec(&lines[i]);
        let sequence = text::parse_i64_tokens(&toks);
        let ghost s = nums_of_line(input@, i as int);
        let mut layers = autoderive(&sequence);
        proof {
            assert(layers.deep_view().len() == levels_of(s).len());
            assert(layers@.len() >= 1);
        }
        let ghost pre = layers.deep_view();
        extrapolate(&mut layers);
        proof {
            assert(forall|k: int|
                0 <= k < pre.len() ==> #[trigger] layers.deep_view()[k] == pre[k].push(
                    right_gain(pre, k) as i64,
                ));
            assert(layers@[0]@ == layers.deep_view()[0]);
            assert(layers.deep_view()[0] == levels_of(s)[0].push(
                right_gain(levels_of(s), 0) as i64,
            ));
        }
        let top_len = layers[0].len();
        let added = layers[0][top_len - 1];
        proof {
            assert(added as int == next_value(s));
            assert(next_sum(input@, i + 1) == next_sum(input@, i as int) + next_value(s));
            assert(i64::MIN <= next_sum(input@, i + 1) <= i64::MAX);
        }
        result = result + added;
        i += 1;
    }
    result
}

/// Sums the previous value every history line predicts.
#[verifier::loop_isolation(false)]
pub fn part2(input: String) -> (r: i64)
    requires
        forall|k: int| 0 <= k < text::split_lines(input@).len() ==> #[trigger] line_fits(input@, k),
        forall|k: int|
            0 <= k <= text::split_lines(input@).len() ==> i64::MIN <= #[trigger] prev_sum(
                input@,
                k,
            ) <= i64::MAX,
    ensures
        r as int == prev_sum(input@, text::split_lines(input@).len() as int),
{
    let chars = text::str_chars(input.as_str());
    let lines = text::split_lines_exec(&chars);
    let n = lines.len();
    let mut result: i64 = 0;
    let mut i: usize = 0;
    while i < n
        invariant
            i <= n,
            n == text::split_lines(input@).len(),
            result as int == prev_sum(input@, i as int),
        decreases n - i,
    {
        proof {
            assert(lines@[i as int]@ == text::split_lines(input@)[i as int]);
            assert(line_fits(input@, i as int));
        }
        let toks = text::split_ws_exec(&lines[i]);
        let sequence = text::parse_i64_tokens(&toks);
        let ghost s = nums_of_line(input@, i as int);
        let mut layers = autoderive(&sequence);
        proof {
            assert(layers.deep_view().len() == levels_of(s).len());
            assert(layers@.len() >= 1);
        }
        let ghost pre = layers.deep_view();
        extrapolate_left(&mut layers);
        proof {
            assert(layers.deep_view()[pre.len() - 1] == pre[pre.len() - 1].push(0i64));
            assert(forall|k: int|
                0 <= k < pre.len() - 1 ==> #[trigger] layers.deep_view()[k] == seq![
                    left_gain(pre, k) as i64,
                ] + pre[k]);
            assert(layers@[0]@ == layers.deep_view()[0]);
        }
        let added = layers[0][0];
        proof {
            if levels_of(s).len() == 1 {
                assert(levels_below(s) =~~= Seq::<Seq<i64>>::empty());
                assert(all_zero(s));
                assert(layers.deep_view()[0] == levels_of(s)[0].push(0i64));
                assert(added == 0i64);
                assert(prev_value(s) == 0);
            } else {
                assert(layers.deep_view()[0] == seq![left_gain(levels_of(s), 0) as i64]
                    + levels_of(s)[0]);
                assert(added as int == prev_value(s));
            }
            assert(prev_sum(input@, i + 1) == prev_sum(input@, i as int) + prev_value(s));
            assert(i64::MIN <= prev_sum(input@, i + 1) <= i64::MAX);
        }
        result = result + added;
        i += 1;
    }
    result
}

} // verus!
