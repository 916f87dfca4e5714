//! Character-level text utilities shared by the daily solvers: whitespace
//! tokenization, line splitting, substring splitting, and decimal number
//! parsing, each with an exact specification over sequences of characters.

use vstd::prelude::*;

verus! {

// ---------------------------------------------------------------------------
// Character classes
// ---------------------------------------------------------------------------

/// The Unicode `White_Space` characters, the set `char::is_whitespace`
/// recognizes.
pub open spec fn is_space_char(c: char) -> bool {
    c == ' ' || c == '\t' || c == '\n' || c == '\u{b}' || c == '\u{c}' || c == '\r'
        || c == '\u{85}' || c == '\u{a0}' || c == '\u{1680}' || c == '\u{2000}'
        || c == '\u{2001}' || c == '\u{2002}' || c == '\u{2003}' || c == '\u{2004}'
        || c == '\u{2005}' || c == '\u{2006}' || c == '\u{2007}' || c == '\u{2008}'
        || c == '\u{2009}' || c == '\u{200a}' || c == '\u{2028}' || c == '\u{2029}'
        || c == '\u{202f}' || c == '\u{205f}' || c == '\u{3000}'
}

pub fn is_space(c: char) -> (r: bool)
    ensures
        r == is_space_char(c),
{
    c == ' ' || c == '\t' || c == '\n' || c == '\u{b}' || c == '\u{c}' || c == '\r'
        || c == '\u{85}' || c == '\u{a0}' || c == '\u{1680}' || c == '\u{2000}'
        || c == '\u{2001}' || c == '\u{2002}' || c == '\u{2003}' || c == '\u{2004}'
        || c == '\u{2005}' || c == '\u{2006}' || c == '\u{2007}' || c == '\u{2008}'
        || c == '\u{2009}' || c == '\u{200a}' || c == '\u{2028}' || c == '\u{2029}'
        || c == '\u{202f}' || c == '\u{205f}' || c == '\u{3000}'
}

pub open spec fn is_digit_char(c: char) -> bool {
    48 <= c as u32 <= 57
}

/// The numeric value of a decimal digit character; 0 for any other character.
pub open spec fn digit_val(c: char) -> int {
    if is_digit_char(c) {
        c as u32 - 48
    } else {
        0
    }
}

pub open spec fn all_digits(t: Seq<char>) -> bool {
    forall|k: int| 0 <= k < t.len() ==> is_digit_char(#[trigger] t[k])
}

/// The value of a string of decimal digits, most significant first.
pub open spec fn digits_val(t: Seq<char>) -> int
    decreases t.len(),
{
    if t.len() == 0 {
        0
    } else {
        digits_val(t.drop_last()) * 10 + digit_val(t.last())
    }
}

pub proof fn lemma_digits_val_nonneg(t: Seq<char>)
    ensures
        digits_val(t) >= 0,
    decreases t.len(),
{
    if t.len() > 0 {
        lemma_digits_val_nonneg(t.drop_last());
    }
}

/// Reading further digits never shrinks the value already read.
pub proof fn lemma_digits_val_prefix_le(t: Seq<char>, i: int, j: int)
    requires
        0 <= i <= j <= t.len(),
    ensures
        digits_val(t.take(i)) <= digits_val(t.take(j)),
    decreases j - i,
{
    if i < j {
        lemma_digits_val_prefix_le(t, i, j - 1);
        assert(t.take(j).drop_last() =~= t.take(j - 1));
        lemma_digits_val_nonneg(t.take(j - 1));
    }
}

// ---------------------------------------------------------------------------
// Converting between &str / String and Vec<char>
// ---------------------------------------------------------------------------

/// The characters of a string slice, in order.
pub fn str_chars(s: &str) -> (r: Vec<char>)
    ensures
        r@ == s@,
{
    let n = s.unicode_len();
    let mut r: Vec<char> = Vec::new();
    let mut i: usize = 0;
    while i < n
        invariant
            i <= n,
            n == s@.len(),
            r@ == s@.take(i as int),
        decreases n - i,
    {
        r.push(s.get_char(i));
        proof {
            assert(s@.take(i + 1) =~= s@.take(i as int).push(s@[i as int]));
        }
        i += 1;
    }
    proof {
        assert(r@ =~= s@);
    }
    r
}

/// Relies on `String`'s `FromIterator<char>`: collecting characters yields
/// the string with exactly those characters in order.
#[verifier::external_body]
pub fn chars_to_string(v: &Vec<char>) -> (r: String)
    ensures
        r@ == v@,
{
    v.iter().collect()
}

// ---------------------------------------------------------------------------
// Whitespace tokenization (the splitting `str::split_whitespace` performs)
// ---------------------------------------------------------------------------

/// The remaining whitespace-separated tokens of `s` from position `i`
/// onward, given the partial token `cur` read so far.
pub open spec fn split_ws_from(s: Seq<char>, i: int, cur: Seq<char>) -> Seq<Seq<char>>
    decreases s.len() - i,
{
    if i < 0 || i >= s.len() {
        if cur.len() == 0 {
            seq![]
        } else {
            seq![cur]
        }
    } else if is_space_char(s[i]) {
        if cur.len() == 0 {
            split_ws_from(s, i + 1, seq![])
        } else {
            seq![cur] + split_ws_from(s, i + 1, seq![])
        }
    } else {
        split_ws_from(s, i + 1, cur.push(s[i]))
    }
}

/// The maximal nonempty runs of non-whitespace characters of `s`, in order.
pub open spec fn split_ws(s: Seq<char>) -> Seq<Seq<char>> {
    split_ws_from(s, 0, seq![])
}

pub fn split_ws_exec(s: &Vec<char>) -> (r: Vec<Vec<char>>)
    ensures
        r.deep_view() == split_ws(s@),
{
    let n = s.len();
    let mut out: Vec<Vec<char>> = Vec::new();
    let mut cur: Vec<char> = Vec::new();
    let mut i: usize = 0;
    proof {
        assert(out.deep_view() + split_ws_from(s@, 0, cur@) =~~= split_ws(s@));
    }
    while i < n
        invariant
            i <= n,
            n == s@.len(),
            out.deep_view() + split_ws_from(s@, i as int, cur@) =~~= split_ws(s@),
        decreases n - i,
    {
        let c = s[i];
        let ghost old_out = out;
        let ghost old_cur = cur;
        if is_space(c) {
            if cur.len() > 0 {
                out.push(cur);
                cur = Vec::new();
                proof {
                    assert(split_ws_from(s@, i as int, old_cur@) == seq![old_cur@]
                        + split_ws_from(s@, i + 1, Seq::<char>::empty()));
                    assert(out.deep_view() =~~= old_out.deep_view().push(old_cur@));
                    assert(out.deep_view() + split_ws_from(s@, i + 1, cur@) =~~= old_out.deep_view()
                        + (seq![old_cur@] + split_ws_from(s@, i + 1, Seq::<char>::empty())));
                }
            } else {
                proof {
                    assert(split_ws_from(s@, i as int, old_cur@) == split_ws_from(
                        s@,
                        i + 1,
                        Seq::<char>::empty(),
                    ));
                    assert(cur@ =~= Seq::<char>::empty());
                }
            }
        } else {
            cur.push(c);
            proof {
                assert(split_ws_from(s@, i as int, old_cur@) == split_ws_from(
                    s@,
                    i + 1,
                    old_cur@.push(s@[i as int]),
                ));
                assert(cur@ =~= old_cur@.push(s@[i as int]));
            }
        }
        i += 1;
    }
    if cur.len() > 0 {
        let ghost old_out = out;
        out.push(cur);
        proof {
            assert(out.deep_view() =~~= old_out.deep_view().push(cur@));
        }
    }
    proof {
        assert(out.deep_view() =~~= split_ws(s@));
    }
    out
}

// ---------------------------------------------------------------------------
// Decimal tokens as u64 / i64 (what `str::parse` accepts)
// ---------------------------------------------------------------------------

/// The `u64` a token denotes, if any: an optional `+`, then one or more
/// decimal digits whose value fits.
pub open spec fn u64_token_value(t: Seq<char>) -> Option<u64> {
    let body = if t.len() > 0 && t[0] == '+' {
        t.drop_first()
    } else {
        t
    };
    if body.len() > 0 && all_digits(body) && digits_val(body) <= u64::MAX {
        Some(digits_val(body) as u64)
    } else {
        None
    }
}

/// The `i64` a token denotes, if any: an optional sign, then one or more
/// decimal digits whose signed value fits.
pub open spec fn i64_token_value(t: Seq<char>) -> Option<i64> {
    let neg = t.len() > 0 && t[0] == '-';
    let body = if t.len() > 0 && (t[0] == '+' || t[0] == '-') {
        t.drop_first()
    } else {
        t
    };
    if body.len() > 0 && all_digits(body) {
        if neg {
            if digits_val(body) <= 0x8000_0000_0000_0000 {
                Some((0 - digits_val(body)) as i64)
            } else {
                None
            }
        } else {
            if digits_val(body) <= i64::MAX {
                Some(digits_val(body) as i64)
            } else {
                None
            }
        }
    } else {
        None
    }
}

#[verifier::loop_isolation(false)]
pub fn parse_u64_token(t: &Vec<char>) -> (r: Option<u64>)
    ensures
        r == u64_token_value(t@),
{
    let n = t.len();
    let start: usize = if n > 0 && t[0] == '+' {
        1
    } else {
        0
    };
    let ghost body = if start == 1 {
        t@.drop_first()
    } else {
        t@
    };
    proof {
        assert(body =~= t@.subrange(start as int, n as int));
    }
    if start >= n {
        return None;
    }
    let mut val: u64 = 0;
    let mut i: usize = start;
    while i < n
        invariant
            start <= i <= n,
            n == t@.len(),
            start <= 1,
            body == t@.subrange(start as int, n as int),
            all_digits(body.take(i - start)),
            val == digits_val(body.take(i - start)),
        decreases n - i,
    {
        let c = t[i];
        let u = c as u32;
        let ghost m = i - start;
        proof {
            assert(body[m as int] == t@[i as int]);
        }
        if u < 48 || u > 57 {
            proof {
                assert(!is_digit_char(body[m as int]));
                assert(!all_digits(body));
            }
            return None;
        }
        let d = (u - 48) as u64;
        proof {
            assert(body.take(m + 1).drop_last() =~= body.take(m as int));
            assert(body.take(m + 1).last() == body[m as int]);
            assert(digits_val(body.take(m + 1)) == digits_val(body.take(m as int)) * 10 + digit_val(
                body[m as int],
            ));
        }
        let next = match val.checked_mul(10) {
            Some(v10) => v10.checked_add(d),
            None => None,
        };
        match next {
            Some(v) => {
                val = v;
            },
            None => {
                proof {
                    if all_digits(body) && digits_val(body) <= u64::MAX {
                        lemma_digits_val_prefix_le(body, m + 1, body.len() as int);
                        assert(body.take(body.len() as int) =~= body);
                        assert(false);
                    }
                }
                return None;
            },
        }
        proof {
            assert(all_digits(body.take(m + 1)));
        }
        i += 1;
    }
    proof {
        assert(body.take(n - start) =~= body);
    }
    Some(val)
}

#[verifier::loop_isolation(false)]
pub fn parse_i64_token(t: &Vec<char>) -> (r: Option<i64>)
    ensures
        r == i64_token_value(t@),
{
    let n = t.len();
    let neg = n > 0 && t[0] == '-';
    let start: usize = if n > 0 && (t[0] == '+' || t[0] == '-') {
        1
    } else {
        0
    };
    let ghost body = if start == 1 {
        t@.drop_first()
    } else {
        t@
    };
    proof {
        assert(body =~= t@.subrange(start as int, n as int));
    }
    if start >= n {
        return None;
    }
    let limit: u64 = if neg {
        0x8000_0000_0000_0000
    } else {
        0x7fff_ffff_ffff_ffff
    };
    let mut val: u64 = 0;
    let mut i: usize = start;
    while i < n
        invariant
            start <= i <= n,
            n == t@.len(),
            start <= 1,
            body == t@.subrange(start as int, n as int),
            all_digits(body.take(i - start)),
            val == digits_val(body.take(i - start)),
            val <= limit,
            limit == if neg {
                0x8000_0000_0000_0000u64
            } else {
                0x7fff_ffff_ffff_ffffu64
            },
        decreases n - i,
    {
        let c = t[i];
        let u = c as u32;
        let ghost m = i - start;
        proof {
            assert(body[m as int] == t@[i as int]);
        }
        if u < 48 || u > 57 {
            proof {
                assert(!is_digit_char(body[m as int]));
                assert(!all_digits(body));
            }
            return None;
        }
        let d = (u - 48) as u64;
        proof {
            assert(body.take(m + 1).drop_last() =~= body.take(m as int));
            assert(body.take(m + 1).last() == body[m as int]);
            assert(digits_val(body.take(m + 1)) == digits_val(body.take(m as int)) * 10 + digit_val(
                body[m as int],
            ));
        }
        let next = match val.checked_mul(10) {
            Some(v10) => v10.checked_add(d),
            None => None,
        };
        let ok = match next {
            Some(v) => v <= limit,
            None => false,
        };
        if !ok {
            proof {
                if all_digits(body) && digits_val(body) <= limit {
                    lemma_digits_val_prefix_le(body, m + 1, body.len() as int);
                    assert(body.take(body.len() as int) =~= body);
                    assert(false);
                }
            }
            return None;
        }
        val = match next {
            Some(v) => v,
            None => 0,
        };
        proof {
            assert(all_digits(body.take(m + 1)));
        }
        i += 1;
    }
    proof {
        assert(body.take(n - start) =~= body);
    }
    if neg {
        if val == 0x8000_0000_0000_0000 {
            Some(i64::MIN)
        } else {
            Some(-(val as i64))
        }
    } else {
        Some(val as i64)
    }
}

/// The values of the tokens that parse as `u64`, in order.
pub open spec fn u64s_of_tokens(ts: Seq<Seq<char>>) -> Seq<u64>
    decreases ts.len(),
{
    if ts.len() == 0 {
        seq![]
    } else {
        let rest = u64s_of_tokens(ts.drop_first());
        match u64_token_value(ts[0]) {
            Some(v) => seq![v] + rest,
            None => rest,
        }
    }
}

/// The values of the tokens that parse as `i64`, in order.
pub open spec fn i64s_of_tokens(ts: Seq<Seq<char>>) -> Seq<i64>
    decreases ts.len(),
{
    if ts.len() == 0 {
        seq![]
    } else {
        let rest = i64s_of_tokens(ts.drop_first());
        match i64_token_value(ts[0]) {
            Some(v) => seq![v] + rest,
            None => rest,
        }
    }
}

pub fn parse_u64_tokens(ts: &Vec<Vec<char>>) -> (r: Vec<u64>)
    ensures
        r@ == u64s_of_tokens(ts.deep_view()),
{
    let n = ts.len();
    let mut out: Vec<u64> = Vec::new();
    let mut i: usize = 0;
    proof {
        assert(ts.deep_view().subrange(0, n as int) =~= ts.deep_view());
        assert(out@ + u64s_of_tokens(ts.deep_view()) =~= u64s_of_tokens(ts.deep_view()));
    }
    while i < n
        invariant
            i <= n,
            n == ts@.len(),
            u64s_of_tokens(ts.deep_view()) == out@ + u64s_of_tokens(
                ts.deep_view().subrange(i as int, n as int),
            ),
        decreases n - i,
    {
        let ghost pre = ts.deep_view().subrange(i as int, n as int);
        let ghost old_out = out;
        proof {
            assert(pre.drop_first() =~= ts.deep_view().subrange(i + 1, n as int));
            assert(pre[0] =~= ts@[i as int]@);
        }
        match parse_u64_token(&ts[i]) {
            Some(v) => {
                out.push(v);
                proof {
                    assert(u64s_of_tokens(pre) == seq![v] + u64s_of_tokens(pre.drop_first()));
                    assert(old_out@ + u64s_of_tokens(pre) =~= out@ + u64s_of_tokens(
                        pre.drop_first(),
                    ));
                }
            },
            None => {
                proof {
                    assert(u64s_of_tokens(pre) == u64s_of_tokens(pre.drop_first()));
                }
            },
        }
        i += 1;
    }
    proof {
        assert(ts.deep_view().subrange(n as int, n as int) =~= Seq::<Seq<char>>::empty());
        assert(out@ =~= u64s_of_tokens(ts.deep_view()));
    }
    out
}

pub fn parse_i64_tokens(ts: &Vec<Vec<char>>) -> (r: Vec<i64>)
    ensures
        r@ == i64s_of_tokens(ts.deep_view()),
{
    let n = ts.len();
    let mut out: Vec<i64> = Vec::new();
    let mut i: usize = 0;
    proof {
        assert(ts.deep_view().subrange(0, n as int) =~= ts.deep_view());
        assert(out@ + i64s_of_tokens(ts.deep_view()) =~= i64s_of_tokens(ts.deep_view()));
    }
    while i < n
        invariant
            i <= n,
            n == ts@.len(),
            i64s_of_tokens(ts.deep_view()) == out@ + i64s_of_tokens(
                ts.deep_view().subrange(i as int, n as int),
            ),
        decreases n - i,
    {
        let ghost pre = ts.deep_view().subrange(i as int, n as int);
        let ghost old_out = out;
        proof {
            assert(pre.drop_first() =~= ts.deep_view().subrange(i + 1, n as int));
            assert(pre[0] =~= ts@[i as int]@);
        }
        match parse_i64_token(&ts[i]) {
            Some(v) => {
                out.push(v);
                proof {
                    assert(i64s_of_tokens(pre) == seq![v] + i64s_of_tokens(pre.drop_first()));
                    assert(old_out@ + i64s_of_tokens(pre) =~= out@ + i64s_of_tokens(
                        pre.drop_first(),
                    ));
                }
            },
            None => {
                proof {
                    assert(i64s_of_tokens(pre) == i64s_of_tokens(pre.drop_first()));
                }
            },
        }
        i += 1;
    }
    proof {
        assert(ts.deep_view().subrange(n as int, n as int) =~= Seq::<Seq<char>>::empty());
        assert(out@ =~= i64s_of_tokens(ts.deep_view()));
    }
    out
}

// ---------------------------------------------------------------------------
// Subsequences and comparisons
// ---------------------------------------------------------------------------

/// A copy of `v[lo..hi]`.
pub fn subvec(v: &Vec<char>, lo: usize, hi: usize) -> (r: Vec<char>)
    requires
        lo <= hi <= v@.len(),
    ensures
        r@ == v@.subrange(lo as int, hi as int),
{
    let mut r: Vec<char> = Vec::new();
    let mut i: usize = lo;
    while i < hi
        invariant
            lo <= i <= hi <= v@.len(),
            r@ == v@.subrange(lo as int, i as int),
        decreases hi - i,
    {
        r.push(v[i]);
        proof {
            assert(v@.subrange(lo as int, i + 1) =~= v@.subrange(lo as int, i as int).push(
                v@[i as int],
            ));
        }
        i += 1;
    }
    r
}

/// Whether `p` occurs in `s` starting at position `at`.
pub open spec fn starts_with_at(s: Seq<char>, p: Seq<char>, at: int) -> bool {
    0 <= at && at + p.len() <= s.len() && s.subrange(at, at + p.len()) == p
}

#[verifier::loop_isolation(false)]
pub fn matches_at(s: &Vec<char>, p: &Vec<char>, at: usize) -> (r: bool)
    ensures
        r == starts_with_at(s@, p@, at as int),
{
    if at > s.len() || p.len() > s.len() - at {
        proof {
            assert(!starts_with_at(s@, p@, at as int));
        }
        return false;
    }
    let m = p.len();
    let mut k: usize = 0;
    while k < m
        invariant
            k <= m,
            s@.subrange(at as int, at + k) =~= p@.subrange(0, k as int),
        decreases m - k,
    {
        if s[at + k] != p[k] {
            proof {
                assert(s@.subrange(at as int, at + p@.len())[k as int] == s@[at + k]);
            }
            return false;
        }
        proof {
            assert(s@.subrange(at as int, at + k + 1) =~= s@.subrange(at as int, at + k).push(
                s@[at + k],
            ));
            assert(p@.subrange(0, k + 1) =~= p@.subrange(0, k as int).push(p@[k as int]));
        }
        k += 1;
    }
    proof {
        assert(p@.subrange(0, m as int) =~= p@);
        assert(s@.subrange(at as int, at + m) =~= p@);
    }
    true
}

#[verifier::loop_isolation(false)]
pub fn vec_eq_str(v: &Vec<char>, s: &str) -> (r: bool)
    ensures
        r == (v@ == s@),
{
    let n = s.unicode_len();
    if v.len() != n {
        return false;
    }
    let mut i: usize = 0;
    while i < n
        invariant
            i <= n,
            v@.subrange(0, i as int) =~= s@.subrange(0, i as int),
        decreases n - i,
    {
        if v[i] != s.get_char(i) {
            return false;
        }
        proof {
            assert(v@.subrange(0, i + 1) =~= v@.subrange(0, i as int).push(v@[i as int]));
            assert(s@.subrange(0, i + 1) =~= s@.subrange(0, i as int).push(s@[i as int]));
        }
        i += 1;
    }
    proof {
        assert(v@.subrange(0, n as int) =~= v@);
        assert(s@.subrange(0, n as int) =~= s@);
    }
    true
}

#[verifier::loop_isolation(false)]
pub fn vecs_eq(a: &Vec<char>, b: &Vec<char>) -> (r: bool)
    ensures
        r == (a@ == b@),
{
    let n = a.len();
    if b.len() != n {
        return false;
    }
    let mut i: usize = 0;
    while i < n
        invariant
            i <= n,
            a@.subrange(0, i as int) =~= b@.subrange(0, i as int),
        decreases n - i,
    {
        if a[i] != b[i] {
            return false;
        }
        proof {
            assert(a@.subrange(0, i + 1) =~= a@.subrange(0, i as int).push(a@[i as int]));
            assert(b@.subrange(0, i + 1) =~= b@.subrange(0, i as int).push(b@[i as int]));
        }
        i += 1;
    }
    proof {
        assert(a@.subrange(0, n as int) =~= a@);
        assert(b@.subrange(0, n as int) =~= b@);
    }
    true
}

// ---------------------------------------------------------------------------
// Line splitting (what `str::lines` performs)
// ---------------------------------------------------------------------------

/// A line's content once terminated: a carriage return directly before the
/// line feed is dropped.
pub open spec fn strip_cr(l: Seq<char>) -> Seq<char> {
    if l.len() > 0 && l.last() == '\r' {
        l.drop_last()
    } else {
        l
    }
}

/// The remaining lines of `s` from position `i` onward, given the partial
/// line `cur` read so far.
pub open spec fn split_lines_from(s: Seq<char>, i: int, cur: Seq<char>) -> Seq<Seq<char>>
    decreases s.len() - i,
{
    if i < 0 || i >= s.len() {
        if cur.len() == 0 {
            seq![]
        } else {
            seq![cur]
        }
    } else if s[i] == '\n' {
        seq![strip_cr(cur)] + split_lines_from(s, i + 1, seq![])
    } else {
        split_lines_from(s, i + 1, cur.push(s[i]))
    }
}

/// The lines of `s`: separated by line feeds, a carriage return directly
/// before a line feed dropped, and no final empty line.
pub open spec fn split_lines(s: Seq<char>) -> Seq<Seq<char>> {
    split_lines_from(s, 0, seq![])
}

#[verifier::loop_isolation(false)]
pub fn split_lines_exec(s: &Vec<char>) -> (r: Vec<Vec<char>>)
    ensures
        r.deep_view() == split_lines(s@),
{
    let n = s.len();
    let mut out: Vec<Vec<char>> = Vec::new();
    let mut cur: Vec<char> = Vec::new();
    let mut i: usize = 0;
    proof {
        assert(out.deep_view() + split_lines_from(s@, 0, cur@) =~~= split_lines(s@));
    }
    while i < n
        invariant
            i <= n,
            out.deep_view() + split_lines_from(s@, i as int, cur@) =~~= split_lines(s@),
        decreases n - i,
    {
        let c = s[i];
        let ghost old_out = out;
        let ghost old_cur = cur;
        if c == '\n' {
            let line = if cur.len() > 0 && cur[cur.len() - 1] == '\r' {
                let mut l = cur;
                l.pop();
                l
            } else {
                cur
            };
            proof {
                assert(line@ =~= strip_cr(old_cur@));
            }
            out.push(line);
            cur = Vec::new();
            proof {
                assert(out.deep_view() =~~= old_out.deep_view().push(strip_cr(old_cur@)));
                assert(out.deep_view() + split_lines_from(s@, i + 1, cur@) =~~= old_out.deep_view()
                    + (seq![strip_cr(old_cur@)] + split_lines_from(s@, i + 1, Seq::<char>::empty())));
            }
        } else {
            cur.push(c);
            proof {
                assert(cur@ =~= old_cur@.push(s@[i as int]));
            }
        }
        i += 1;
    }
    if cur.len() > 0 {
        let ghost old_out = out;
        out.push(cur);
        proof {
            assert(out.deep_view() =~~= old_out.deep_view().push(cur@));
        }
    }
    proof {
        assert(out.deep_view() =~~= split_lines(s@));
    }
    out
}

// ---------------------------------------------------------------------------
// Splitting on a separator (what `str::split` performs)
// ---------------------------------------------------------------------------

/// The remaining parts of `s` from position `i` onward, split on the
/// leftmost non-overlapping occurrences of `sep`, given the partial part
/// `cur` read so far.
pub open spec fn split_str_from(s: Seq<char>, sep: Seq<char>, i: int, cur: Seq<char>) -> Seq<
    Seq<char>,
>
    decreases s.len() - i,
{
    if i < 0 || i >= s.len() {
        seq![cur]
    } else if starts_with_at(s, sep, i) && sep.len() > 0 {
        seq![cur] + split_str_from(s, sep, i + sep.len(), seq![])
    } else {
        split_str_from(s, sep, i + 1, cur.push(s[i]))
    }
}

/// The parts of `s` between the leftmost non-overlapping occurrences of
/// `sep`; always at least one part.
pub open spec fn split_str(s: Seq<char>, sep: Seq<char>) -> Seq<Seq<char>> {
    split_str_from(s, sep, 0, seq![])
}

#[verifier::loop_isolation(false)]
pub fn split_str_exec(s: &Vec<char>, sep: &Vec<char>) -> (r: Vec<Vec<char>>)
    requires
        sep@.len() > 0,
    ensures
        r.deep_view() == split_str(s@, sep@),
        r@.len() > 0,
{
    let n = s.len();
    let mut out: Vec<Vec<char>> = Vec::new();
    let mut cur: Vec<char> = Vec::new();
    let mut i: usize = 0;
    proof {
        assert(out.deep_view() + split_str_from(s@, sep@, 0, cur@) =~~= split_str(s@, sep@));
    }
    while i < n
        invariant
            i <= n,
            out.deep_view() + split_str_from(s@, sep@, i as int, cur@) =~~= split_str(s@, sep@),
        decreases n - i,
    {
        let ghost old_out = out;
        let ghost old_cur = cur;
        if matches_at(s, sep, i) {
            out.push(cur);
            cur = Vec::new();
            i += sep.len();
            proof {
                assert(out.deep_view() =~~= old_out.deep_view().push(old_cur@));
                assert(out.deep_view() + split_str_from(s@, sep@, i as int, cur@)
                    =~~= old_out.deep_view() + (seq![old_cur@] + split_str_from(
                    s@,
                    sep@,
                    i as int,
                    Seq::<char>::empty(),
                )));
            }
        } else {
            cur.push(s[i]);
            proof {
                assert(cur@ =~= old_cur@.push(s@[i as int]));
            }
            i += 1;
        }
    }
    let ghost old_out = out;
    out.push(cur);
    proof {
        assert(out.deep_view() =~~= old_out.deep_view().push(cur@));
        assert(out.deep_view() =~~= split_str(s@, sep@));
    }
    out
}

// ---------------------------------------------------------------------------
// Trimming (what `str::trim` and `str::trim_start_matches` perform)
// ---------------------------------------------------------------------------

pub open spec fn trim_start_spec(s: Seq<char>) -> Seq<char>
    decreases s.len(),
{
    if s.len() > 0 && is_space_char(s[0]) {
        trim_start_spec(s.drop_first())
    } else {
        s
    }
}

pub open spec fn trim_end_spec(s: Seq<char>) -> Seq<char>
    decreases s.len(),
{
    if s.len() > 0 && is_space_char(s.last()) {
        trim_end_spec(s.drop_last())
    } else {
        s
    }
}

/// `s` without leading and trailing whitespace.
pub open spec fn trim_spec(s: Seq<char>) -> Seq<char> {
    trim_end_spec(trim_start_spec(s))
}

#[verifier::loop_isolation(false)]
pub fn trim_exec(s: &Vec<char>) -> (r: Vec<char>)
    ensures
        r@ == trim_spec(s@),
{
    let n = s.len();
    let mut lo: usize = 0;
    proof {
        assert(s@.subrange(0, n as int) =~= s@);
    }
    while lo < n && is_space(s[lo])
        invariant
            lo <= n,
            trim_start_spec(s@) == trim_start_spec(s@.subrange(lo as int, n as int)),
        decreases n - lo,
    {
        proof {
            assert(s@.subrange(lo as int, n as int).drop_first() =~= s@.subrange(lo + 1, n as int));
        }
        lo += 1;
    }
    proof {
        if lo < n {
            assert(trim_start_spec(s@.subrange(lo as int, n as int)) == s@.subrange(
                lo as int,
                n as int,
            ));
        } else {
            assert(s@.subrange(lo as int, n as int) =~= Seq::<char>::empty());
        }
    }
    let mut hi: usize = n;
    while hi > lo && is_space(s[hi - 1])
        invariant
            lo <= hi <= n,
            trim_start_spec(s@) == s@.subrange(lo as int, n as int),
            trim_end_spec(s@.subrange(lo as int, n as int)) == trim_end_spec(
                s@.subrange(lo as int, hi as int),
            ),
        decreases hi,
    {
        proof {
            assert(s@.subrange(lo as int, hi as int).drop_last() =~= s@.subrange(
                lo as int,
                hi - 1,
            ));
        }
        hi -= 1;
    }
    proof {
        if hi > lo {
            assert(trim_end_spec(s@.subrange(lo as int, hi as int)) == s@.subrange(
                lo as int,
                hi as int,
            ));
        } else {
            assert(s@.subrange(lo as int, hi as int) =~= Seq::<char>::empty());
        }
    }
    subvec(s, lo, hi)
}

/// `s` with every copy of the leading prefix `p` removed, as
/// `str::trim_start_matches` removes them.
pub open spec fn strip_prefix_all(s: Seq<char>, p: Seq<char>) -> Seq<char>
    decreases s.len(),
{
    if p.len() > 0 && starts_with_at(s, p, 0) {
        strip_prefix_all(s.skip(p.len() as int), p)
    } else {
        s
    }
}

#[verifier::loop_isolation(false)]
pub fn strip_prefix_all_exec(s: &Vec<char>, p: &Vec<char>) -> (r: Vec<char>)
    requires
        p@.len() > 0,
    ensures
        r@ == strip_prefix_all(s@, p@),
{
    let n = s.len();
    let mut pos: usize = 0;
    proof {
        assert(s@.subrange(0, n as int) =~= s@);
    }
    while matches_at(s, p, pos)
        invariant
            pos <= n,
            strip_prefix_all(s@, p@) == strip_prefix_all(s@.subrange(pos as int, n as int), p@),
        decreases n - pos,
    {
        proof {
            let rest = s@.subrange(pos as int, n as int);
            assert(rest.subrange(0, p@.len() as int) =~= s@.subrange(
                pos as int,
                pos + p@.len(),
            ));
            assert(starts_with_at(rest, p@, 0));
            assert(rest.skip(p@.len() as int) =~= s@.subrange(pos + p@.len(), n as int));
        }
        pos += p.len();
    }
    proof {
        let rest = s@.subrange(pos as int, n as int);
        if starts_with_at(rest, p@, 0) {
            assert(rest.subrange(0, p@.len() as int) =~= s@.subrange(pos as int, pos + p@.len()));
            assert(starts_with_at(s@, p@, pos as int));
            assert(false);
        }
    }
    subvec(s, pos, n)
}

} // verus!
