//! Piecewise range remapping through a chain of mapping tables.
//!
//! A `Correspondence` translates one contiguous source interval to a
//! destination interval by a constant offset; a `ResourceMap` is an ordered
//! collection of correspondences with an identity default; a `SeedData`
//! chains several maps and answers smallest-location queries for single
//! values and for whole ranges without enumerating them.
//!
//! All intervals here are closed on both ends: a correspondence with length
//! `l` covers the `l + 1` source values `source_start ..= source_start + l`,
//! and a range `(a, b)` stands for the values `a ..= b`.

use vstd::prelude::*;

use crate::text;

verus! {

/// One contiguous source-to-destination translation rule.
#[derive(Debug, PartialEq, Eq, Structural, Hash, Clone, Copy)]
pub struct Correspondence {
    pub source_start: u64,
    pub destination_start: u64,
    pub range_length: u64,
}

/// Whether the value `v` lies in the closed range `r`.
pub open spec fn in_range(r: (u64, u64), v: int) -> bool {
    r.0 <= v <= r.1
}

/// Whether some range of `rs` contains the value `v`.
pub open spec fn in_some(rs: Seq<(u64, u64)>, v: int) -> bool {
    exists|k: int| 0 <= k < rs.len() && in_range(#[trigger] rs[k], v)
}

/// Whether the optional range `o` contains the value `v`.
pub open spec fn opt_contains(o: Option<(u64, u64)>, v: int) -> bool {
    match o {
        Some(r) => in_range(r, v),
        None => false,
    }
}

pub proof fn lemma_in_some_concat(a: Seq<(u64, u64)>, b: Seq<(u64, u64)>, v: int)
    ensures
        in_some(a + b, v) <==> (in_some(a, v) || in_some(b, v)),
{
    if in_some(a, v) {
        let k = choose|k: int| 0 <= k < a.len() && in_range(a[k], v);
        assert(in_range((a + b)[k], v));
    }
    if in_some(b, v) {
        let k = choose|k: int| 0 <= k < b.len() && in_range(b[k], v);
        assert(in_range((a + b)[a.len() + k], v));
    }
    if in_some(a + b, v) {
        let k = choose|k: int| 0 <= k < (a + b).len() && in_range((a + b)[k], v);
        if k < a.len() {
            assert(in_range(a[k], v));
        } else {
            assert(in_range(b[k - a.len()], v));
        }
    }
}

pub proof fn lemma_in_some_push(rs: Seq<(u64, u64)>, r: (u64, u64), v: int)
    ensures
        in_some(rs.push(r), v) <==> (in_some(rs, v) || in_range(r, v)),
{
    if in_some(rs, v) {
        let k = choose|k: int| 0 <= k < rs.len() && in_range(rs[k], v);
        assert(in_range(rs.push(r)[k], v));
    }
    if in_range(r, v) {
        assert(in_range(rs.push(r)[rs.len() as int], v));
    }
    if in_some(rs.push(r), v) {
        let k = choose|k: int| 0 <= k < rs.push(r).len() && in_range(rs.push(r)[k], v);
        if k < rs.len() {
            assert(in_range(rs[k], v));
        }
    }
}

impl Correspondence {
    /// Both interval ends stay within `u64`.
    pub open spec fn wf(self) -> bool {
        &&& self.source_start + self.range_length <= u64::MAX
        &&& self.destination_start + self.range_length <= u64::MAX
    }

    /// First covered source value.
    pub open spec fn src_lo(self) -> int {
        self.source_start as int
    }

    /// Last covered source value (the source interval is closed).
    pub open spec fn src_hi(self) -> int {
        self.source_start + self.range_length
    }

    /// Whether this rule translates the source value `v`.
    pub open spec fn covers(self, v: int) -> bool {
        self.src_lo() <= v <= self.src_hi()
    }

    /// The destination value for a covered source value `v`.
    pub open spec fn translate(self, v: int) -> int {
        v - self.source_start + self.destination_start
    }

    pub fn new(source_start: u64, destination_start: u64, range_length: u64) -> (r: Self)
        ensures
            r == (Correspondence { source_start, destination_start, range_length }),
    {
        Self { source_start, destination_start, range_length }
    }

    /// Builds the rule a puzzle line `<dest_start> <source_start> <length>`
    /// describes.
    pub fn from_line(line: &str) -> (r: Self)
        requires
            text::u64s_of_tokens(text::split_ws(line@)).len() >= 3,
        ensures
            r == Self::of_line(line@),
    {
        let nums = crate::parse_number_list(line);
        Self::new(nums[1], nums[0], nums[2])
    }

    /// The rule a puzzle line describes: destination start, source start,
    /// then length.
    pub open spec fn of_line(line: Seq<char>) -> Correspondence {
        let ns = text::u64s_of_tokens(text::split_ws(line));
        Correspondence { source_start: ns[1], destination_start: ns[0], range_length: ns[2] }
    }

    /// Translates a single value, or reports that this rule does not cover
    /// it.
    pub fn lookup(&self, idx: u64) -> (r: Option<u64>)
        requires
            self.wf(),
        ensures
            self.covers(idx as int) ==> r == Some(self.translate(idx as int) as u64),
            !self.covers(idx as int) ==> r is None,
    {
        if idx >= self.source_start && idx <= self.source_start + self.range_length {
            Some(self.destination_start + (idx - self.source_start))
        } else {
            None
        }
    }

    /// Splits one range against this rule's source interval: the covered
    /// part translated to destination coordinates, and the uncovered parts
    /// unchanged. Together they account for every value of the input range
    /// exactly once.
    pub fn split_range(&self, range: (u64, u64)) -> (res: (Option<(u64, u64)>, Vec<(u64, u64)>))
        requires
            self.wf(),
            range.0 <= range.1,
        ensures
            forall|v: int|
                (#[trigger] in_range(range, v) && self.covers(v)) <==> opt_contains(
                    res.0,
                    self.translate(v),
                ),
            forall|v: int|
                (#[trigger] in_range(range, v) && !self.covers(v)) <==> in_some(res.1@, v),
            res.0 matches Some(o) ==> o.0 <= o.1,
            forall|k: int| 0 <= k < res.1@.len() ==> (#[trigger] res.1@[k]).0 <= res.1@[k].1,
            res.1@.len() <= 2,
            res.1@.len() == 2 ==> res.1@[0].1 < res.1@[1].0,
    {
        let (start, end) = range;
        let s = self.source_start;
        let l = self.range_length;
        let d = self.destination_start;
        if start >= s && start <= s + l {
            if end <= s + l {
                let rem: Vec<(u64, u64)> = Vec::new();
                (Some((d + (start - s), d + (end - s))), rem)
            } else {
                let mut rem: Vec<(u64, u64)> = Vec::new();
                rem.push((s + l + 1, end));
                proof {
                    assert forall|v: int| (in_range(range, v) && !self.covers(v)) implies in_some(
                        rem@,
                        v,
                    ) by {
                        assert(in_range(rem@[0], v));
                    }
                }
                (Some((d + (start - s), d + l)), rem)
            }
        } else if end >= s && end <= s + l {
            let mut rem: Vec<(u64, u64)> = Vec::new();
            rem.push((start, s - 1));
            proof {
                assert forall|v: int| (in_range(range, v) && !self.covers(v)) implies in_some(
                    rem@,
                    v,
                ) by {
                    assert(in_range(rem@[0], v));
                }
            }
            (Some((d, d + (end - s))), rem)
        } else if start < s && end > s + l {
            let mut rem: Vec<(u64, u64)> = Vec::new();
            rem.push((start, s - 1));
            rem.push((s + l + 1, end));
            proof {
                assert forall|v: int| (in_range(range, v) && !self.covers(v)) implies in_some(
                    rem@,
                    v,
                ) by {
                    if v < s {
                        assert(in_range(rem@[0], v));
                    } else {
                        assert(in_range(rem@[1], v));
                    }
                }
            }
            (Some((d, d + l)), rem)
        } else {
            let mut rem: Vec<(u64, u64)> = Vec::new();
            rem.push((start, end));
            proof {
                assert forall|v: int| (in_range(range, v) && !self.covers(v)) implies in_some(
                    rem@,
                    v,
                ) by {
                    assert(in_range(rem@[0], v));
                }
            }
            (None, rem)
        }
    }

    /// Splits every range of `ranges` against this rule: the first result
    /// holds the uncovered parts unchanged, the second the covered parts
    /// translated to destination coordinates.
    #[verifier::loop_isolation(false)]
    pub fn overlaps(&self, ranges: &Vec<(u64, u64)>) -> (res: (Vec<(u64, u64)>, Vec<(u64, u64)>))
        requires
            self.wf(),
            forall|k: int| 0 <= k < ranges@.len() ==> (#[trigger] ranges@[k]).0 <= ranges@[k].1,
        ensures
            forall|v: int|
                #[trigger] in_some(res.0@, v) <==> (in_some(ranges@, v) && !self.covers(v)),
            forall|v: int|
                (#[trigger] in_some(ranges@, v) && self.covers(v)) <==> in_some(
                    res.1@,
                    self.translate(v),
                ),
            forall|k: int| 0 <= k < res.0@.len() ==> (#[trigger] res.0@[k]).0 <= res.0@[k].1,
            forall|k: int| 0 <= k < res.1@.len() ==> (#[trigger] res.1@[k]).0 <= res.1@[k].1,
    {
        let n = ranges.len();
        let mut leftovers: Vec<(u64, u64)> = Vec::new();
        let mut overlaps: Vec<(u64, u64)> = Vec::new();
        let mut i: usize = 0;
        while i < n
            invariant
                i <= n,
                forall|v: int|
                    #[trigger] in_some(leftovers@, v) <==> (in_some(ranges@.take(i as int), v)
                        && !self.covers(v)),
                forall|v: int|
                    (#[trigger] in_some(ranges@.take(i as int), v) && self.covers(v)) <==> in_some(
                        overlaps@,
                        self.translate(v),
                    ),
                forall|k: int|
                    0 <= k < leftovers@.len() ==> (#[trigger] leftovers@[k]).0 <= leftovers@[k].1,
                forall|k: int|
                    0 <= k < overlaps@.len() ==> (#[trigger] overlaps@[k]).0 <= overlaps@[k].1,
            decreases n - i,
        {
            let r = ranges[i];
            let (o, mut rem) = self.split_range(r);
            let ghost old_left = leftovers@;
            let ghost old_over = overlaps@;
            let ghost remv = rem@;
            leftovers.append(&mut rem);
            match o {
                Some(ov) => {
                    overlaps.push(ov);
                },
                None => {
                },
            }
            proof {
                assert(ranges@.take(i + 1) =~= ranges@.take(i as int).push(ranges@[i as int]));
                assert forall|v: int| #[trigger] in_some(leftovers@, v) <==> (in_some(
                    ranges@.take(i + 1),
                    v,
                ) && !self.covers(v)) by {
                    lemma_in_some_concat(old_left, remv, v);
                    lemma_in_some_push(ranges@.take(i as int), ranges@[i as int], v);
                }
                assert forall|v: int| (#[trigger] in_some(ranges@.take(i + 1), v) && self.covers(
                    v,
                )) <==> in_some(overlaps@, self.translate(v)) by {
                    lemma_in_some_push(ranges@.take(i as int), ranges@[i as int], v);
                    if o is Some {
                        lemma_in_some_push(old_over, o->0, self.translate(v));
                    }
                }
            }
            i += 1;
        }
        proof {
            assert(ranges@.take(n as int) =~= ranges@);
        }
        (leftovers, overlaps)
    }
}

// ---------------------------------------------------------------------------
// Mapping tables
// ---------------------------------------------------------------------------

/// The destination of the first rule of `cs` that covers `v`, if any.
pub open spec fn first_match(cs: Seq<Correspondence>, v: int) -> Option<int>
    decreases cs.len(),
{
    if cs.len() == 0 {
        None
    } else if cs[0].covers(v) {
        Some(cs[0].translate(v))
    } else {
        first_match(cs.drop_first(), v)
    }
}

pub proof fn lemma_first_match_snoc(cs: Seq<Correspondence>, c: Correspondence, v: int)
    ensures
        first_match(cs.push(c), v) == if first_match(cs, v) is Some {
            first_match(cs, v)
        } else if c.covers(v) {
            Some(c.translate(v))
        } else {
            None
        },
    decreases cs.len(),
{
    if cs.len() > 0 {
        assert(cs.push(c)[0] == cs[0]);
        assert(cs.push(c).drop_first() =~= cs.drop_first().push(c));
        lemma_first_match_snoc(cs.drop_first(), c, v);
        if cs[0].covers(v) {
            assert(first_match(cs.push(c), v) == Some(cs[0].translate(v)));
            assert(first_match(cs, v) == Some(cs[0].translate(v)));
        } else {
            assert(first_match(cs.push(c), v) == first_match(cs.drop_first().push(c), v));
            assert(first_match(cs, v) == first_match(cs.drop_first(), v));
        }
    } else {
        assert(cs.push(c)[0] == c);
        assert(cs.push(c).drop_first() =~= Seq::<Correspondence>::empty());
        assert(first_match(cs, v) is None);
        if c.covers(v) {
            assert(first_match(cs.push(c), v) == Some(c.translate(v)));
        } else {
            assert(first_match(cs.push(c), v) == first_match(
                Seq::<Correspondence>::empty(),
                v,
            ));
        }
    }
}

/// An ordered table of correspondences between one resource category and
/// the next, with identity as the default.
pub struct ResourceMap {
    pub from: String,
    pub to: String,
    pub correspondences: Vec<Correspondence>,
}

/// The mathematical content of a `ResourceMap`.
pub ghost struct ResourceMapView {
    pub from: Seq<char>,
    pub to: Seq<char>,
    pub correspondences: Seq<Correspondence>,
}

impl View for ResourceMap {
    type V = ResourceMapView;

    open spec fn view(&self) -> ResourceMapView {
        ResourceMapView {
            from: self.from@,
            to: self.to@,
            correspondences: self.correspondences@,
        }
    }
}

impl ResourceMapView {
    pub open spec fn wf(self) -> bool {
        forall|k: int|
            0 <= k < self.correspondences.len() ==> (#[trigger] self.correspondences[k]).wf()
    }

    /// Where this table sends the value `v`: the first covering rule's
    /// destination, or `v` itself when no rule covers it.
    pub open spec fn lookup_spec(self, v: int) -> int {
        match first_match(self.correspondences, v) {
            Some(w) => w,
            None => v,
        }
    }

    /// No two rules' source intervals share a value.
    pub open spec fn disjoint_sources(self) -> bool {
        forall|j: int, k: int, v: int|
            0 <= j < k < self.correspondences.len() ==> !(#[trigger] self.correspondences[j].covers(
                v,
            ) && #[trigger] self.correspondences[k].covers(v))
    }
}

impl ResourceMap {
    pub fn new(from: String, to: String) -> (r: Self)
        ensures
            r@.from == from@,
            r@.to == to@,
            r@.correspondences == Seq::<Correspondence>::empty(),
    {
        let r = Self { from, to, correspondences: Vec::new() };
        proof {
            assert(r@.correspondences =~= Seq::<Correspondence>::empty());
        }
        r
    }

    /// The `from` and `to` categories a header line `<from>-to-<to> map:`
    /// names.
    pub open spec fn of_header(line: Seq<char>) -> ResourceMapView {
        let name = text::split_str(line, seq![' '])[0];
        let parts = text::split_str(name, seq!['-', 't', 'o', '-']);
        ResourceMapView { from: parts[0], to: parts[1], correspondences: seq![] }
    }

    /// Whether a header line names two categories around `-to-`.
    pub open spec fn header_ok(line: Seq<char>) -> bool {
        text::split_str(text::split_str(line, seq![' '])[0], seq!['-', 't', 'o', '-']).len() >= 2
    }

    /// Builds the empty table a header line `<from>-to-<to> map:`
    /// describes.
    pub fn from_line(line: &str) -> (r: Self)
        requires
            Self::header_ok(line@),
        ensures
            r@ == Self::of_header(line@),
    {
        let chars = text::str_chars(line);
        let mut space: Vec<char> = Vec::new();
        space.push(' ');
        proof {
            assert(space@ =~= seq![' ']);
        }
        let parts = text::split_str_exec(&chars, &space);
        let mut sep: Vec<char> = Vec::new();
        sep.push('-');
        sep.push('t');
        sep.push('o');
        sep.push('-');
        proof {
            assert(sep@ =~= seq!['-', 't', 'o', '-']);
            assert(parts.deep_view()[0] == parts@[0]@);
        }
        let resources = text::split_str_exec(&parts[0], &sep);
        proof {
            assert(resources.deep_view()[0] == resources@[0]@);
            assert(resources.deep_view()[1] == resources@[1]@);
        }
        let from = text::chars_to_string(&resources[0]);
        let to = text::chars_to_string(&resources[1]);
        Self::new(from, to)
    }

    /// Appends the rule a numeric puzzle line describes.
    pub fn add_correspondence_from_line(&mut self, line: &str)
        requires
            text::u64s_of_tokens(text::split_ws(line@)).len() >= 3,
        ensures
            final(self)@.from == old(self)@.from,
            final(self)@.to == old(self)@.to,
            final(self)@.correspondences == old(self)@.correspondences.push(
                Correspondence::of_line(line@),
            ),
    {
        self.correspondences.push(Correspondence::from_line(line))
    }

    /// Where this table sends the value `idx`: the first covering rule's
    /// destination, or `idx` unchanged.
    #[verifier::loop_isolation(false)]
    pub fn lookup(&self, idx: u64) -> (r: u64)
        requires
            self@.wf(),
        ensures
            r as int == self@.lookup_spec(idx as int),
    {
        let n = self.correspondences.len();
        let mut i: usize = 0;
        proof {
            assert(self.correspondences@.take(0) =~= Seq::<Correspondence>::empty());
        }
        while i < n
            invariant
                i <= n,
                first_match(self.correspondences@.take(i as int), idx as int) is None,
            decreases n - i,
        {
            proof {
                assert(self.correspondences@.take(i + 1) =~= self.correspondences@.take(
                    i as int,
                ).push(self.correspondences@[i as int]));
                lemma_first_match_snoc(
                    self.correspondences@.take(i as int),
                    self.correspondences@[i as int],
                    idx as int,
                );
                assert(self@.correspondences[i as int].wf());
            }
            match self.correspondences[i].lookup(idx) {
                Some(v) => {
                    proof {
                        lemma_first_match_prefix(self.correspondences@, i + 1, idx as int);
                    }
                    return v;
                },
                None => {
                },
            }
            i += 1;
        }
        proof {
            assert(self.correspondences@.take(n as int) =~= self.correspondences@);
        }
        idx
    }
}

impl ResourceMap {
    /// Splits the range `start ..= end` through every rule of this table:
    /// the result ranges together hold exactly the values this table can
    /// send some value of the input range to.
    #[verifier::loop_isolation(false)]
    pub fn overlaps(&self, start: u64, end: u64) -> (r: Vec<(u64, u64)>)
        requires
            self@.wf(),
            start <= end,
        ensures
            r@.len() > 0,
            forall|k: int| 0 <= k < r@.len() ==> (#[trigger] r@[k]).0 <= r@[k].1,
            forall|w: int|
                #[trigger] in_some(r@, w) <==> exists|v: int|
                    start <= v <= end && #[trigger] self@.lookup_spec(v) == w,
    {
        let ghost cs = self@.correspondences;
        let n = self.correspondences.len();
        let mut solved: Vec<(u64, u64)> = Vec::new();
        let mut unresolved: Vec<(u64, u64)> = Vec::new();
        unresolved.push((start, end));
        let mut i: usize = 0;
        proof {
            assert(cs.take(0) =~= Seq::<Correspondence>::empty());
            assert forall|v: int| #[trigger] in_some(unresolved@, v) <==> (start <= v <= end
                && first_match(cs.take(0), v) is None) by {
                if start <= v <= end {
                    assert(in_range(unresolved@[0], v));
                }
            }
        }
        while i < n
            invariant
                i <= n,
                forall|k: int|
                    0 <= k < solved@.len() ==> (#[trigger] solved@[k]).0 <= solved@[k].1,
                forall|k: int|
                    0 <= k < unresolved@.len() ==> (#[trigger] unresolved@[k]).0
                        <= unresolved@[k].1,
                forall|v: int|
                    #[trigger] in_some(unresolved@, v) <==> (start <= v <= end && first_match(
                        cs.take(i as int),
                        v,
                    ) is None),
                forall|w: int|
                    #[trigger] in_some(solved@, w) <==> exists|v: int|
                        start <= v <= end && #[trigger] first_match(cs.take(i as int), v) == Some(
                            w,
                        ),
            decreases n - i,
        {
            let c = self.correspondences[i];
            proof {
                assert(self@.correspondences[i as int].wf());
            }
            let ghost old_unres = unresolved@;
            let ghost old_solved = solved@;
            let (leftovers, mut over) = c.overlaps(&unresolved);
            let ghost overv = over@;
            proof {
                assert(forall|v: int|
                    (#[trigger] in_some(old_unres, v) && c.covers(v)) <==> in_some(
                        overv,
                        c.translate(v),
                    ));
            }
            unresolved = leftovers;
            solved.append(&mut over);
            proof {
                assert(cs.take(i + 1) =~= cs.take(i as int).push(cs[i as int]));
                assert forall|v: int| #[trigger] in_some(unresolved@, v) <==> (start <= v <= end
                    && first_match(cs.take(i + 1), v) is None) by {
                    lemma_first_match_snoc(cs.take(i as int), cs[i as int], v);
                }
                assert forall|w: int| #[trigger] in_some(solved@, w) <==> exists|v: int|
                    start <= v <= end && #[trigger] first_match(cs.take(i + 1), v) == Some(
                        w,
                    ) by {
                    lemma_in_some_concat(old_solved, overv, w);
                    if in_some(solved@, w) {
                        if in_some(old_solved, w) {
                            let v = choose|v: int|
                                start <= v <= end && #[trigger] first_match(cs.take(i as int), v)
                                    == Some(w);
                            lemma_first_match_snoc(cs.take(i as int), cs[i as int], v);
                            assert(first_match(cs.take(i + 1), v) == Some(w));
                        } else {
                            // w came from the new overlaps: it is the
                            // translation of a covered, still-unresolved value
                            let v0 = w - cs[i as int].destination_start
                                + cs[i as int].source_start;
                            assert(c == cs[i as int]);
                            assert(c.translate(v0) == w);
                            assert(in_some(overv, c.translate(v0)));
                            assert((in_some(old_unres, v0) && c.covers(v0)) <==> in_some(
                                overv,
                                c.translate(v0),
                            ));
                            assert(in_some(old_unres, v0) && cs[i as int].covers(v0));
                            lemma_first_match_snoc(cs.take(i as int), cs[i as int], v0);
                            assert(first_match(cs.take(i + 1), v0) == Some(w));
                        }
                    }
                    if exists|v: int|
                        start <= v <= end && #[trigger] first_match(cs.take(i + 1), v) == Some(
                            w,
                        ) {
                        let v = choose|v: int|
                            start <= v <= end && #[trigger] first_match(cs.take(i + 1), v) == Some(
                                w,
                            );
                        lemma_first_match_snoc(cs.take(i as int), cs[i as int], v);
                        if first_match(cs.take(i as int), v) is Some {
                            assert(in_some(old_solved, w));
                        } else {
                            assert(cs[i as int].covers(v) && cs[i as int].translate(v) == w);
                            assert(in_some(old_unres, v));
                            assert(in_some(overv, cs[i as int].translate(v)));
                        }
                    }
                }
            }
            i += 1;
        }
        let ghost pre_solved = solved@;
        let ghost pre_unres = unresolved@;
        solved.append(&mut unresolved);
        proof {
            assert(cs.take(n as int) =~= cs);
            assert forall|w: int| #[trigger] in_some(solved@, w) <==> exists|v: int|
                start <= v <= end && #[trigger] self@.lookup_spec(v) == w by {
                lemma_in_some_concat(pre_solved, pre_unres, w);
                if in_some(pre_solved, w) {
                    let v = choose|v: int|
                        start <= v <= end && #[trigger] first_match(cs, v) == Some(w);
                    assert(self@.lookup_spec(v) == w);
                }
                if in_some(pre_unres, w) {
                    assert(self@.lookup_spec(w) == w);
                }
                if exists|v: int| start <= v <= end && #[trigger] self@.lookup_spec(v) == w {
                    let v = choose|v: int|
                        start <= v <= end && #[trigger] self@.lookup_spec(v) == w;
                    if first_match(cs, v) is Some {
                        assert(in_some(pre_solved, w));
                    } else {
                        assert(w == v);
                        assert(in_some(pre_unres, v));
                    }
                }
            }
            assert(in_some(solved@, self@.lookup_spec(start as int))) by {
                assert(start <= start <= end && self@.lookup_spec(start as int)
                    == self@.lookup_spec(start as int));
            }
        }
        solved
    }
}

// ---------------------------------------------------------------------------
// Describing a table
// ---------------------------------------------------------------------------

/// The character of one decimal digit.
pub open spec fn digit_char_of(d: int) -> char {
    if d == 0 {
        '0'
    } else if d == 1 {
        '1'
    } else if d == 2 {
        '2'
    } else if d == 3 {
        '3'
    } else if d == 4 {
        '4'
    } else if d == 5 {
        '5'
    } else if d == 6 {
        '6'
    } else if d == 7 {
        '7'
    } else if d == 8 {
        '8'
    } else {
        '9'
    }
}

/// The decimal digits of `n`, most significant first.
pub open spec fn dec_str(n: int) -> Seq<char>
    decreases n,
{
    if n < 10 {
        seq![digit_char_of(n)]
    } else {
        dec_str(n / 10).push(digit_char_of(n % 10))
    }
}

fn digit_char(d: u64) -> (c: char)
    requires
        d < 10,
    ensures
        c == digit_char_of(d as int),
{
    match d {
        0u64 => '0',
        1u64 => '1',
        2u64 => '2',
        3u64 => '3',
        4u64 => '4',
        5u64 => '5',
        6u64 => '6',
        7u64 => '7',
        8u64 => '8',
        _ => '9',
    }
}

/// Appends the decimal digits of `n`.
fn push_dec(out: &mut Vec<char>, n: u64)
    ensures
        final(out)@ == old(out)@ + dec_str(n as int),
    decreases n,
{
    if n < 10 {
        out.push(digit_char(n));
        proof {
            assert(out@ =~= old(out)@ + dec_str(n as int));
        }
    } else {
        push_dec(out, n / 10);
        out.push(digit_char(n % 10));
        proof {
            assert(dec_str(n as int) == dec_str(n as int / 10).push(digit_char_of(n as int % 10)));
            assert(out@ =~= old(out)@ + dec_str(n as int));
        }
    }
}

/// One rule's line of the description:
/// `    <src_lo>-<src_hi> -> <dst_lo>-<dst_hi>` and a newline.
pub open spec fn rule_line(c: Correspondence) -> Seq<char> {
    seq![' ', ' ', ' ', ' '] + dec_str(c.source_start as int) + seq!['-'] + dec_str(c.src_hi())
        + seq![' ', '-', '>', ' '] + dec_str(c.destination_start as int) + seq!['-'] + dec_str(
        c.destination_start + c.range_length,
    ) + seq!['\n']
}

/// The rule lines from index `i` onward.
pub open spec fn rule_lines(cs: Seq<Correspondence>, i: int) -> Seq<char>
    decreases cs.len() - i,
{
    if i < 0 || i >= cs.len() {
        seq![]
    } else {
        rule_line(cs[i]) + rule_lines(cs, i + 1)
    }
}

/// The whole description: `<from> to <to>:`, then one line per rule.
pub open spec fn describe_spec(m: ResourceMapView) -> Seq<char> {
    m.from + seq![' ', 't', 'o', ' '] + m.to + seq![':', '\n'] + rule_lines(m.correspondences, 0)
}

/// Appends one rule's line of the description.
#[verifier::rlimit(100)]
fn push_rule_line(out: &mut Vec<char>, c: Correspondence)
    requires
        c.wf(),
    ensures
        final(out)@ == old(out)@ + rule_line(c),
{
    out.push(' ');
    out.push(' ');
    out.push(' ');
    out.push(' ');
    push_dec(out, c.source_start);
    out.push('-');
    push_dec(out, c.source_start + c.range_length);
    out.push(' ');
    out.push('-');
    out.push('>');
    out.push(' ');
    push_dec(out, c.destination_start);
    out.push('-');
    push_dec(out, c.destination_start + c.range_length);
    out.push('\n');
    proof {
        assert(out@ =~= old(out)@ + rule_line(c));
    }
}

impl ResourceMap {
    /// Renders the table as the human-readable rule list.
    #[verifier::loop_isolation(false)]
    pub fn describe(&self) -> (r: String)
        requires
            self@.wf(),
        ensures
            r@ == describe_spec(self@),
    {
        let mut out: Vec<char> = Vec::new();
        let mut from = text::str_chars(self.from.as_str());
        out.append(&mut from);
        out.push(' ');
        out.push('t');
        out.push('o');
        out.push(' ');
        let mut to = text::str_chars(self.to.as_str());
        out.append(&mut to);
        out.push(':');
        out.push('\n');
        let ghost header = self@.from + seq![' ', 't', 'o', ' '] + self@.to + seq![':', '\n'];
        proof {
            assert(out@ =~= header);
        }
        let ghost cs = self@.correspondences;
        let n = self.correspondences.len();
        let mut i: usize = 0;
        while i < n
            invariant
                i <= n,
                n == cs.len(),
                out@ + rule_lines(cs, i as int) =~= describe_spec(self@),
            decreases n - i,
        {
            let c = self.correspondences[i];
            proof {
                assert(c == cs[i as int]);
                assert(self@.correspondences[i as int].wf());
            }
            let ghost before = out@;
            push_rule_line(&mut out, c);
            proof {
                assert(rule_lines(cs, i as int) == rule_line(cs[i as int]) + rule_lines(
                    cs,
                    i + 1,
                ));
                assert(out@ + rule_lines(cs, i + 1) =~= describe_spec(self@));
            }
            i += 1;
        }
        proof {
            assert(out@ =~= describe_spec(self@));
        }
        text::chars_to_string(&out)
    }
}

// ---------------------------------------------------------------------------
// Chains of mapping tables
// ---------------------------------------------------------------------------

/// Where a chain of tables sends the value `v`: each table's result feeds
/// the next.
pub open spec fn chain_lookup(maps: Seq<ResourceMapView>, v: int) -> int
    decreases maps.len(),
{
    if maps.len() == 0 {
        v
    } else {
        chain_lookup(maps.drop_first(), maps[0].lookup_spec(v))
    }
}

pub proof fn lemma_chain_lookup_snoc(maps: Seq<ResourceMapView>, m: ResourceMapView, v: int)
    ensures
        chain_lookup(maps.push(m), v) == m.lookup_spec(chain_lookup(maps, v)),
    decreases maps.len(),
{
    if maps.len() > 0 {
        assert(maps.push(m)[0] == maps[0]);
        assert(maps.push(m).drop_first() =~= maps.drop_first().push(m));
        lemma_chain_lookup_snoc(maps.drop_first(), m, maps[0].lookup_spec(v));
        assert(chain_lookup(maps.push(m), v) == chain_lookup(
            maps.drop_first().push(m),
            maps[0].lookup_spec(v),
        ));
        assert(chain_lookup(maps, v) == chain_lookup(maps.drop_first(), maps[0].lookup_spec(v)));
    } else {
        assert(maps.push(m)[0] == m);
        assert(maps.push(m).drop_first() =~= Seq::<ResourceMapView>::empty());
        assert(chain_lookup(maps.push(m), v) == chain_lookup(
            Seq::<ResourceMapView>::empty(),
            m.lookup_spec(v),
        ));
        assert(chain_lookup(Seq::<ResourceMapView>::empty(), m.lookup_spec(v)) == m.lookup_spec(
            v,
        ));
        assert(chain_lookup(maps, v) == v);
    }
}

/// The seed list and the chain of mapping tables a puzzle input describes.
pub struct SeedData {
    pub seeds: Vec<u64>,
    pub resource_maps: Vec<ResourceMap>,
}

/// The mathematical content of a `SeedData`.
pub ghost struct SeedDataView {
    pub seeds: Seq<u64>,
    pub resource_maps: Seq<ResourceMapView>,
}

impl View for SeedData {
    type V = SeedDataView;

    open spec fn view(&self) -> SeedDataView {
        SeedDataView {
            seeds: self.seeds@,
            resource_maps: Seq::new(
                self.resource_maps@.len(),
                |i: int| self.resource_maps@[i]@,
            ),
        }
    }
}

impl SeedDataView {
    pub open spec fn wf(self) -> bool {
        forall|k: int| 0 <= k < self.resource_maps.len() ==> (#[trigger] self.resource_maps[k]).wf()
    }

    /// Whether the value `v` lies in the `i`-th seed range: the pair
    /// `seeds[i], seeds[i + 1]` read as start and length, with both ends
    /// included.
    pub open spec fn pair_contains(self, i: int, v: int) -> bool {
        &&& 0 <= i
        &&& i + 1 < self.seeds.len()
        &&& i % 2 == 0
        &&& self.seeds[i] <= v <= self.seeds[i] + self.seeds[i + 1]
    }
}

pub open spec fn is_lower_alpha(c: char) -> bool {
    97 <= c as u32 <= 122
}

impl SeedData {
    /// The table the parser starts with before any header line.
    pub open spec fn initial_map() -> ResourceMapView {
        ResourceMapView {
            from: seq!['s', 'e', 'e', 'd'],
            to: seq!['s', 'e', 'e', 'd'],
            correspondences: seq![],
        }
    }

    /// The seed numbers of the first input line, after its `seeds: `
    /// prefix.
    pub open spec fn seeds_of_line(line: Seq<char>) -> Seq<u64> {
        text::u64s_of_tokens(
            text::split_ws(
                text::strip_prefix_all(line, seq!['s', 'e', 'e', 'd', 's', ':', ' ']),
            ),
        )
    }

    /// Folds the remaining input lines into the finished tables and the
    /// table under construction: a lowercase line starts a new table, a
    /// digit line adds a rule to the current one, anything else is
    /// skipped.
    pub open spec fn fold_maps(
        lines: Seq<Seq<char>>,
        i: int,
        done: Seq<ResourceMapView>,
        cur: ResourceMapView,
    ) -> (Seq<ResourceMapView>, ResourceMapView)
        decreases lines.len() - i,
    {
        if i < 1 || i >= lines.len() {
            (done, cur)
        } else {
            let line = lines[i];
            if line.len() > 0 && is_lower_alpha(line[0]) {
                Self::fold_maps(lines, i + 1, done.push(cur), ResourceMap::of_header(line))
            } else if line.len() > 0 && text::is_digit_char(line[0]) {
                Self::fold_maps(
                    lines,
                    i + 1,
                    done,
                    ResourceMapView {
                        from: cur.from,
                        to: cur.to,
                        correspondences: cur.correspondences.push(Correspondence::of_line(line)),
                    },
                )
            } else {
                Self::fold_maps(lines, i + 1, done, cur)
            }
        }
    }

    /// The seed data a whole puzzle input describes.
    pub open spec fn of_string(s: Seq<char>) -> SeedDataView {
        let lines = text::split_lines(s);
        let folded = Self::fold_maps(lines, 1, seq![], Self::initial_map());
        SeedDataView {
            seeds: if lines.len() > 0 {
                Self::seeds_of_line(lines[0])
            } else {
                seq![]
            },
            resource_maps: folded.0.push(folded.1),
        }
    }

    /// Every header line names two categories and every digit line holds
    /// at least three numbers.
    pub open spec fn parse_ok(s: Seq<char>) -> bool {
        let lines = text::split_lines(s);
        forall|i: int|
            1 <= i < lines.len() ==> {
                let line = #[trigger] lines[i];
                &&& (line.len() > 0 && is_lower_alpha(line[0]) ==> ResourceMap::header_ok(line))
                &&& (line.len() > 0 && text::is_digit_char(line[0])
                    ==> text::u64s_of_tokens(text::split_ws(line)).len() >= 3)
            }
    }

    /// Parses a whole puzzle input: the seed list on the first line, then
    /// blank-line-separated mapping tables.
    #[verifier::loop_isolation(false)]
    pub fn from_string(input: &str) -> (r: Option<Self>)
        requires
            Self::parse_ok(input@),
        ensures
            r is Some,
            r matches Some(sd) ==> sd@ == Self::of_string(input@),
    {
        let chars = text::str_chars(input);
        let lines = text::split_lines_exec(&chars);
        let ghost linesv = text::split_lines(input@);
        let n = lines.len();
        let mut seeds: Vec<u64> = Vec::new();
        if n > 0 {
            let mut prefix: Vec<char> = Vec::new();
            prefix.push('s');
            prefix.push('e');
            prefix.push('e');
            prefix.push('d');
            prefix.push('s');
            prefix.push(':');
            prefix.push(' ');
            proof {
                assert(prefix@ =~= seq!['s', 'e', 'e', 'd', 's', ':', ' ']);
                assert(lines@[0]@ == linesv[0]);
            }
            let stripped = text::strip_prefix_all_exec(&lines[0], &prefix);
            let tokens = text::split_ws_exec(&stripped);
            seeds = text::parse_u64_tokens(&tokens);
        }
        let seed_label = "seed";
        proof {
            reveal_strlit("seed");
            assert(seed_label@ =~= seq!['s', 'e', 'e', 'd']);
        }
        let mut resource_maps: Vec<ResourceMap> = Vec::new();
        let mut current: ResourceMap = ResourceMap::new(seed_label.to_owned(), seed_label.to_owned());
        let ghost init = Self::initial_map();
        let mut i: usize = 1;
        proof {
            assert(current@ == init);
            assert(Seq::new(resource_maps@.len(), |k: int| resource_maps@[k]@)
                =~= Seq::<ResourceMapView>::empty());
            if n == 0 {
                assert(Self::fold_maps(linesv, 1, seq![], init) == (
                    Seq::<ResourceMapView>::empty(),
                    init,
                ));
            }
        }
        while i < n
            invariant
                1 <= i <= n || (n == 0 && i == 1),
                n == linesv.len(),
                Self::fold_maps(linesv, 1, seq![], init) == Self::fold_maps(
                    linesv,
                    i as int,
                    Seq::new(resource_maps@.len(), |k: int| resource_maps@[k]@),
                    current@,
                ),
            decreases n - i,
        {
            let ghost done = Seq::new(resource_maps@.len(), |k: int| resource_maps@[k]@);
            proof {
                assert(lines@[i as int]@ == linesv[i as int]);
            }
            let line = &lines[i];
            let mut classify: u32 = 0;
            if line.len() > 0 {
                let c = line[0] as u32;
                if 97 <= c && c <= 122 {
                    classify = 1;
                } else if 48 <= c && c <= 57 {
                    classify = 2;
                }
            }
            if classify == 1 {
                let line_str = text::chars_to_string(line);
                let next = ResourceMap::from_line(&line_str);
                resource_maps.push(current);
                current = next;
                proof {
                    assert(Seq::new(resource_maps@.len(), |k: int| resource_maps@[k]@)
                        =~= done.push(resource_maps@.last()@));
                }
            } else if classify == 2 {
                let line_str = text::chars_to_string(line);
                current.add_correspondence_from_line(&line_str);
            }
            i += 1;
        }
        resource_maps.push(current);
        let r = SeedData { seeds, resource_maps };
        proof {
            let folded = Self::fold_maps(linesv, 1, seq![], init);
            assert(Seq::new(r.resource_maps@.len(), |k: int| r.resource_maps@[k]@) =~= Seq::new(
                (r.resource_maps@.len() - 1) as nat,
                |k: int| r.resource_maps@[k]@,
            ).push(r.resource_maps@.last()@));
            assert(r@.resource_maps =~= folded.0.push(folded.1));
            assert(r@ == Self::of_string(input@));
        }
        Some(r)
    }

    /// Feeds one value through every mapping table in order.
    #[verifier::loop_isolation(false)]
    pub fn smallest_location_for_seed(&self, idx: u64) -> (r: u64)
        requires
            self@.wf(),
        ensures
            r as int == chain_lookup(self@.resource_maps, idx as int),
    {
        let ghost maps = self@.resource_maps;
        let n = self.resource_maps.len();
        let mut current: u64 = idx;
        let mut i: usize = 0;
        proof {
            assert(maps.take(0) =~= Seq::<ResourceMapView>::empty());
        }
        while i < n
            invariant
                i <= n,
                current as int == chain_lookup(maps.take(i as int), idx as int),
            decreases n - i,
        {
            proof {
                assert(self@.resource_maps[i as int].wf());
                assert(maps.take(i + 1) =~= maps.take(i as int).push(maps[i as int]));
                lemma_chain_lookup_snoc(maps.take(i as int), maps[i as int], idx as int);
            }
            current = self.resource_maps[i].lookup(current);
            i += 1;
        }
        proof {
            assert(maps.take(n as int) =~= maps);
        }
        current
    }

    /// Feeds a whole range through every mapping table by interval
    /// splitting, and returns the smallest reachable final value.
    #[verifier::loop_isolation(false)]
    pub fn smallest_location_for_range(&self, start: u64, end: u64) -> (r: u64)
        requires
            self@.wf(),
            start <= end,
        ensures
            exists|v: int|
                start <= v <= end && #[trigger] chain_lookup(self@.resource_maps, v) == r as int,
            forall|v: int|
                start <= v <= end ==> r as int <= #[trigger] chain_lookup(self@.resource_maps, v),
    {
        let ghost maps = self@.resource_maps;
        let n = self.resource_maps.len();
        let mut current_stack: Vec<(u64, u64)> = Vec::new();
        current_stack.push((start, end));
        let mut i: usize = 0;
        proof {
            assert(maps.take(0) =~= Seq::<ResourceMapView>::empty());
            assert(current_stack@ =~= seq![(start, end)]);
            assert forall|w: int| #[trigger] in_some(current_stack@, w) <==> exists|v: int|
                start <= v <= end && #[trigger] chain_lookup(maps.take(0), v) == w by {
                if in_some(current_stack@, w) {
                    let k = choose|k: int|
                        0 <= k < current_stack@.len() && in_range(
                            #[trigger] current_stack@[k],
                            w,
                        );
                    assert(start <= w <= end);
                    assert(chain_lookup(maps.take(0), w) == w);
                }
                if exists|v: int|
                    start <= v <= end && #[trigger] chain_lookup(maps.take(0), v) == w {
                    let v = choose|v: int|
                        start <= v <= end && #[trigger] chain_lookup(maps.take(0), v) == w;
                    assert(chain_lookup(maps.take(0), v) == v);
                    assert(in_range(current_stack@[0], w));
                }
            }
        }
        while i < n
            invariant
                i <= n,
                current_stack@.len() > 0,
                forall|k: int|
                    0 <= k < current_stack@.len() ==> (#[trigger] current_stack@[k]).0
                        <= current_stack@[k].1,
                forall|w: int|
                    #[trigger] in_some(current_stack@, w) <==> exists|v: int|
                        start <= v <= end && #[trigger] chain_lookup(maps.take(i as int), v) == w,
            decreases n - i,
        {
            proof {
                assert(self@.resource_maps[i as int].wf());
            }
            let ghost m = maps[i as int];
            let ghost orig = current_stack@;
            let mut next_stack: Vec<(u64, u64)> = Vec::new();
            loop
                invariant
                    current_stack@.len() <= orig.len(),
                    current_stack@ =~= orig.take(current_stack@.len() as int),
                    next_stack@.len() + current_stack@.len() > 0,
                    forall|k: int|
                        0 <= k < next_stack@.len() ==> (#[trigger] next_stack@[k]).0
                            <= next_stack@[k].1,
                    forall|w: int|
                        #[trigger] in_some(next_stack@, w) <==> exists|u: int|
                            in_some(orig.skip(current_stack@.len() as int), u)
                                && #[trigger] m.lookup_spec(u) == w,
                decreases current_stack@.len(),
            {
                let popped = current_stack.pop();
                match popped {
                    Some(rg) => {
                        let ghost k = current_stack@.len() as int;
                        proof {
                            assert(orig.take(k + 1).last() == orig[k]);
                            assert(rg == orig[k]);
                            assert(orig.take(k + 1).drop_last() =~= orig.take(k));
                        }
                        let mut part = self.resource_maps[i].overlaps(rg.0, rg.1);
                        let ghost partv = part@;
                        let ghost old_next = next_stack@;
                        next_stack.append(&mut part);
                        proof {
                            assert(orig.skip(k) =~= seq![orig[k]] + orig.skip(k + 1));
                            assert forall|w: int| #[trigger] in_some(next_stack@, w)
                                <==> exists|u: int|
                                in_some(orig.skip(k), u) && #[trigger] m.lookup_spec(u)
                                    == w by {
                                lemma_in_some_concat(old_next, partv, w);
                                lemma_in_some_concat(seq![orig[k]], orig.skip(k + 1), w);
                                if in_some(old_next, w) {
                                    let u = choose|u: int|
                                        in_some(orig.skip(k + 1), u) && #[trigger] m.lookup_spec(u)
                                            == w;
                                    assert(in_some(seq![orig[k]] + orig.skip(k + 1), u)) by {
                                        lemma_in_some_concat(
                                            seq![orig[k]],
                                            orig.skip(k + 1),
                                            u,
                                        );
                                    }
                                }
                                if in_some(partv, w) {
                                    let u = choose|u: int|
                                        rg.0 <= u <= rg.1 && #[trigger] m.lookup_spec(u) == w;
                                    assert(in_range(seq![orig[k]][0], u));
                                    assert(in_some(seq![orig[k]] + orig.skip(k + 1), u)) by {
                                        lemma_in_some_concat(
                                            seq![orig[k]],
                                            orig.skip(k + 1),
                                            u,
                                        );
                                    }
                                }
                                if exists|u: int|
                                    in_some(orig.skip(k), u) && #[trigger] m.lookup_spec(u) == w {
                                    let u = choose|u: int|
                                        in_some(orig.skip(k), u) && #[trigger] m.lookup_spec(u)
                                            == w;
                                    lemma_in_some_concat(seq![orig[k]], orig.skip(k + 1), u);
                                    if in_some(seq![orig[k]], u) {
                                        assert(in_range(orig[k], u));
                                        assert(rg.0 <= u <= rg.1);
                                        assert(in_some(partv, w));
                                    }
                                }
                            }
                        }
                    },
                    None => {
                        break;
                    },
                }
            }
            proof {
                assert(orig.skip(0) =~= orig);
                assert(maps.take(i + 1) =~= maps.take(i as int).push(m));
                assert forall|w: int| #[trigger] in_some(next_stack@, w) <==> exists|v: int|
                    start <= v <= end && #[trigger] chain_lookup(maps.take(i + 1), v) == w by {
                    if in_some(next_stack@, w) {
                        let u = choose|u: int|
                            in_some(orig, u) && #[trigger] m.lookup_spec(u) == w;
                        let v = choose|v: int|
                            start <= v <= end && #[trigger] chain_lookup(maps.take(i as int), v)
                                == u;
                        lemma_chain_lookup_snoc(maps.take(i as int), m, v);
                        assert(chain_lookup(maps.take(i + 1), v) == w);
                    }
                    if exists|v: int|
                        start <= v <= end && #[trigger] chain_lookup(maps.take(i + 1), v) == w {
                        let v = choose|v: int|
                            start <= v <= end && #[trigger] chain_lookup(maps.take(i + 1), v)
                                == w;
                        lemma_chain_lookup_snoc(maps.take(i as int), m, v);
                        let u = chain_lookup(maps.take(i as int), v);
                        assert(in_some(orig, u));
                        assert(m.lookup_spec(u) == w);
                    }
                }
            }
            current_stack = next_stack;
            i += 1;
        }
        proof {
            assert(maps.take(n as int) =~= maps);
        }
        let len = current_stack.len();
        let mut min: u64 = current_stack[0].0;
        let mut j: usize = 1;
        proof {
            assert(in_range(current_stack@[0], current_stack@[0].0 as int));
        }
        while j < len
            invariant
                1 <= j <= len,
                len == current_stack@.len(),
                exists|k: int| 0 <= k < j && min == (#[trigger] current_stack@[k]).0,
                forall|k: int| 0 <= k < j ==> min <= (#[trigger] current_stack@[k]).0,
            decreases len - j,
        {
            if current_stack[j].0 < min {
                min = current_stack[j].0;
            }
            j += 1;
        }
        proof {
            let k0 = choose|k: int| 0 <= k < len && min == (#[trigger] current_stack@[k]).0;
            assert(in_range(current_stack@[k0], min as int));
            assert(in_some(current_stack@, min as int));
            assert forall|v: int| start <= v <= end implies min as int <= #[trigger] chain_lookup(
                self@.resource_maps,
                v,
            ) by {
                let w = chain_lookup(maps, v);
                assert(in_some(current_stack@, w));
                let k = choose|k: int|
                    0 <= k < current_stack@.len() && in_range(#[trigger] current_stack@[k], w);
                assert(min <= current_stack@[k].0);
            }
        }
        min
    }

    /// The smallest final location over the seeds read as single values.
    #[verifier::loop_isolation(false)]
    pub fn smallest_location_for_all_seeds(&self) -> (r: u64)
        requires
            self@.wf(),
            self@.seeds.len() > 0,
        ensures
            exists|k: int|
                0 <= k < self@.seeds.len() && r as int == chain_lookup(
                    self@.resource_maps,
                    #[trigger] self@.seeds[k] as int,
                ),
            forall|k: int|
                0 <= k < self@.seeds.len() ==> r as int <= chain_lookup(
                    self@.resource_maps,
                    #[trigger] self@.seeds[k] as int,
                ),
    {
        let n = self.seeds.len();
        let mut min: u64 = self.smallest_location_for_seed(self.seeds[0]);
        let mut i: usize = 1;
        while i < n
            invariant
                1 <= i <= n,
                exists|k: int|
                    0 <= k < i && min as int == chain_lookup(
                        self@.resource_maps,
                        #[trigger] self@.seeds[k] as int,
                    ),
                forall|k: int|
                    0 <= k < i ==> min as int <= chain_lookup(
                        self@.resource_maps,
                        #[trigger] self@.seeds[k] as int,
                    ),
            decreases n - i,
        {
            let loc = self.smallest_location_for_seed(self.seeds[i]);
            if loc < min {
                min = loc;
            }
            i += 1;
        }
        min
    }

    /// The smallest final location over the seeds read as `(start, length)`
    /// range pairs; `u64::MAX` when there are no pairs.
    #[verifier::loop_isolation(false)]
    pub fn smallest_location_for_all_ranges(&self) -> (r: u64)
        requires
            self@.wf(),
            self@.seeds.len() % 2 == 0,
            forall|k: int|
                0 <= k && k + 1 < self@.seeds.len() && k % 2 == 0 ==> #[trigger] self@.seeds[k]
                    + self@.seeds[k + 1] <= u64::MAX,
        ensures
            forall|k: int, v: int|
                #[trigger] self@.pair_contains(k, v) ==> r as int <= chain_lookup(
                    self@.resource_maps,
                    v,
                ),
            r != u64::MAX ==> exists|k: int, v: int|
                #[trigger] self@.pair_contains(k, v) && chain_lookup(self@.resource_maps, v)
                    == r as int,
    {
        let n = self.seeds.len();
        let mut min: u64 = u64::MAX;
        let mut i: usize = 0;
        while i < n
            invariant
                i <= n,
                i % 2 == 0,
                n == self@.seeds.len(),
                forall|k: int, v: int|
                    k < i - 1 && #[trigger] self@.pair_contains(k, v) ==> min as int
                        <= chain_lookup(self@.resource_maps, v),
                min != u64::MAX ==> exists|k: int, v: int|
                    k < i - 1 && #[trigger] self@.pair_contains(k, v) && chain_lookup(
                        self@.resource_maps,
                        v,
                    ) == min as int,
            decreases n - i,
        {
            let start = self.seeds[i];
            let end = start + self.seeds[i + 1];
            let lookup = self.smallest_location_for_range(start, end);
            proof {
                let v0 = choose|v: int|
                    start <= v <= end && #[trigger] chain_lookup(self@.resource_maps, v)
                        == lookup as int;
                assert(self@.pair_contains(i as int, v0));
            }
            if lookup < min {
                min = lookup;
            }
            proof {
                assert forall|k: int, v: int|
                    k < i + 1 && #[trigger] self@.pair_contains(k, v) implies min as int
                    <= chain_lookup(self@.resource_maps, v) by {
                    if k == i {
                        assert(start <= v <= end);
                    }
                }
            }
            i += 2;
        }
        min
    }
}

// ---------------------------------------------------------------------------
// Laws of the remapping engine
// ---------------------------------------------------------------------------

/// Partition law: what `Correspondence::split_range` returns accounts for
/// every value of the input range exactly once — the translated overlap,
/// pulled back through the inverse translation, together with the
/// remainders reconstructs the range, with no gaps and no double counting.
pub proof fn lemma_split_range_partition(
    c: Correspondence,
    range: (u64, u64),
    overlap: Option<(u64, u64)>,
    rem: Seq<(u64, u64)>,
)
    requires
        forall|v: int|
            (#[trigger] in_range(range, v) && c.covers(v)) <==> opt_contains(
                overlap,
                c.translate(v),
            ),
        forall|v: int| (#[trigger] in_range(range, v) && !c.covers(v)) <==> in_some(rem, v),
    ensures
        forall|v: int|
            #[trigger] in_range(range, v) <==> (opt_contains(overlap, c.translate(v)) || in_some(
                rem,
                v,
            )),
        forall|v: int| !(opt_contains(overlap, #[trigger] c.translate(v)) && in_some(rem, v)),
{
    assert forall|v: int| !(opt_contains(overlap, #[trigger] c.translate(v)) && in_some(
        rem,
        v,
    )) by {
        if in_some(rem, v) {
            assert(in_range(range, v) && !c.covers(v));
        }
    }
}

/// No rule of `cs` covers `v`.
pub proof fn lemma_first_match_none(cs: Seq<Correspondence>, v: int)
    requires
        forall|k: int| 0 <= k < cs.len() ==> !(#[trigger] cs[k]).covers(v),
    ensures
        first_match(cs, v) is None,
    decreases cs.len(),
{
    if cs.len() > 0 {
        assert(!cs[0].covers(v));
        assert forall|k: int| 0 <= k < cs.drop_first().len() implies !(
        #[trigger] cs.drop_first()[k]).covers(v) by {
            assert(cs.drop_first()[k] == cs[k + 1]);
        }
        lemma_first_match_none(cs.drop_first(), v);
    }
}

/// Identity law for single values: a value outside every rule's source
/// interval passes through a table unchanged.
pub proof fn lemma_identity_value(m: ResourceMapView, v: int)
    requires
        forall|k: int|
            0 <= k < m.correspondences.len() ==> !(#[trigger] m.correspondences[k]).covers(v),
    ensures
        m.lookup_spec(v) == v,
{
    lemma_first_match_none(m.correspondences, v);
}

/// Identity law for ranges: when no value of `start ..= end` is covered by
/// any rule, the table sends every value of the range to itself, so the
/// set of result values `ResourceMap::overlaps` describes is the range
/// unchanged.
pub proof fn lemma_identity_range(m: ResourceMapView, start: u64, end: u64)
    requires
        forall|k: int, v: int|
            0 <= k < m.correspondences.len() && start <= v <= end
                ==> !#[trigger] m.correspondences[k].covers(v),
    ensures
        forall|v: int| start <= v <= end ==> #[trigger] m.lookup_spec(v) == v,
{
    assert forall|v: int| start <= v <= end implies #[trigger] m.lookup_spec(v) == v by {
        lemma_identity_value(m, v);
    }
}

/// Single-value / range consistency law: for a value `v`, the result of
/// point traversal and the result of range traversal of the singleton
/// range `v ..= v` — each pinned by its function's contract — coincide.
pub proof fn lemma_point_range_consistency(
    maps: Seq<ResourceMapView>,
    v: u64,
    r_point: u64,
    r_range: u64,
)
    requires
        r_point as int == chain_lookup(maps, v as int),
        exists|u: int| v <= u <= v && #[trigger] chain_lookup(maps, u) == r_range as int,
        forall|u: int| v <= u <= v ==> r_range as int <= #[trigger] chain_lookup(maps, u),
    ensures
        r_point == r_range,
{
    let u = choose|u: int| v <= u <= v && #[trigger] chain_lookup(maps, u) == r_range as int;
    assert(u == v as int);
}

/// With pairwise disjoint source intervals, the unique covering rule wins
/// wherever it stands in the table.
pub proof fn lemma_first_match_unique(cs: Seq<Correspondence>, c: Correspondence, v: int)
    requires
        forall|j: int, k: int, x: int|
            0 <= j < k < cs.len() ==> !(#[trigger] cs[j].covers(x) && #[trigger] cs[k].covers(x)),
        cs.contains(c),
        c.covers(v),
    ensures
        first_match(cs, v) == Some(c.translate(v)),
    decreases cs.len(),
{
    let j = choose|j: int| 0 <= j < cs.len() && cs[j] == c;
    if cs[0].covers(v) {
        assert(cs[0] == c) by {
            if j != 0 {
                assert(cs[0].covers(v) && cs[j].covers(v));
            }
        }
    } else {
        assert(j != 0);
        assert(cs.drop_first()[j - 1] == c);
        assert(cs.drop_first().contains(c));
        assert forall|j2: int, k2: int, x: int|
            0 <= j2 < k2 < cs.drop_first().len() implies !(#[trigger] cs.drop_first()[j2].covers(x)
            && #[trigger] cs.drop_first()[k2].covers(x)) by {
            assert(cs.drop_first()[j2] == cs[j2 + 1]);
            assert(cs.drop_first()[k2] == cs[k2 + 1]);
        }
        lemma_first_match_unique(cs.drop_first(), c, v);
    }
}

/// Order-independence law: two tables that hold the same rules, in any
/// order, send every value to the same place, provided no two rules'
/// source intervals overlap. Since `ResourceMap::overlaps` is pinned
/// pointwise by `lookup_spec`, range results agree as well.
pub proof fn lemma_order_independence(m1: ResourceMapView, m2: ResourceMapView, v: int)
    requires
        m1.disjoint_sources(),
        m2.disjoint_sources(),
        m1.correspondences.to_multiset() == m2.correspondences.to_multiset(),
    ensures
        m1.lookup_spec(v) == m2.lookup_spec(v),
{
    m1.correspondences.to_multiset_ensures();
    m2.correspondences.to_multiset_ensures();
    if exists|k: int|
        0 <= k < m1.correspondences.len() && (#[trigger] m1.correspondences[k]).covers(v) {
        let k = choose|k: int|
            0 <= k < m1.correspondences.len() && (#[trigger] m1.correspondences[k]).covers(v);
        let c = m1.correspondences[k];
        assert(m1.correspondences.contains(c));
        assert(m2.correspondences.to_multiset().count(c) > 0);
        assert(m2.correspondences.contains(c));
        lemma_first_match_unique(m1.correspondences, c, v);
        lemma_first_match_unique(m2.correspondences, c, v);
    } else {
        assert forall|k: int| 0 <= k < m2.correspondences.len() implies !(
        #[trigger] m2.correspondences[k]).covers(v) by {
            let c = m2.correspondences[k];
            assert(m2.correspondences.contains(c));
            assert(m1.correspondences.to_multiset().count(c) > 0);
            assert(m1.correspondences.contains(c));
            let j = choose|j: int|
                0 <= j < m1.correspondences.len() && m1.correspondences[j] == c;
            assert(!m1.correspondences[j].covers(v));
        }
        lemma_first_match_none(m1.correspondences, v);
        lemma_first_match_none(m2.correspondences, v);
    }
}

/// Order-independence for range results: whatever two reorderings of one
/// table return from `ResourceMap::overlaps` — each pinned by that
/// function's contract — holds exactly the same values.
pub proof fn lemma_order_independence_ranges(
    m1: ResourceMapView,
    m2: ResourceMapView,
    start: u64,
    end: u64,
    r1: Seq<(u64, u64)>,
    r2: Seq<(u64, u64)>,
)
    requires
        m1.disjoint_sources(),
        m2.disjoint_sources(),
        m1.correspondences.to_multiset() == m2.correspondences.to_multiset(),
        forall|w: int|
            #[trigger] in_some(r1, w) <==> exists|v: int|
                start <= v <= end && #[trigger] m1.lookup_spec(v) == w,
        forall|w: int|
            #[trigger] in_some(r2, w) <==> exists|v: int|
                start <= v <= end && #[trigger] m2.lookup_spec(v) == w,
    ensures
        forall|w: int| #[trigger] in_some(r1, w) <==> in_some(r2, w),
{
    assert forall|w: int| #[trigger] in_some(r1, w) <==> in_some(r2, w) by {
        if in_some(r1, w) {
            let v = choose|v: int| start <= v <= end && #[trigger] m1.lookup_spec(v) == w;
            lemma_order_independence(m1, m2, v);
            assert(m2.lookup_spec(v) == w);
        }
        if in_some(r2, w) {
            let v = choose|v: int| start <= v <= end && #[trigger] m2.lookup_spec(v) == w;
            lemma_order_independence(m1, m2, v);
            assert(m1.lookup_spec(v) == w);
        }
    }
}

/// Once a prefix of the rules matches, the whole table matches the same
/// way.
pub proof fn lemma_first_match_prefix(cs: Seq<Correspondence>, i: int, v: int)
    requires
        0 <= i <= cs.len(),
        first_match(cs.take(i), v) is Some,
    ensures
        first_match(cs, v) == first_match(cs.take(i), v),
    decreases cs.len() - i,
{
    if i < cs.len() {
        assert(cs.take(i + 1) =~= cs.take(i).push(cs[i]));
        lemma_first_match_snoc(cs.take(i), cs[i], v);
        lemma_first_match_prefix(cs, i + 1, v);
    } else {
        assert(cs.take(i) =~= cs);
    }
}

} // verus!
