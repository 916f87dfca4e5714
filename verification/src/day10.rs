//! Pipe maze: a grid of pipe characters forms one closed loop through the
//! start cell. A breadth-first walk collects the loop; ray-casting with
//! crossing parities counts the cells enclosed by it.

use vstd::prelude::*;

use crate::text;

verus! {

/// One grid position, carrying the grid's width and height.
#[derive(Debug, Clone, Copy, PartialEq, Eq, Structural, Hash)]
pub struct Tile {
    pub x: usize,
    pub y: usize,
    pub w: usize,
    pub h: usize,
}

/// The character of the grid at `(x, y)`, if the position exists.
pub open spec fn char_at_spec(world: Seq<Seq<char>>, x: int, y: int) -> Option<char> {
    if 0 <= y < world.len() && 0 <= x < world[y].len() {
        Some(world[y][x])
    } else {
        None
    }
}

pub open spec fn opt_tile_seq(o: Option<Tile>) -> Seq<Tile> {
    match o {
        Some(t) => seq![t],
        None => seq![],
    }
}

impl Tile {
    pub fn new(world_width: usize, world_height: usize, x: usize, y: usize) -> (r: Self)
        ensures
            r == (Tile { x, y, w: world_width, h: world_height }),
    {
        Tile { x, y, w: world_width, h: world_height }
    }

    /// A tile of the given grid, whose width is that of the first row.
    pub fn from_world(world: &Vec<Vec<char>>, x: usize, y: usize) -> (r: Self)
        requires
            world@.len() > 0,
        ensures
            r == (Tile { x, y, w: world.deep_view()[0].len() as usize, h: world@.len() as usize }),
    {
        proof {
            assert(world@[0]@ == world.deep_view()[0]);
        }
        Tile { x, y, w: world[0].len(), h: world.len() }
    }

    pub fn char_at(&self, world: &Vec<Vec<char>>) -> (r: Option<char>)
        ensures
            r == char_at_spec(world.deep_view(), self.x as int, self.y as int),
    {
        if self.y >= world.len() || self.x >= world[self.y].len() {
            None
        } else {
            proof {
                assert(world@[self.y as int]@ == world.deep_view()[self.y as int]);
            }
            Some(world[self.y][self.x])
        }
    }

    pub fn digit_at(&self, world: &Vec<Vec<char>>) -> (r: Option<u32>)
        ensures
            r == (match char_at_spec(world.deep_view(), self.x as int, self.y as int) {
                Some(c) => if text::is_digit_char(c) {
                    Some((c as u32 - 48) as u32)
                } else {
                    None
                },
                None => None,
            }),
    {
        match self.char_at(world) {
            Some(c) => {
                let u = c as u32;
                if 48 <= u && u <= 57 {
                    Some(u - 48)
                } else {
                    None
                }
            },
            None => None,
        }
    }

    pub open spec fn topleft_spec(self) -> Option<Tile> {
        if self.x > 0 && self.y > 0 {
            Some(Tile { x: (self.x - 1) as usize, y: (self.y - 1) as usize, w: self.w, h: self.h })
        } else {
            None
        }
    }

    pub fn topleft(&self) -> (r: Option<Self>)
        ensures
            r == self.topleft_spec(),
    {
        if self.x > 0 && self.y > 0 {
            Some(Self::new(self.w, self.h, self.x - 1, self.y - 1))
        } else {
            None
        }
    }

    pub open spec fn top_spec(self) -> Option<Tile> {
        if self.y > 0 {
            Some(Tile { x: self.x, y: (self.y - 1) as usize, w: self.w, h: self.h })
        } else {
            None
        }
    }

    pub fn top(&self) -> (r: Option<Self>)
        ensures
            r == self.top_spec(),
    {
        if self.y > 0 {
            Some(Self::new(self.w, self.h, self.x, self.y - 1))
        } else {
            None
        }
    }

    pub open spec fn topright_spec(self) -> Option<Tile> {
        if self.x + 1 < self.w && self.y > 0 {
            Some(Tile { x: (self.x + 1) as usize, y: (self.y - 1) as usize, w: self.w, h: self.h })
        } else {
            None
        }
    }

    pub fn topright(&self) -> (r: Option<Self>)
        ensures
            r == self.topright_spec(),
    {
        if self.x < usize::MAX && self.x + 1 < self.w && self.y > 0 {
            Some(Self::new(self.w, self.h, self.x + 1, self.y - 1))
        } else {
            None
        }
    }

    pub open spec fn left_spec(self) -> Option<Tile> {
        if self.x > 0 {
            Some(Tile { x: (self.x - 1) as usize, y: self.y, w: self.w, h: self.h })
        } else {
            None
        }
    }

    pub fn left(&self) -> (r: Option<Self>)
        ensures
            r == self.left_spec(),
    {
        if self.x > 0 {
            Some(Self::new(self.w, self.h, self.x - 1, self.y))
        } else {
            None
        }
    }

    pub open spec fn right_spec(self) -> Option<Tile> {
        if self.x + 1 < self.w {
            Some(Tile { x: (self.x + 1) as usize, y: self.y, w: self.w, h: self.h })
        } else {
            None
        }
    }

    pub fn right(&self) -> (r: Option<Self>)
        ensures
            r == self.right_spec(),
    {
        if self.x < usize::MAX && self.x + 1 < self.w {
            Some(Self::new(self.w, self.h, self.x + 1, self.y))
        } else {
            None
        }
    }

    pub open spec fn bottomleft_spec(self) -> Option<Tile> {
        if self.x > 0 && self.y + 1 < self.h {
            Some(Tile { x: (self.x - 1) as usize, y: (self.y + 1) as usize, w: self.w, h: self.h })
        } else {
            None
        }
    }

    pub fn bottomleft(&self) -> (r: Option<Self>)
        ensures
            r == self.bottomleft_spec(),
    {
        if self.x > 0 && self.y < usize::MAX && self.y + 1 < self.h {
            Some(Self::new(self.w, self.h, self.x - 1, self.y + 1))
        } else {
            None
        }
    }

    pub open spec fn bottom_spec(self) -> Option<Tile> {
        if self.y + 1 < self.h {
            Some(Tile { x: self.x, y: (self.y + 1) as usize, w: self.w, h: self.h })
        } else {
            None
        }
    }

    pub fn bottom(&self) -> (r: Option<Self>)
        ensures
            r == self.bottom_spec(),
    {
        if self.y < usize::MAX && self.y + 1 < self.h {
            Some(Self::new(self.w, self.h, self.x, self.y + 1))
        } else {
            None
        }
    }

    pub open spec fn bottomright_spec(self) -> Option<Tile> {
        if self.x + 1 < self.w && self.y + 1 < self.h {
            Some(Tile { x: (self.x + 1) as usize, y: (self.y + 1) as usize, w: self.w, h: self.h })
        } else {
            None
        }
    }

    pub fn bottomright(&self) -> (r: Option<Self>)
        ensures
            r == self.bottomright_spec(),
    {
        if self.x < usize::MAX && self.x + 1 < self.w && self.y < usize::MAX && self.y + 1
            < self.h {
            Some(Self::new(self.w, self.h, self.x + 1, self.y + 1))
        } else {
            None
        }
    }

    /// The four orthogonal neighbors that exist: top, left, right, bottom.
    pub open spec fn adjacencies_spec(self) -> Seq<Tile> {
        opt_tile_seq(self.top_spec()) + opt_tile_seq(self.left_spec()) + opt_tile_seq(
            self.right_spec(),
        ) + opt_tile_seq(self.bottom_spec())
    }

    pub fn adjacencies(&self) -> (r: Vec<Self>)
        ensures
            r@ == self.adjacencies_spec(),
    {
        let mut out: Vec<Tile> = Vec::new();
        match self.top() {
            Some(t) => out.push(t),
            None => (),
        }
        match self.left() {
            Some(t) => out.push(t),
            None => (),
        }
        match self.right() {
            Some(t) => out.push(t),
            None => (),
        }
        match self.bottom() {
            Some(t) => out.push(t),
            None => (),
        }
        proof {
            assert(out@ =~= self.adjacencies_spec());
        }
        out
    }

    /// Whether the pipe on `other` opens toward this tile, for the four
    /// orthogonal placements of `other` around `self`.
    pub open spec fn is_connected_spec(self, world: Seq<Seq<char>>, other: Tile) -> bool {
        let c = char_at_spec(world, other.x as int, other.y as int);
        if other.x == self.x && other.y == self.y + 1 {
            c == Some('|') || c == Some('L') || c == Some('J') || c == Some('S')
        } else if other.x == self.x && self.y > 0 && other.y == self.y - 1 {
            c == Some('|') || c == Some('7') || c == Some('F') || c == Some('S')
        } else if self.x > 0 && other.x == self.x - 1 && other.y == self.y {
            c == Some('-') || c == Some('F') || c == Some('L') || c == Some('S')
        } else if other.x == self.x + 1 && other.y == self.y {
            c == Some('-') || c == Some('J') || c == Some('7') || c == Some('S')
        } else {
            false
        }
    }

    pub fn is_connected(&self, world: &Vec<Vec<char>>, other: &Self) -> (r: bool)
        ensures
            r == self.is_connected_spec(world.deep_view(), *other),
    {
        let c = other.char_at(world);
        if other.x == self.x && self.y < usize::MAX && other.y == self.y + 1 {
            c == Some('|') || c == Some('L') || c == Some('J') || c == Some('S')
        } else if other.x == self.x && self.y > 0 && other.y == self.y - 1 {
            c == Some('|') || c == Some('7') || c == Some('F') || c == Some('S')
        } else if self.x > 0 && other.x == self.x - 1 && other.y == self.y {
            c == Some('-') || c == Some('F') || c == Some('L') || c == Some('S')
        } else if self.x < usize::MAX && other.x == self.x + 1 && other.y == self.y {
            c == Some('-') || c == Some('J') || c == Some('7') || c == Some('S')
        } else {
            false
        }
    }

    /// A candidate neighbor kept only when it exists and its pipe opens
    /// back toward `self`.
    pub open spec fn connected_seq(self, world: Seq<Seq<char>>, o: Option<Tile>) -> Seq<Tile> {
        match o {
            Some(t) => if self.is_connected_spec(world, t) {
                seq![t]
            } else {
                seq![]
            },
            None => seq![],
        }
    }

    /// The tiles this tile's own pipe points at and whose pipes point
    /// back.
    pub open spec fn neighbors_spec(self, world: Seq<Seq<char>>) -> Seq<Tile> {
        match char_at_spec(world, self.x as int, self.y as int) {
            Some('|') => self.connected_seq(world, self.top_spec()) + self.connected_seq(
                world,
                self.bottom_spec(),
            ),
            Some('-') => self.connected_seq(world, self.left_spec()) + self.connected_seq(
                world,
                self.right_spec(),
            ),
            Some('L') => self.connected_seq(world, self.top_spec()) + self.connected_seq(
                world,
                self.right_spec(),
            ),
            Some('J') => self.connected_seq(world, self.top_spec()) + self.connected_seq(
                world,
                self.left_spec(),
            ),
            Some('7') => self.connected_seq(world, self.bottom_spec()) + self.connected_seq(
                world,
                self.left_spec(),
            ),
            Some('F') => self.connected_seq(world, self.bottom_spec()) + self.connected_seq(
                world,
                self.right_spec(),
            ),
            Some('S') => self.connected_seq(world, self.top_spec()) + self.connected_seq(
                world,
                self.left_spec(),
            ) + self.connected_seq(world, self.right_spec()) + self.connected_seq(
                world,
                self.bottom_spec(),
            ),
            _ => seq![],
        }
    }

    /// The connected neighbors of this tile.
    #[verifier::rlimit(60)]
    pub fn neighbors(&self, world: &Vec<Vec<char>>) -> (r: Vec<Self>)
        ensures
            r@ == self.neighbors_spec(world.deep_view()),
    {
        let mut out: Vec<Tile> = Vec::new();
        let here = self.char_at(world);
        let c = match here {
            Some(c) => c,
            None => {
                proof {
                    assert(out@ =~= self.neighbors_spec(world.deep_view()));
                }
                return out;
            },
        };
        let candidates: (Option<Tile>, Option<Tile>, Option<Tile>, Option<Tile>) = match c {
            '|' => (self.top(), self.bottom(), None, None),
            '-' => (self.left(), self.right(), None, None),
            'L' => (self.top(), self.right(), None, None),
            'J' => (self.top(), self.left(), None, None),
            '7' => (self.bottom(), self.left(), None, None),
            'F' => (self.bottom(), self.right(), None, None),
            'S' => (self.top(), self.left(), self.right(), self.bottom()),
            _ => (None, None, None, None),
        };
        match candidates.0 {
            Some(t) => if self.is_connected(world, &t) {
                out.push(t);
            },
            None => (),
        }
        match candidates.1 {
            Some(t) => if self.is_connected(world, &t) {
                out.push(t);
            },
            None => (),
        }
        match candidates.2 {
            Some(t) => if self.is_connected(world, &t) {
                out.push(t);
            },
            None => (),
        }
        match candidates.3 {
            Some(t) => if self.is_connected(world, &t) {
                out.push(t);
            },
            None => (),
        }
        proof {
            assert(out@ =~= self.neighbors_spec(world.deep_view()));
        }
        out
    }
}

// ---------------------------------------------------------------------------
// Counting marked cells of a boolean grid
// ---------------------------------------------------------------------------

/// How many cells of `row` from column `x` onward are set.
pub open spec fn row_trues(row: Seq<bool>, x: int) -> int
    decreases row.len() - x,
{
    if x < 0 || x >= row.len() {
        0
    } else {
        (if row[x] {
            1int
        } else {
            0int
        }) + row_trues(row, x + 1)
    }
}

/// How many cells of the grid from row `y` onward are set.
pub open spec fn grid_trues(g: Seq<Seq<bool>>, y: int) -> int
    decreases g.len() - y,
{
    if y < 0 || y >= g.len() {
        0
    } else {
        row_trues(g[y], 0) + grid_trues(g, y + 1)
    }
}

pub proof fn lemma_row_trues_bound(row: Seq<bool>, x: int)
    requires
        0 <= x <= row.len(),
    ensures
        0 <= row_trues(row, x) <= row.len() - x,
    decreases row.len() - x,
{
    if x < row.len() {
        lemma_row_trues_bound(row, x + 1);
    }
}

/// A grid of uniform width holds at most height times width set cells.
pub proof fn lemma_grid_trues_bound(g: Seq<Seq<bool>>, y: int, w: int)
    requires
        0 <= y <= g.len(),
        forall|k: int| 0 <= k < g.len() ==> (#[trigger] g[k]).len() == w,
    ensures
        0 <= grid_trues(g, y) <= (g.len() - y) * w,
    decreases g.len() - y,
{
    if y < g.len() {
        lemma_grid_trues_bound(g, y + 1, w);
        lemma_row_trues_bound(g[y], 0);
        assert((g.len() - y) * w == (g.len() - (y + 1)) * w + w) by (nonlinear_arith);
    } else {
        assert(g.len() - y == 0);
        assert((g.len() - y) * w == 0);
    }
}

pub proof fn lemma_row_trues_update(row: Seq<bool>, x: int, k: int)
    requires
        0 <= x,
        0 <= k < row.len(),
        !row[k],
    ensures
        row_trues(row.update(k, true), x) == row_trues(row, x) + if x <= k {
            1int
        } else {
            0int
        },
    decreases row.len() - x,
{
    let row2 = row.update(k, true);
    if x < row.len() {
        lemma_row_trues_update(row, x + 1, k);
        assert(row_trues(row2, x) == (if row2[x] {
            1int
        } else {
            0int
        }) + row_trues(row2, x + 1));
        assert(row_trues(row, x) == (if row[x] {
            1int
        } else {
            0int
        }) + row_trues(row, x + 1));
    }
}

pub proof fn lemma_grid_trues_update(g: Seq<Seq<bool>>, y: int, y0: int, x0: int)
    requires
        0 <= y,
        0 <= y0 < g.len(),
        0 <= x0 < g[y0].len(),
        !g[y0][x0],
    ensures
        grid_trues(g.update(y0, g[y0].update(x0, true)), y) == grid_trues(g, y) + if y <= y0 {
            1int
        } else {
            0int
        },
    decreases g.len() - y,
{
    let g2 = g.update(y0, g[y0].update(x0, true));
    assert(g2.len() == g.len());
    if y < g.len() {
        lemma_grid_trues_update(g, y + 1, y0, x0);
        assert(grid_trues(g2, y) == row_trues(g2[y], 0) + grid_trues(g2, y + 1));
        assert(grid_trues(g, y) == row_trues(g[y], 0) + grid_trues(g, y + 1));
        if y == y0 {
            lemma_row_trues_update(g[y0], 0, x0);
            assert(g2[y] == g[y0].update(x0, true));
        } else {
            assert(g2[y] == g[y]);
        }
    }
}

// ---------------------------------------------------------------------------
// Walking the pipe loop
// ---------------------------------------------------------------------------

/// Whether some entry of `r` stands on tile `t`.
pub open spec fn tile_in_result(r: Seq<(Tile, u64)>, t: Tile) -> bool {
    exists|k: int| 0 <= k < r.len() && (#[trigger] r[k]).0 == t
}

/// Whether tile `t` still waits in the queue at or past `head`.
pub open spec fn waiting(stack: Seq<(Tile, u64)>, head: int, t: Tile) -> bool {
    exists|q: int| head <= q < stack.len() && (#[trigger] stack[q]).0 == t
}

/// Entry `k` follows some earlier entry through one pipe step, one step
/// further out.
pub open spec fn chain_step(wv: Seq<Seq<char>>, r: Seq<(Tile, u64)>, k: int) -> bool {
    exists|j: int|
        0 <= j < k && (#[trigger] r[j]).0.neighbors_spec(wv).contains(r[k].0) && r[k].1 == r[j].1
            + 1
}

/// Every entry but the first follows an earlier entry through one pipe
/// step, one step further out.
pub open spec fn chained(wv: Seq<Seq<char>>, r: Seq<(Tile, u64)>) -> bool {
    forall|k: int| 1 <= k < r.len() ==> #[trigger] chain_step(wv, r, k)
}

/// Every pipe neighbor of an entry is itself an entry.
pub open spec fn result_closed(wv: Seq<Seq<char>>, r: Seq<(Tile, u64)>) -> bool {
    forall|j: int, t: Tile|
        #![trigger r[j].0.neighbors_spec(wv).contains(t)]
        0 <= j < r.len() && r[j].0.neighbors_spec(wv).contains(t) ==> tile_in_result(r, t)
}

/// Every pipe neighbor of an entry is an entry or still waits in the
/// queue.
pub open spec fn partial_closure(
    wv: Seq<Seq<char>>,
    r: Seq<(Tile, u64)>,
    stack: Seq<(Tile, u64)>,
    head: int,
) -> bool {
    forall|j: int, t: Tile|
        #![trigger r[j].0.neighbors_spec(wv).contains(t)]
        0 <= j < r.len() && r[j].0.neighbors_spec(wv).contains(t) ==> tile_in_result(r, t)
            || waiting(stack, head, t)
}

/// Every waiting entry is the start at distance 0, or one pipe step past
/// some settled entry.
pub open spec fn queue_justified(
    wv: Seq<Seq<char>>,
    r: Seq<(Tile, u64)>,
    stack: Seq<(Tile, u64)>,
    head: int,
    start: Tile,
) -> bool {
    forall|q: int|
        #![trigger stack[q]]
        head <= q < stack.len() ==> stack[q] == ((start, 0u64)) || exists|j: int|
            0 <= j < r.len() && (#[trigger] r[j]).0.neighbors_spec(wv).contains(stack[q].0)
                && stack[q].1 == r[j].1 + 1
}

/// All listed tiles lie on a `w0` by `h0` grid and carry its dimensions.
pub open spec fn tiles_on_grid(ts: Seq<(Tile, u64)>, lo: int, w0: usize, h0: usize) -> bool {
    forall|k: int|
        #![trigger ts[k]]
        lo <= k < ts.len() ==> ts[k].0.x < w0 && ts[k].0.y < h0 && ts[k].0.w == w0 && ts[k].0.h
            == h0
}

/// The mark grid holds exactly the tiles of the result.
pub open spec fn marks_match(
    grid: Seq<Seq<bool>>,
    r: Seq<(Tile, u64)>,
    w0: usize,
    h0: usize,
) -> bool {
    forall|yy: int, xx: int|
        0 <= yy < h0 && 0 <= xx < w0 ==> ((#[trigger] grid[yy][xx]) <==> tile_in_result(
            r,
            Tile { x: xx as usize, y: yy as usize, w: w0, h: h0 },
        ))
}

/// No two entries stand on the same tile.
pub open spec fn entries_distinct(r: Seq<(Tile, u64)>) -> bool {
    forall|k1: int, k2: int| 0 <= k1 < k2 < r.len() ==> (#[trigger] r[k1]).0 != (#[trigger] r[k2]).0
}

/// No waiting entry claims a distance past the settled count.
pub open spec fn distances_bounded(r: Seq<(Tile, u64)>, stack: Seq<(Tile, u64)>, head: int) -> bool {
    forall|q: int| #![trigger stack[q]] head <= q < stack.len() ==> stack[q].1 <= r.len()
}

/// An all-false mark grid matches an empty result.
pub proof fn lemma_marks_match_empty(grid: Seq<Seq<bool>>, r: Seq<(Tile, u64)>, w0: usize, h0: usize)
    requires
        r.len() == 0,
        forall|k: int, t: int|
            0 <= k < h0 && 0 <= t < w0 ==> !(#[trigger] grid[k][t]),
    ensures
        marks_match(grid, r, w0, h0),
{
    assert forall|yy2: int, xx2: int| 0 <= yy2 < h0 && 0 <= xx2 < w0 implies ((
    #[trigger] grid[yy2][xx2]) <==> tile_in_result(
        r,
        Tile { x: xx2 as usize, y: yy2 as usize, w: w0, h: h0 },
    )) by {
    }
}

/// Growing the result leaves every queue entry justified.
pub proof fn lemma_queue_justified_grow(
    wv: Seq<Seq<char>>,
    old_result: Seq<(Tile, u64)>,
    new_result: Seq<(Tile, u64)>,
    stack: Seq<(Tile, u64)>,
    head: int,
    start: Tile,
    tile: Tile,
    distance: u64,
)
    requires
        new_result == old_result.push((tile, distance)),
        queue_justified(wv, old_result, stack, head, start),
    ensures
        queue_justified(wv, new_result, stack, head, start),
{
    assert forall|q: int| #![trigger stack[q]] head <= q < stack.len() implies (stack[q] == ((
    start,
    0u64,
    )) || exists|j: int|
        0 <= j < new_result.len() && (#[trigger] new_result[j]).0.neighbors_spec(wv).contains(
            stack[q].0,
        ) && stack[q].1 == new_result[j].1 + 1) by {
        if stack[q] != ((start, 0u64)) {
            let j = choose|j: int|
                0 <= j < old_result.len() && (#[trigger] old_result[j]).0.neighbors_spec(
                    wv,
                ).contains(stack[q].0) && stack[q].1 == old_result[j].1 + 1;
            assert(new_result[j] == old_result[j]);
            assert(new_result[j].0.neighbors_spec(wv).contains(stack[q].0) && stack[q].1
                == new_result[j].1 + 1);
        }
    }
}

/// An emptied queue turns the partial closure into the full one.
pub proof fn lemma_closure_final(
    wv: Seq<Seq<char>>,
    result: Seq<(Tile, u64)>,
    stack: Seq<(Tile, u64)>,
    head: int,
)
    requires
        head >= stack.len(),
        partial_closure(wv, result, stack, head),
    ensures
        result_closed(wv, result),
{
    assert forall|j2: int, t: Tile|
        #![trigger result[j2].0.neighbors_spec(wv).contains(t)]
        0 <= j2 < result.len() && result[j2].0.neighbors_spec(wv).contains(t) implies tile_in_result(
        result,
        t,
    ) by {
        if !tile_in_result(result, t) {
            assert(waiting(stack, head, t));
            let q = choose|q: int| head <= q < stack.len() && (#[trigger] stack[q]).0 == t;
            assert(false);
        }
    }
}

/// Marking the newly visited tile keeps the mark grid in step with the
/// result list.
pub proof fn lemma_marks_match_after(
    old_grid: Seq<Seq<bool>>,
    new_grid: Seq<Seq<bool>>,
    old_result: Seq<(Tile, u64)>,
    new_result: Seq<(Tile, u64)>,
    tile: Tile,
    distance: u64,
    w0: usize,
    h0: usize,
)
    requires
        old_grid.len() == h0,
        forall|k: int| 0 <= k < h0 ==> (#[trigger] old_grid[k]).len() == w0,
        tile.x < w0,
        tile.y < h0,
        tile.w == w0,
        tile.h == h0,
        new_grid == old_grid.update(
            tile.y as int,
            old_grid[tile.y as int].update(tile.x as int, true),
        ),
        new_result == old_result.push((tile, distance)),
        marks_match(old_grid, old_result, w0, h0),
    ensures
        marks_match(new_grid, new_result, w0, h0),
{
    assert forall|yy2: int, xx2: int| 0 <= yy2 < h0 && 0 <= xx2 < w0 implies ((
    #[trigger] new_grid[yy2][xx2]) <==> tile_in_result(
        new_result,
        Tile { x: xx2 as usize, y: yy2 as usize, w: w0, h: h0 },
    )) by {
        let t2 = Tile { x: xx2 as usize, y: yy2 as usize, w: w0, h: h0 };
        if yy2 == tile.y as int && xx2 == tile.x as int {
            assert(new_result[new_result.len() - 1].0 == t2);
            assert(tile_in_result(new_result, t2));
        } else {
            if tile_in_result(old_result, t2) {
                let k = choose|k: int|
                    0 <= k < old_result.len() && (#[trigger] old_result[k]).0 == t2;
                assert(new_result[k].0 == t2);
            }
            if tile_in_result(new_result, t2) {
                let k = choose|k: int|
                    0 <= k < new_result.len() && (#[trigger] new_result[k]).0 == t2;
                if k < old_result.len() {
                    assert(old_result[k].0 == t2);
                }
            }
        }
    }
}

/// The new entry extends some chain from the start, so the whole list
/// stays chained.
pub proof fn lemma_chained_after(
    wv: Seq<Seq<char>>,
    old_result: Seq<(Tile, u64)>,
    new_result: Seq<(Tile, u64)>,
    tile: Tile,
    distance: u64,
    start: Tile,
)
    requires
        new_result == old_result.push((tile, distance)),
        old_result.len() > 0 ==> old_result[0] == ((start, 0u64)),
        !tile_in_result(old_result, tile),
        (tile, distance) == ((start, 0u64)) || exists|j2: int|
            0 <= j2 < old_result.len() && (#[trigger] old_result[j2]).0.neighbors_spec(
                wv,
            ).contains(tile) && distance == old_result[j2].1 + 1,
        chained(wv, old_result),
    ensures
        chained(wv, new_result),
{
    let rl = new_result.len() as int;
    assert forall|k: int| 1 <= k < new_result.len() implies #[trigger] chain_step(
        wv,
        new_result,
        k,
    ) by {
        if (tile, distance) == ((start, 0u64)) {
            assert(old_result.len() > 0);
            assert(tile_in_result(old_result, start)) by {
                assert((#[trigger] old_result[0]).0 == start);
            }
            assert(false);
        }
        let j2 = choose|j2: int|
            0 <= j2 < old_result.len() && (#[trigger] old_result[j2]).0.neighbors_spec(
                wv,
            ).contains(tile) && distance == old_result[j2].1 + 1;
        if k < rl - 1 {
            assert(old_result[k] == new_result[k]);
            assert(chain_step(wv, old_result, k));
            let j4 = choose|j4: int|
                0 <= j4 < k && (#[trigger] old_result[j4]).0.neighbors_spec(wv).contains(
                    old_result[k].0,
                ) && old_result[k].1 == old_result[j4].1 + 1;
            assert(new_result[j4] == old_result[j4]);
            assert(new_result[j4].0.neighbors_spec(wv).contains(new_result[k].0)
                && new_result[k].1 == new_result[j4].1 + 1);
        } else {
            assert(new_result[j2] == old_result[j2]);
            assert(new_result[j2].0.neighbors_spec(wv).contains(new_result[k].0)
                && new_result[k].1 == new_result[j2].1 + 1);
        }
    }
}

/// After the new tile's neighbors are queued, every neighbor of a result
/// entry is settled or waiting.
pub proof fn lemma_closure_after(
    wv: Seq<Seq<char>>,
    old_result: Seq<(Tile, u64)>,
    new_result: Seq<(Tile, u64)>,
    tile: Tile,
    distance: u64,
    old_stack: Seq<(Tile, u64)>,
    new_stack: Seq<(Tile, u64)>,
    head: int,
    nv: Seq<Tile>,
)
    requires
        new_result == old_result.push((tile, distance)),
        nv == tile.neighbors_spec(wv),
        forall|k: int| #![trigger nv[k]] 0 <= k < nv.len() ==> waiting(new_stack, head, nv[k]),
        forall|q: int|
            #![trigger old_stack[q]]
            head <= q < old_stack.len() ==> waiting(new_stack, head, old_stack[q].0),
        1 <= head,
        head - 1 < old_stack.len(),
        old_stack[head - 1].0 == tile,
        partial_closure(wv, old_result, old_stack, head - 1),
    ensures
        partial_closure(wv, new_result, new_stack, head),
{
    let rl = new_result.len() as int;
    assert forall|j2: int, t: Tile|
        #![trigger new_result[j2].0.neighbors_spec(wv).contains(t)]
        0 <= j2 < new_result.len() && new_result[j2].0.neighbors_spec(wv).contains(
            t,
        ) implies tile_in_result(new_result, t) || waiting(new_stack, head, t) by {
        if j2 == rl - 1 {
            assert(new_result[j2].0 == tile);
            let k = choose|k: int| 0 <= k < nv.len() && nv[k] == t;
            assert(waiting(new_stack, head, nv[k]));
        } else {
            assert(old_result[j2] == new_result[j2]);
            assert(old_result[j2].0.neighbors_spec(wv).contains(t));
            if tile_in_result(old_result, t) {
                let k = choose|k: int|
                    0 <= k < old_result.len() && (#[trigger] old_result[k]).0 == t;
                assert(new_result[k].0 == t);
                assert(tile_in_result(new_result, t));
            } else {
                assert(waiting(old_stack, head - 1, t));
                let q = choose|q: int|
                    head - 1 <= q < old_stack.len() && (#[trigger] old_stack[q]).0 == t;
                if q == head - 1 {
                    assert(t == tile);
                    assert(new_result[rl - 1].0 == t);
                    assert(tile_in_result(new_result, t));
                } else {
                    assert(waiting(new_stack, head, old_stack[q].0));
                }
            }
        }
    }
}

/// Dropping an already-settled queue entry keeps every neighbor of a
/// result entry settled or waiting.
pub proof fn lemma_closure_seen(
    wv: Seq<Seq<char>>,
    result: Seq<(Tile, u64)>,
    stack: Seq<(Tile, u64)>,
    head: int,
    tile: Tile,
)
    requires
        1 <= head,
        head - 1 < stack.len(),
        stack[head - 1].0 == tile,
        tile_in_result(result, tile),
        partial_closure(wv, result, stack, head - 1),
    ensures
        partial_closure(wv, result, stack, head),
{
    assert forall|j2: int, t: Tile|
        #![trigger result[j2].0.neighbors_spec(wv).contains(t)]
        0 <= j2 < result.len() && result[j2].0.neighbors_spec(wv).contains(t) implies tile_in_result(
        result,
        t,
    ) || waiting(stack, head, t) by {
        if !tile_in_result(result, t) {
            assert(waiting(stack, head - 1, t));
            let q = choose|q: int|
                head - 1 <= q < stack.len() && (#[trigger] stack[q]).0 == t;
            if q == head - 1 {
                assert(t == tile);
                assert(false);
            } else {
                assert(waiting(stack, head, t)) by {
                    assert(head <= q < stack.len() && stack[q].0 == t);
                }
            }
        }
    }
}

/// Walks the pipe network breadth-first from `(x, y)`, collecting every
/// reachable tile once with a distance. The returned tiles are distinct,
/// start with the start tile at distance 0, each later tile is a pipe
/// neighbor of an earlier one at one more step, and every pipe neighbor
/// of a returned tile is returned — so the set of returned tiles is
/// exactly the loop reachable from the start.
#[verifier::loop_isolation(false)]
#[verifier::rlimit(100)]
#[verifier::spinoff_prover]
pub fn follow_pipe(world: &Vec<Vec<char>>, x: usize, y: usize) -> (r: Vec<(Tile, u64)>)
    requires
        world@.len() > 0,
        x < world.deep_view()[0].len(),
        y < world@.len(),
        world@.len() * world.deep_view()[0].len() < u64::MAX,
    ensures
        r@.len() > 0,
        r@[0] == (
            Tile {
                x,
                y,
                w: world.deep_view()[0].len() as usize,
                h: world@.len() as usize,
            },
            0u64,
        ),
        entries_distinct(r@),
        chained(world.deep_view(), r@),
        result_closed(world.deep_view(), r@),
{
    let ghost wv = world.deep_view();
    let w0 = world[0].len();
    let h0 = world.len();
    proof {
        assert(world@[0]@ == wv[0]);
        assert(w0 == wv[0].len());
        assert(h0 == wv.len());
    }
    let start = Tile::from_world(world, x, y);
    let mut stack: Vec<(Tile, u64)> = Vec::new();
    stack.push((start, 0));
    let mut head: usize = 0;
    let mut visited: Vec<Vec<bool>> = Vec::new();
    let mut yy: usize = 0;
    while yy < h0
        invariant
            yy <= h0,
            visited@.len() == yy,
            forall|k: int| 0 <= k < yy ==> (#[trigger] visited.deep_view()[k]).len() == w0,
            forall|k: int, t: int|
                0 <= k < yy && 0 <= t < w0 ==> !(#[trigger] visited.deep_view()[k][t]),
        decreases h0 - yy,
    {
        let mut row: Vec<bool> = Vec::new();
        let mut xx: usize = 0;
        while xx < w0
            invariant
                xx <= w0,
                row@.len() == xx,
                forall|t: int| 0 <= t < xx ==> !(#[trigger] row@[t]),
            decreases w0 - xx,
        {
            row.push(false);
            xx += 1;
        }
        let ghost oldv = visited.deep_view();
        visited.push(row);
        proof {
            assert(visited.deep_view() =~~= oldv.push(row@));
        }
        yy += 1;
    }
    let mut result: Vec<(Tile, u64)> = Vec::new();
    proof {
        lemma_grid_trues_all_false(visited.deep_view(), 0);
        lemma_marks_match_empty(visited.deep_view(), result@, w0, h0);
    }
    #[verifier::loop_isolation(true)]
    while head < stack.len()
        invariant
            wv == world.deep_view(),
            wv.len() > 0,
            w0 == wv[0].len(),
            h0 == wv.len(),
            (h0 as int) * (w0 as int) < u64::MAX,
            start == (Tile { x, y, w: w0, h: h0 }),
            visited@.len() == h0,
            forall|k: int| 0 <= k < h0 ==> (#[trigger] visited.deep_view()[k]).len() == w0,
            grid_trues(visited.deep_view(), 0) == result@.len(),
            head <= stack@.len(),
            stack@.len() > 0,
            stack@[0] == ((start, 0u64)),
            result@.len() == 0 ==> head == 0 && stack@.len() == 1,
            result@.len() > 0 ==> result@[0] == ((start, 0u64)),
            tiles_on_grid(result@, 0, w0, h0),
            tiles_on_grid(stack@, head as int, w0, h0),
            marks_match(visited.deep_view(), result@, w0, h0),
            entries_distinct(result@),
            chained(wv, result@),
            queue_justified(wv, result@, stack@, head as int, start),
            distances_bounded(result@, stack@, head as int),
            partial_closure(wv, result@, stack@, head as int),
        decreases h0 as int * w0 as int - result@.len(), stack@.len() - head,
    {
        proof {
            lemma_grid_trues_bound(visited.deep_view(), 0, w0 as int);
        }
        let (tile, distance) = stack[head];
        head = head + 1;
        proof {
            assert(stack@[head - 1] == ((tile, distance)));
            assert(tile.x < w0 && tile.y < h0 && tile.w == w0 && tile.h == h0);
            assert(visited.deep_view()[tile.y as int].len() == w0);
            assert(visited@[tile.y as int]@ == visited.deep_view()[tile.y as int]);
        }
        let seen = visited[tile.y][tile.x];
        if !seen {
            proof {
                assert(!tile_in_result(
                    result@,
                    Tile { x: tile.x, y: tile.y, w: w0, h: h0 },
                ));
                assert(Tile { x: tile.x, y: tile.y, w: w0, h: h0 } == tile);
            }
            let ghost old_grid = visited.deep_view();
            let ghost old_result = result@;
            visited[tile.y].set(tile.x, true);
            result.push((tile, distance));
            proof {
                assert(visited.deep_view() =~~= old_grid.update(
                    tile.y as int,
                    old_grid[tile.y as int].update(tile.x as int, true),
                ));
                lemma_grid_trues_update(old_grid, 0, tile.y as int, tile.x as int);
                assert(grid_trues(visited.deep_view(), 0) == result@.len());
                assert(result@ =~= old_result.push((tile, distance)));
                lemma_marks_match_after(
                    old_grid,
                    visited.deep_view(),
                    old_result,
                    result@,
                    tile,
                    distance,
                    w0,
                    h0,
                );
                lemma_chained_after(wv, old_result, result@, tile, distance, start);
                lemma_queue_justified_grow(
                    wv,
                    old_result,
                    result@,
                    stack@,
                    head as int,
                    start,
                    tile,
                    distance,
                );
            }
            let neighbors = tile.neighbors(world);
            let ghost nv = tile.neighbors_spec(wv);
            let ghost old_stack = stack@;
            proof {
                lemma_grid_trues_bound(visited.deep_view(), 0, w0 as int);
                assert(result@.len() <= h0 as int * w0 as int);
                lemma_neighbors_on_grid(wv, tile);
            }
            let ncount = neighbors.len();
            let mut j: usize = 0;
            #[verifier::loop_isolation(true)]
            while j < ncount
                invariant
                    j <= ncount,
                    ncount == nv.len(),
                    neighbors@ == nv,
                    distance < u64::MAX,
                    nv == tile.neighbors_spec(wv),
                    result@.len() >= 1,
                    result@[result@.len() - 1] == ((tile, distance)),
                    distance as int <= result@.len() - 1,
                    forall|k: int|
                        #![trigger nv[k]]
                        0 <= k < nv.len() ==> nv[k].x < w0 && nv[k].y < h0 && nv[k].w == w0
                            && nv[k].h == h0,
                    head <= stack@.len(),
                    stack@.len() > 0,
                    stack@[0] == ((start, 0u64)),
                    tiles_on_grid(stack@, head as int, w0, h0),
                    queue_justified(wv, result@, stack@, head as int, start),
                    distances_bounded(result@, stack@, head as int),
                    forall|k: int| #![trigger nv[k]] 0 <= k < j ==> waiting(stack@, head as int, nv[k]),
                    forall|q: int|
                        #![trigger old_stack[q]]
                        head <= q < old_stack.len() ==> waiting(stack@, head as int, old_stack[q].0),
                decreases ncount - j,
            {
                proof {
                    assert(nv[j as int] == neighbors@[j as int]);
                    assert(result@[result@.len() - 1] == ((tile, distance)));
                    assert(tile.neighbors_spec(wv).contains(nv[j as int])) by {
                        assert(tile.neighbors_spec(wv)[j as int] == nv[j as int]);
                    }
                }
                let ghost pre_stack = stack@;
                stack.push((neighbors[j], distance + 1));
                proof {
                    assert(stack@[stack@.len() - 1] == ((neighbors@[j as int], (distance
                        + 1) as u64)));
                    assert forall|k: int| #![trigger nv[k]] 0 <= k < j + 1 implies waiting(
                        stack@,
                        head as int,
                        nv[k],
                    ) by {
                        if k < j {
                            let q = choose|q: int|
                                head <= q < pre_stack.len() && (#[trigger] pre_stack[q]).0
                                    == nv[k];
                            assert(stack@[q].0 == nv[k]);
                        } else {
                            assert(stack@[stack@.len() - 1].0 == nv[k]);
                        }
                    }
                    assert forall|q: int| #![trigger old_stack[q]] head <= q < old_stack.len()
                        implies waiting(stack@, head as int, old_stack[q].0) by {
                        let q2 = choose|q2: int|
                            head <= q2 < pre_stack.len() && (#[trigger] pre_stack[q2]).0
                                == old_stack[q].0;
                        assert(stack@[q2].0 == old_stack[q].0);
                    }
                    assert forall|q: int| #![trigger stack@[q]] head <= q < stack@.len() implies (
                    stack@[q] == ((start, 0u64)) || exists|j5: int|
                        0 <= j5 < result@.len() && (#[trigger] result@[j5]).0.neighbors_spec(
                            wv,
                        ).contains(stack@[q].0) && stack@[q].1 == result@[j5].1 + 1) by {
                        if q < stack@.len() - 1 {
                            assert(stack@[q] == pre_stack[q]);
                        } else {
                            assert(result@[result@.len() - 1].0.neighbors_spec(wv).contains(
                                stack@[q].0,
                            ) && stack@[q].1 == result@[result@.len() - 1].1 + 1);
                        }
                    }
                }
                j += 1;
            }
            proof {
                lemma_closure_after(
                    wv,
                    old_result,
                    result@,
                    tile,
                    distance,
                    old_stack,
                    stack@,
                    head as int,
                    nv,
                );
            }
        } else {
            proof {
                assert(tile_in_result(result@, Tile { x: tile.x, y: tile.y, w: w0, h: h0 }));
                assert(Tile { x: tile.x, y: tile.y, w: w0, h: h0 } == tile);
                lemma_closure_seen(wv, result@, stack@, head as int, tile);
            }
        }
    }
    proof {
        assert(result@.len() > 0);
        lemma_closure_final(wv, result@, stack@, head as int);
    }
    result
}

// ---------------------------------------------------------------------------
// Ray casting: counting the cells the loop encloses
// ---------------------------------------------------------------------------

/// Whether the wall cell `(k, y)` counts as a crossing: it is marked and
/// its pipe is none of the three characters that run along the ray.
pub open spec fn wall_counts(
    world: Seq<Seq<char>>,
    walls: Seq<Seq<bool>>,
    y: int,
    k: int,
    a: char,
    b: char,
    c: char,
) -> bool {
    &&& 0 <= y < walls.len()
    &&& 0 <= k < walls[y].len()
    &&& walls[y][k]
    &&& world[y][k] != a
    &&& world[y][k] != b
    &&& world[y][k] != c
}

/// Crossings on the ray running left from `(x, y)`.
pub open spec fn left_cross(world: Seq<Seq<char>>, walls: Seq<Seq<bool>>, y: int, x: int) -> int
    decreases x,
{
    if x <= 0 {
        0
    } else {
        left_cross(world, walls, y, x - 1) + if wall_counts(world, walls, y, x - 1, '-', 'F', '7') {
            1int
        } else {
            0int
        }
    }
}

/// Crossings on the ray running right from `(x, y)`, bounded by the width
/// of the first row.
pub open spec fn right_cross(
    world: Seq<Seq<char>>,
    walls: Seq<Seq<bool>>,
    y: int,
    x: int,
    w: int,
) -> int
    decreases w - x,
{
    if x + 1 >= w {
        0
    } else {
        (if wall_counts(world, walls, y, x + 1, '-', 'L', 'J') {
            1int
        } else {
            0int
        }) + right_cross(world, walls, y, x + 1, w)
    }
}

/// Crossings on the ray running down from `(x, y)`.
pub open spec fn down_cross(
    world: Seq<Seq<char>>,
    walls: Seq<Seq<bool>>,
    x: int,
    y: int,
    h: int,
) -> int
    decreases h - y,
{
    if y + 1 >= h {
        0
    } else {
        (if wall_counts(world, walls, y + 1, x, '|', 'J', '7') {
            1int
        } else {
            0int
        }) + down_cross(world, walls, x, y + 1, h)
    }
}

/// Crossings on the ray running up from `(x, y)`.
pub open spec fn up_cross(world: Seq<Seq<char>>, walls: Seq<Seq<bool>>, x: int, y: int) -> int
    decreases y,
{
    if y <= 0 {
        0
    } else {
        up_cross(world, walls, x, y - 1) + if wall_counts(world, walls, y - 1, x, '|', 'L', 'F') {
            1int
        } else {
            0int
        }
    }
}

/// Whether the cell `(x, y)` lies inside the loop: not a wall itself,
/// walls in all four directions, and at least three of the four crossing
/// counts odd.
pub open spec fn inside_spec(world: Seq<Seq<char>>, walls: Seq<Seq<bool>>, x: int, y: int) -> bool {
    let w = world[0].len() as int;
    let h = world.len() as int;
    &&& 0 <= y < world.len()
    &&& 0 <= x < world[y].len()
    &&& !(0 <= y < walls.len() && 0 <= x < walls[y].len() && walls[y][x])
    &&& left_cross(world, walls, y, x) > 0
    &&& right_cross(world, walls, y, x, w) > 0
    &&& down_cross(world, walls, x, y, h) > 0
    &&& up_cross(world, walls, x, y) > 0
    &&& left_cross(world, walls, y, x) % 2 + right_cross(world, walls, y, x, w) % 2 + up_cross(
        world,
        walls,
        x,
        y,
    ) % 2 + down_cross(world, walls, x, y, h) % 2 >= 3
}

/// Decides whether one cell lies inside the loop by counting wall
/// crossings in all four directions.
#[verifier::loop_isolation(false)]
pub fn cell_inside(world: &Vec<Vec<char>>, walls: &Vec<Vec<bool>>, x: usize, y: usize) -> (r: bool)
    requires
        world@.len() > 0,
        walls@.len() == world@.len(),
        forall|k: int|
            0 <= k < walls@.len() ==> (#[trigger] walls.deep_view()[k]).len()
                == world.deep_view()[k].len(),
        y < world@.len(),
        x < world.deep_view()[y as int].len(),
    ensures
        r == inside_spec(world.deep_view(), walls.deep_view(), x as int, y as int),
{
    let ghost wv = world.deep_view();
    let ghost gv = walls.deep_view();
    let w = world[0].len();
    let h = world.len();
    proof {
        assert(world@[0]@ == wv[0]);
        assert(w == wv[0].len());
        assert(h == wv.len());
        assert(walls@[y as int]@ == gv[y as int]);
        assert(world@[y as int]@ == wv[y as int]);
    }
    let row_len = world[y].len();
    proof {
        assert(row_len == wv[y as int].len());
    }
    if walls[y][x] {
        return false;
    }
    // left
    let mut left: u64 = 0;
    let mut k: usize = x;
    while k > 0
        invariant
            k <= x,
            left as int == left_cross(wv, gv, y as int, x as int) - left_cross(
                wv,
                gv,
                y as int,
                k as int,
            ),
            left <= x - k,
        decreases k,
    {
        proof {
            lemma_left_cross_mono(wv, gv, y as int, k as int);
            assert(walls@[y as int]@ == gv[y as int]);
            assert(world@[y as int]@ == wv[y as int]);
        }
        let mut counts = false;
        if k - 1 < walls[y].len() {
            if walls[y][k - 1] {
                let c = world[y][k - 1];
                if c != '-' && c != 'F' && c != '7' {
                    counts = true;
                }
            }
        }
        if counts {
            left = left + 1;
        }
        proof {
            assert(counts == wall_counts(wv, gv, y as int, k - 1, '-', 'F', '7'));
        }
        k -= 1;
    }
    if left == 0 {
        return false;
    }
    // right
    let mut right: u64 = 0;
    let mut k2: usize = x;
    while k2 + 1 < w
        invariant
            x <= k2,
            k2 == x || k2 < w,
            right as int == right_cross(wv, gv, y as int, x as int, w as int) - right_cross(
                wv,
                gv,
                y as int,
                k2 as int,
                w as int,
            ),
            right <= k2 - x,
        decreases w - k2,
    {
        proof {
            assert(walls@[y as int]@ == gv[y as int]);
            assert(world@[y as int]@ == wv[y as int]);
            lemma_right_cross_mono(wv, gv, y as int, k2 as int, w as int);
        }
        let mut counts = false;
        if k2 + 1 < walls[y].len() {
            if walls[y][k2 + 1] {
                proof {
                    assert(gv[y as int].len() == wv[y as int].len());
                }
                let c = world[y][k2 + 1];
                if c != '-' && c != 'L' && c != 'J' {
                    counts = true;
                }
            }
        }
        if counts {
            right = right + 1;
        }
        proof {
            assert(counts == wall_counts(wv, gv, y as int, k2 + 1, '-', 'L', 'J'));
        }
        k2 += 1;
    }
    if right == 0 {
        return false;
    }
    // down
    let mut bottom: u64 = 0;
    let mut k3: usize = y;
    while k3 + 1 < h
        invariant
            y <= k3,
            k3 == y || k3 < h,
            bottom as int == down_cross(wv, gv, x as int, y as int, h as int) - down_cross(
                wv,
                gv,
                x as int,
                k3 as int,
                h as int,
            ),
            bottom <= k3 - y,
        decreases h - k3,
    {
        proof {
            lemma_down_cross_mono(wv, gv, x as int, k3 as int, h as int);
            assert(walls@[k3 + 1]@ == gv[k3 + 1]);
            assert(world@[k3 + 1]@ == wv[k3 + 1]);
        }
        let mut counts = false;
        if x < walls[k3 + 1].len() {
            if walls[k3 + 1][x] {
                proof {
                    assert(gv[k3 + 1].len() == wv[k3 + 1].len());
                }
                let c = world[k3 + 1][x];
                if c != '|' && c != 'J' && c != '7' {
                    counts = true;
                }
            }
        }
        if counts {
            bottom = bottom + 1;
        }
        proof {
            assert(counts == wall_counts(wv, gv, k3 + 1, x as int, '|', 'J', '7'));
        }
        k3 += 1;
    }
    if bottom == 0 {
        return false;
    }
    // up
    let mut top: u64 = 0;
    let mut k4: usize = y;
    while k4 > 0
        invariant
            k4 <= y,
            top as int == up_cross(wv, gv, x as int, y as int) - up_cross(
                wv,
                gv,
                x as int,
                k4 as int,
            ),
            top <= y - k4,
        decreases k4,
    {
        proof {
            lemma_up_cross_mono(wv, gv, x as int, k4 as int);
            assert(walls@[k4 - 1]@ == gv[k4 - 1]);
            assert(world@[k4 - 1]@ == wv[k4 - 1]);
        }
        let mut counts = false;
        if x < walls[k4 - 1].len() {
            if walls[k4 - 1][x] {
                proof {
                    assert(gv[k4 - 1].len() == wv[k4 - 1].len());
                }
                let c = world[k4 - 1][x];
                if c != '|' && c != 'L' && c != 'F' {
                    counts = true;
                }
            }
        }
        if counts {
            top = top + 1;
        }
        proof {
            assert(counts == wall_counts(wv, gv, k4 - 1, x as int, '|', 'L', 'F'));
        }
        k4 -= 1;
    }
    if top == 0 {
        return false;
    }
    (left % 2) + (right % 2) + (top % 2) + (bottom % 2) >= 3
}

pub proof fn lemma_left_cross_mono(world: Seq<Seq<char>>, walls: Seq<Seq<bool>>, y: int, x: int)
    requires
        x >= 0,
    ensures
        0 <= left_cross(world, walls, y, x) <= x,
    decreases x,
{
    if x > 0 {
        lemma_left_cross_mono(world, walls, y, x - 1);
    }
}

pub proof fn lemma_right_cross_mono(
    world: Seq<Seq<char>>,
    walls: Seq<Seq<bool>>,
    y: int,
    x: int,
    w: int,
)
    ensures
        0 <= right_cross(world, walls, y, x, w) <= (if w - 1 - x >= 0 {
            w - 1 - x
        } else {
            0
        }),
    decreases w - x,
{
    if x + 1 < w {
        lemma_right_cross_mono(world, walls, y, x + 1, w);
    }
}

pub proof fn lemma_down_cross_mono(
    world: Seq<Seq<char>>,
    walls: Seq<Seq<bool>>,
    x: int,
    y: int,
    h: int,
)
    ensures
        0 <= down_cross(world, walls, x, y, h) <= (if h - 1 - y >= 0 {
            h - 1 - y
        } else {
            0
        }),
    decreases h - y,
{
    if y + 1 < h {
        lemma_down_cross_mono(world, walls, x, y + 1, h);
    }
}

pub proof fn lemma_up_cross_mono(world: Seq<Seq<char>>, walls: Seq<Seq<bool>>, x: int, y: int)
    requires
        y >= 0,
    ensures
        0 <= up_cross(world, walls, x, y) <= y,
    decreases y,
{
    if y > 0 {
        lemma_up_cross_mono(world, walls, x, y - 1);
    }
}

/// The number of inside cells from cell `(x, y)` onward, row by row.
pub open spec fn inside_count_from(
    world: Seq<Seq<char>>,
    walls: Seq<Seq<bool>>,
    y: int,
    x: int,
) -> int
    decreases world.len() - y, (if 0 <= y < world.len() {
        world[y].len() + 1 - x
    } else {
        0
    }),
{
    if y < 0 || y >= world.len() {
        0
    } else if x < 0 || x >= world[y].len() {
        inside_count_from(world, walls, y + 1, 0)
    } else {
        (if inside_spec(world, walls, x, y) {
            1int
        } else {
            0int
        }) + inside_count_from(world, walls, y, x + 1)
    }
}

pub proof fn lemma_inside_count_nonneg(
    world: Seq<Seq<char>>,
    walls: Seq<Seq<bool>>,
    y: int,
    x: int,
)
    ensures
        inside_count_from(world, walls, y, x) >= 0,
    decreases world.len() - y, (if 0 <= y < world.len() {
        world[y].len() + 1 - x
    } else {
        0
    }),
{
    if y < 0 || y >= world.len() {
    } else if x < 0 || x >= world[y].len() {
        lemma_inside_count_nonneg(world, walls, y + 1, 0);
    } else {
        lemma_inside_count_nonneg(world, walls, y, x + 1);
    }
}

/// Counts the cells the wall loop encloses, by the four-direction
/// crossing-parity rule.
#[verifier::loop_isolation(false)]
pub fn count_inside(world: &Vec<Vec<char>>, walls: &Vec<Vec<bool>>) -> (r: u64)
    requires
        world@.len() > 0,
        walls@.len() == world@.len(),
        forall|k: int|
            0 <= k < walls@.len() ==> (#[trigger] walls.deep_view()[k]).len()
                == world.deep_view()[k].len(),
        inside_count_from(world.deep_view(), walls.deep_view(), 0, 0) <= u64::MAX,
    ensures
        r as int == inside_count_from(world.deep_view(), walls.deep_view(), 0, 0),
{
    let ghost wv = world.deep_view();
    let ghost gv = walls.deep_view();
    let h = world.len();
    let mut count: u64 = 0;
    let mut y: usize = 0;
    while y < h
        invariant
            y <= h,
            h == wv.len(),
            count as int + inside_count_from(wv, gv, y as int, 0) == inside_count_from(
                wv,
                gv,
                0,
                0,
            ),
            count as int >= 0,
        decreases h - y,
    {
        let rowlen = world[y].len();
        proof {
            assert(world@[y as int]@ == wv[y as int]);
        }
        let mut x: usize = 0;
        while x < rowlen
            invariant
                x <= rowlen,
                y < h,
                h == wv.len(),
                rowlen == wv[y as int].len(),
                count as int + inside_count_from(wv, gv, y as int, x as int) == inside_count_from(
                    wv,
                    gv,
                    0,
                    0,
                ),
                count as int >= 0,
            decreases rowlen - x,
        {
            proof {
                lemma_inside_count_nonneg(wv, gv, y as int, x + 1);
            }
            if cell_inside(world, walls, x, y) {
                count = count + 1;
            }
            x += 1;
        }
        y += 1;
    }
    count
}

/// Pipe neighbors stay on the grid and carry its dimensions.
pub proof fn lemma_neighbors_on_grid(world: Seq<Seq<char>>, tile: Tile)
    requires
        tile.w == world[0].len(),
        tile.h == world.len(),
        tile.x < tile.w,
        tile.y < tile.h,
    ensures
        forall|k: int|
            0 <= k < tile.neighbors_spec(world).len() ==> (#[trigger] tile.neighbors_spec(
                world,
            )[k]).x < tile.w && tile.neighbors_spec(world)[k].y < tile.h && tile.neighbors_spec(
                world,
            )[k].w == tile.w && tile.neighbors_spec(world)[k].h == tile.h,
{
}

/// An all-false grid has no set cells.
pub proof fn lemma_grid_trues_all_false(g: Seq<Seq<bool>>, y: int)
    requires
        forall|k: int, t: int|
            0 <= k < g.len() && 0 <= t < (#[trigger] g[k]).len() ==> !(#[trigger] g[k][t]),
    ensures
        grid_trues(g, y) == 0,
    decreases g.len() - y,
{
    if 0 <= y < g.len() {
        lemma_row_trues_all_false(g[y], 0);
        lemma_grid_trues_all_false(g, y + 1);
    }
}

pub proof fn lemma_row_trues_all_false(row: Seq<bool>, x: int)
    requires
        forall|t: int| 0 <= t < row.len() ==> !(#[trigger] row[t]),
    ensures
        row_trues(row, x) == 0,
    decreases row.len() - x,
{
    if 0 <= x < row.len() {
        lemma_row_trues_all_false(row, x + 1);
    }
}


// ---------------------------------------------------------------------------
// Composition helpers for the two puzzle parts
// ---------------------------------------------------------------------------

/// The first cell holding `S`, scanning row by row from `(x, y)`.
pub open spec fn find_s_from(world: Seq<Seq<char>>, y: int, x: int) -> Option<(int, int)>
    decreases world.len() - y, (if 0 <= y < world.len() {
        world[y].len() + 1 - x
    } else {
        0
    }),
{
    if y < 0 || y >= world.len() {
        None
    } else if x < 0 || x >= world[y].len() {
        find_s_from(world, y + 1, 0)
    } else if world[y][x] == 'S' {
        Some((x, y))
    } else {
        find_s_from(world, y, x + 1)
    }
}

/// Finds the start cell: the first `S` in reading order.
#[verifier::loop_isolation(false)]
pub fn find_start(world: &Vec<Vec<char>>) -> (r: Option<(usize, usize)>)
    ensures
        r matches Some(p) ==> find_s_from(world.deep_view(), 0, 0) == Some(
            (p.0 as int, p.1 as int),
        ),
        r is None ==> find_s_from(world.deep_view(), 0, 0) is None,
{
    let ghost wv = world.deep_view();
    let h = world.len();
    let mut y: usize = 0;
    while y < h
        invariant
            y <= h,
            h == wv.len(),
            find_s_from(wv, 0, 0) == find_s_from(wv, y as int, 0),
        decreases h - y,
    {
        let rowlen = world[y].len();
        proof {
            assert(world@[y as int]@ == wv[y as int]);
        }
        let mut x: usize = 0;
        while x < rowlen
            invariant
                x <= rowlen,
                y < h,
                rowlen == wv[y as int].len(),
                find_s_from(wv, 0, 0) == find_s_from(wv, y as int, x as int),
            decreases rowlen - x,
        {
            proof {
                assert(world@[y as int]@ == wv[y as int]);
            }
            if world[y][x] == 'S' {
                return Some((x, y));
            }
            x += 1;
        }
        y += 1;
    }
    None
}

/// The largest distance of the walk, or 0 for an empty walk.
pub open spec fn max_dist(s: Seq<(Tile, u64)>) -> u64
    decreases s.len(),
{
    if s.len() == 0 {
        0
    } else if s.last().1 > max_dist(s.drop_last()) {
        s.last().1
    } else {
        max_dist(s.drop_last())
    }
}

/// The largest distance of a pipe walk.
#[verifier::loop_isolation(false)]
pub fn max_distance(distances: &Vec<(Tile, u64)>) -> (r: u64)
    ensures
        r == max_dist(distances@),
{
    let n = distances.len();
    let mut m: u64 = 0;
    let mut i: usize = 0;
    proof {
        assert(distances@.take(0) =~= Seq::<(Tile, u64)>::empty());
    }
    while i < n
        invariant
            i <= n,
            m == max_dist(distances@.take(i as int)),
        decreases n - i,
    {
        proof {
            assert(distances@.take(i + 1).drop_last() =~= distances@.take(i as int));
            assert(distances@.take(i + 1).last() == distances@[i as int]);
        }
        if distances[i].1 > m {
            m = distances[i].1;
        }
        i += 1;
    }
    proof {
        assert(distances@.take(n as int) =~= distances@);
    }
    m
}

/// What the expanded grid holds at `(k, yy)`: the original cell shifted
/// by one, or a space on the border and beyond short rows.
pub open spec fn expand_cell(world: Seq<Seq<char>>, yy: int, k: int) -> char {
    if 1 <= yy <= world.len() && 1 <= k && k - 1 < world[yy - 1].len() {
        world[yy - 1][k - 1]
    } else {
        ' '
    }
}

/// Pads the grid with one ring of spaces, shifting every cell by one in
/// both directions.
#[verifier::loop_isolation(false)]
pub fn expand_world(world: &Vec<Vec<char>>) -> (r: Vec<Vec<char>>)
    requires
        world@.len() > 0,
        world@.len() + 2 <= usize::MAX,
        world.deep_view()[0].len() + 2 <= usize::MAX,
        forall|k: int|
            0 <= k < world@.len() ==> (#[trigger] world.deep_view()[k]).len()
                <= world.deep_view()[0].len(),
    ensures
        r@.len() == world@.len() + 2,
        forall|k: int|
            0 <= k < r@.len() ==> (#[trigger] r.deep_view()[k]).len() == world.deep_view()[0].len()
                + 2,
        forall|yy: int, k: int|
            0 <= yy < r@.len() && 0 <= k < r.deep_view()[yy].len()
                ==> #[trigger] r.deep_view()[yy][k] == expand_cell(world.deep_view(), yy, k),
{
    let ghost wv = world.deep_view();
    let w = world[0].len();
    let h = world.len();
    proof {
        assert(world@[0]@ == wv[0]);
        assert(w == wv[0].len());
    }
    let mut out: Vec<Vec<char>> = Vec::new();
    out.push(space_row(w + 2));
    let mut y: usize = 0;
    while y < h
        invariant
            y <= h,
            h == wv.len(),
            w == wv[0].len(),
            out@.len() == y + 1,
            forall|k: int| 0 <= k < y + 1 ==> (#[trigger] out.deep_view()[k]).len() == w + 2,
            forall|yy: int, k: int|
                0 <= yy < y + 1 && 0 <= k < w + 2 ==> #[trigger] out.deep_view()[yy][k]
                    == expand_cell(wv, yy, k),
        decreases h - y,
    {
        let mut next_row = space_row(w + 2);
        let rowlen = world[y].len();
        proof {
            assert(world@[y as int]@ == wv[y as int]);
            assert(rowlen <= w);
        }
        let mut x: usize = 0;
        while x < rowlen
            invariant
                x <= rowlen,
                y < h,
                rowlen == wv[y as int].len(),
                rowlen <= w,
                next_row@.len() == w + 2,
                forall|k: int|
                    0 <= k < w + 2 ==> #[trigger] next_row@[k] == (if 1 <= k && k - 1 < x {
                        wv[y as int][k - 1]
                    } else {
                        ' '
                    }),
            decreases rowlen - x,
        {
            proof {
                assert(world@[y as int]@ == wv[y as int]);
            }
            next_row.set(x + 1, world[y][x]);
            x += 1;
        }
        let ghost oldout = out.deep_view();
        out.push(next_row);
        proof {
            assert(out.deep_view() =~~= oldout.push(next_row@));
            assert forall|yy: int, k: int|
                0 <= yy < y + 2 && 0 <= k < w + 2 implies #[trigger] out.deep_view()[yy][k]
                == expand_cell(wv, yy, k) by {
                if yy == y + 1 {
                    assert(out.deep_view()[yy][k] == next_row@[k]);
                }
            }
        }
        y += 1;
    }
    let ghost oldout = out.deep_view();
    out.push(space_row(w + 2));
    proof {
        assert(out.deep_view() =~~= oldout.push(out@.last()@));
        assert forall|yy: int, k: int|
            0 <= yy < out@.len() && 0 <= k < w + 2 implies #[trigger] out.deep_view()[yy][k]
            == expand_cell(wv, yy, k) by {
            if yy == out@.len() - 1 {
                assert(out.deep_view()[yy][k] == ' ');
            }
        }
    }
    out
}

/// A row of the given number of spaces.
#[verifier::loop_isolation(false)]
fn space_row(n: usize) -> (r: Vec<char>)
    ensures
        r@.len() == n,
        forall|k: int| 0 <= k < n ==> #[trigger] r@[k] == ' ',
{
    let mut r: Vec<char> = Vec::new();
    let mut i: usize = 0;
    while i < n
        invariant
            i <= n,
            r@.len() == i,
            forall|k: int| 0 <= k < i ==> #[trigger] r@[k] == ' ',
        decreases n - i,
    {
        r.push(' ');
        i += 1;
    }
    r
}

/// Whether the walk passed through the cell one step up and left of
/// `(xx, yy)` — the loop's place in the expanded grid.
pub open spec fn on_loop(r: Seq<(Tile, u64)>, xx: int, yy: int) -> bool {
    exists|k: int| 0 <= k < r.len() && (#[trigger] r[k]).0.x + 1 == xx && r[k].0.y + 1 == yy
}

/// Marks the walked tiles on a grid sized for the expanded world, each
/// shifted by one in both directions.
#[verifier::loop_isolation(false)]
pub fn loop_walls(distances: &Vec<(Tile, u64)>, w: usize, h: usize) -> (r: Vec<Vec<bool>>)
    requires
        w + 2 <= usize::MAX,
        h + 2 <= usize::MAX,
        forall|k: int|
            0 <= k < distances@.len() ==> (#[trigger] distances@[k]).0.x < w && distances@[k].0.y
                < h,
    ensures
        r@.len() == h + 2,
        forall|k: int| 0 <= k < r@.len() ==> (#[trigger] r.deep_view()[k]).len() == w + 2,
        forall|yy: int, xx: int|
            0 <= yy < h + 2 && 0 <= xx < w + 2 ==> ((#[trigger] r.deep_view()[yy][xx]) <==> on_loop(
                distances@,
                xx,
                yy,
            )),
{
    let mut grid: Vec<Vec<bool>> = Vec::new();
    let mut yy: usize = 0;
    while yy < h + 2
        invariant
            yy <= h + 2,
            grid@.len() == yy,
            forall|k: int| 0 <= k < yy ==> (#[trigger] grid.deep_view()[k]).len() == w + 2,
            forall|k: int, t: int|
                0 <= k < yy && 0 <= t < w + 2 ==> !(#[trigger] grid.deep_view()[k][t]),
        decreases h + 2 - yy,
    {
        let mut row: Vec<bool> = Vec::new();
        let mut xx: usize = 0;
        while xx < w + 2
            invariant
                xx <= w + 2,
                row@.len() == xx,
                forall|t: int| 0 <= t < xx ==> !(#[trigger] row@[t]),
            decreases w + 2 - xx,
        {
            row.push(false);
            xx += 1;
        }
        let ghost oldg = grid.deep_view();
        grid.push(row);
        proof {
            assert(grid.deep_view() =~~= oldg.push(row@));
        }
        yy += 1;
    }
    let n = distances.len();
    let mut i: usize = 0;
    while i < n
        invariant
            i <= n,
            n == distances@.len(),
            grid@.len() == h + 2,
            forall|k: int| 0 <= k < h + 2 ==> (#[trigger] grid.deep_view()[k]).len() == w + 2,
            forall|yy2: int, xx2: int|
                0 <= yy2 < h + 2 && 0 <= xx2 < w + 2 ==> ((#[trigger] grid.deep_view()[yy2][xx2])
                    <==> exists|k: int|
                    0 <= k < i && (#[trigger] distances@[k]).0.x + 1 == xx2 && distances@[k].0.y
                        + 1 == yy2),
        decreases n - i,
    {
        let t = distances[i].0;
        proof {
            assert(grid@[t.y + 1]@ == grid.deep_view()[t.y + 1]);
        }
        let ghost oldg = grid.deep_view();
        grid[t.y + 1].set(t.x + 1, true);
        proof {
            assert(grid.deep_view() =~~= oldg.update(
                t.y + 1,
                oldg[t.y + 1].update(t.x + 1, true),
            ));
            assert forall|yy2: int, xx2: int|
                0 <= yy2 < h + 2 && 0 <= xx2 < w + 2 implies ((
            #[trigger] grid.deep_view()[yy2][xx2]) <==> exists|k: int|
                0 <= k < i + 1 && (#[trigger] distances@[k]).0.x + 1 == xx2 && distances@[k].0.y
                    + 1 == yy2) by {
                if yy2 == t.y + 1 && xx2 == t.x + 1 {
                    assert((#[trigger] distances@[i as int]).0.x + 1 == xx2 && distances@[i as int].0.y
                        + 1 == yy2);
                } else {
                    assert(grid.deep_view()[yy2][xx2] == oldg[yy2][xx2]);
                    if exists|k: int|
                        0 <= k < i + 1 && (#[trigger] distances@[k]).0.x + 1 == xx2
                            && distances@[k].0.y + 1 == yy2 {
                        let k = choose|k: int|
                            0 <= k < i + 1 && (#[trigger] distances@[k]).0.x + 1 == xx2
                                && distances@[k].0.y + 1 == yy2;
                        assert(k < i);
                    }
                }
            }
        }
        i += 1;
    }
    grid
}

} // verus!
