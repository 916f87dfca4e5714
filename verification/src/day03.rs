//! Engine schematic scanning: numbers embedded in a character grid count
//! when a symbol touches them, and `*` cells touching exactly two numbers
//! yield gear ratios.

use vstd::prelude::*;

use crate::text;

verus! {

/// Turns the input text into a grid of characters, one row per line.
pub fn string_as_2d_array(s: String) -> (r: Vec<Vec<char>>)
    ensures
        r.deep_view() == text::split_lines(s@),
{
    let chars = text::str_chars(s.as_str());
    text::split_lines_exec(&chars)
}

/// One grid position, carrying the grid's width and height.
#[derive(Debug, PartialEq, Eq, Structural, Clone, Copy)]
pub struct Tile {
    pub x: usize,
    pub y: usize,
    pub w: usize,
    pub h: usize,
}

/// The character of the grid at `(x, y)`, if the position exists.
pub open spec fn char_at_spec(world: Seq<Seq<char>>, x: int, y: int) -> Option<char> {
    if 0 <= y < world.len() && 0 <= x < world[y].len() {
        Some(world[y][x])
    } else {
        None
    }
}

/// The decimal digit of the grid at `(x, y)`, if the position exists and
/// holds one.
pub open spec fn digit_at_spec(world: Seq<Seq<char>>, x: int, y: int) -> Option<u32> {
    match char_at_spec(world, x, y) {
        Some(c) => if text::is_digit_char(c) {
            Some((c as u32 - 48) as u32)
        } else {
            None
        },
        None => None,
    }
}

pub open spec fn opt_tile_seq(o: Option<Tile>) -> Seq<Tile> {
    match o {
        Some(t) => seq![t],
        None => seq![],
    }
}

impl Tile {
    pub fn new(world_width: usize, world_height: usize, x: usize, y: usize) -> (r: Self)
        ensures
            r == (Tile { x, y, w: world_width, h: world_height }),
    {
        Tile { x, y, w: world_width, h: world_height }
    }

    /// A tile of the given grid, whose width is that of the first row.
    pub fn from_world(world: &Vec<Vec<char>>, x: usize, y: usize) -> (r: Self)
        requires
            world@.len() > 0,
        ensures
            r == (Tile { x, y, w: world.deep_view()[0].len() as usize, h: world@.len() as usize }),
    {
        Tile { x, y, w: world[0].len(), h: world.len() }
    }

    pub fn char_at(&self, world: &Vec<Vec<char>>) -> (r: Option<char>)
        ensures
            r == char_at_spec(world.deep_view(), self.x as int, self.y as int),
    {
        if self.y >= world.len() || self.x >= world[self.y].len() {
            None
        } else {
            proof {
                assert(world@[self.y as int]@ == world.deep_view()[self.y as int]);
            }
            Some(world[self.y][self.x])
        }
    }

    pub fn digit_at(&self, world: &Vec<Vec<char>>) -> (r: Option<u32>)
        ensures
            r == digit_at_spec(world.deep_view(), self.x as int, self.y as int),
    {
        if self.y >= world.len() || self.x >= world[self.y].len() {
            None
        } else {
            proof {
                assert(world@[self.y as int]@ == world.deep_view()[self.y as int]);
            }
            let c = world[self.y][self.x];
            let u = c as u32;
            if 48 <= u && u <= 57 {
                Some(u - 48)
            } else {
                None
            }
        }
    }

    pub open spec fn topleft_spec(self) -> Option<Tile> {
        if self.x > 0 && self.y > 0 {
            Some(Tile { x: (self.x - 1) as usize, y: (self.y - 1) as usize, w: self.w, h: self.h })
        } else {
            None
        }
    }

    pub fn topleft(&self) -> (r: Option<Self>)
        ensures
            r == self.topleft_spec(),
    {
        if self.x > 0 && self.y > 0 {
            Some(Self::new(self.w, self.h, self.x - 1, self.y - 1))
        } else {
            None
        }
    }

    pub open spec fn top_spec(self) -> Option<Tile> {
        if self.y > 0 {
            Some(Tile { x: self.x, y: (self.y - 1) as usize, w: self.w, h: self.h })
        } else {
            None
        }
    }

    pub fn top(&self) -> (r: Option<Self>)
        ensures
            r == self.top_spec(),
    {
        if self.y > 0 {
            Some(Self::new(self.w, self.h, self.x, self.y - 1))
        } else {
            None
        }
    }

    pub open spec fn topright_spec(self) -> Option<Tile> {
        if self.x + 1 < self.w && self.y > 0 {
            Some(Tile { x: (self.x + 1) as usize, y: (self.y - 1) as usize, w: self.w, h: self.h })
        } else {
            None
        }
    }

    pub fn topright(&self) -> (r: Option<Self>)
        ensures
            r == self.topright_spec(),
    {
        if self.x < usize::MAX && self.x + 1 < self.w && self.y > 0 {
            Some(Self::new(self.w, self.h, self.x + 1, self.y - 1))
        } else {
            None
        }
    }

    pub open spec fn left_spec(self) -> Option<Tile> {
        if self.x > 0 {
            Some(Tile { x: (self.x - 1) as usize, y: self.y, w: self.w, h: self.h })
        } else {
            None
        }
    }

    pub fn left(&self) -> (r: Option<Self>)
        ensures
            r == self.left_spec(),
    {
        if self.x > 0 {
            Some(Self::new(self.w, self.h, self.x - 1, self.y))
        } else {
            None
        }
    }

    pub open spec fn right_spec(self) -> Option<Tile> {
        if self.x + 1 < self.w {
            Some(Tile { x: (self.x + 1) as usize, y: self.y, w: self.w, h: self.h })
        } else {
            None
        }
    }

    pub fn right(&self) -> (r: Option<Self>)
        ensures
            r == self.right_spec(),
    {
        if self.x < usize::MAX && self.x + 1 < self.w {
            Some(Self::new(self.w, self.h, self.x + 1, self.y))
        } else {
            None
        }
    }

    pub open spec fn bottomleft_spec(self) -> Option<Tile> {
        if self.x > 0 && self.y + 1 < self.h {
            Some(Tile { x: (self.x - 1) as usize, y: (self.y + 1) as usize, w: self.w, h: self.h })
        } else {
            None
        }
    }

    pub fn bottomleft(&self) -> (r: Option<Self>)
        ensures
            r == self.bottomleft_spec(),
    {
        if self.x > 0 && self.y < usize::MAX && self.y + 1 < self.h {
            Some(Self::new(self.w, self.h, self.x - 1, self.y + 1))
        } else {
            None
        }
    }

    pub open spec fn bottom_spec(self) -> Option<Tile> {
        if self.y + 1 < self.h {
            Some(Tile { x: self.x, y: (self.y + 1) as usize, w: self.w, h: self.h })
        } else {
            None
        }
    }

    pub fn bottom(&self) -> (r: Option<Self>)
        ensures
            r == self.bottom_spec(),
    {
        if self.y < usize::MAX && self.y + 1 < self.h {
            Some(Self::new(self.w, self.h, self.x, self.y + 1))
        } else {
            None
        }
    }

    pub open spec fn bottomright_spec(self) -> Option<Tile> {
        if self.x + 1 < self.w && self.y + 1 < self.h {
            Some(Tile { x: (self.x + 1) as usize, y: (self.y + 1) as usize, w: self.w, h: self.h })
        } else {
            None
        }
    }

    pub fn bottomright(&self) -> (r: Option<Self>)
        ensures
            r == self.bottomright_spec(),
    {
        if self.x < usize::MAX && self.x + 1 < self.w && self.y < usize::MAX && self.y + 1
            < self.h {
            Some(Self::new(self.w, self.h, self.x + 1, self.y + 1))
        } else {
            None
        }
    }

    /// The eight neighbors that exist, clockwise from the top left.
    pub open spec fn adjacencies_spec(self) -> Seq<Tile> {
        opt_tile_seq(self.topleft_spec()) + opt_tile_seq(self.top_spec()) + opt_tile_seq(
            self.topright_spec(),
        ) + opt_tile_seq(self.left_spec()) + opt_tile_seq(self.right_spec()) + opt_tile_seq(
            self.bottomleft_spec(),
        ) + opt_tile_seq(self.bottom_spec()) + opt_tile_seq(self.bottomright_spec())
    }

    pub fn adjacencies(&self) -> (r: Vec<Self>)
        ensures
            r@ == self.adjacencies_spec(),
    {
        let mut out: Vec<Tile> = Vec::new();
        match self.topleft() {
            Some(t) => out.push(t),
            None => (),
        }
        match self.top() {
            Some(t) => out.push(t),
            None => (),
        }
        match self.topright() {
            Some(t) => out.push(t),
            None => (),
        }
        match self.left() {
            Some(t) => out.push(t),
            None => (),
        }
        match self.right() {
            Some(t) => out.push(t),
            None => (),
        }
        match self.bottomleft() {
            Some(t) => out.push(t),
            None => (),
        }
        match self.bottom() {
            Some(t) => out.push(t),
            None => (),
        }
        match self.bottomright() {
            Some(t) => out.push(t),
            None => (),
        }
        proof {
            assert(out@ =~= self.adjacencies_spec());
        }
        out
    }
}

/// Whether `c` is one of the schematic's symbol characters.
pub open spec fn is_special_spec(c: char) -> bool {
    c == '!' || c == '@' || c == '#' || c == '$' || c == '%' || c == '^' || c == '&' || c == '*'
        || c == '+' || c == '-' || c == '/' || c == '='
}

pub fn is_special(c: char) -> (r: bool)
    ensures
        r == is_special_spec(c),
{
    c == '!' || c == '@' || c == '#' || c == '$' || c == '%' || c == '^' || c == '&' || c == '*'
        || c == '+' || c == '-' || c == '/' || c == '='
}

/// Whether a symbol stands on one of the eight neighbors of `(x, y)`.
/// The neighbor list of the tile at `(x, y)` of the given grid.
pub open spec fn adjacencies_at(world: Seq<Seq<char>>, x: int, y: int) -> Seq<Tile> {
    Tile {
        x: x as usize,
        y: y as usize,
        w: world[0].len() as usize,
        h: world.len() as usize,
    }.adjacencies_spec()
}

/// Whether the `k`-th neighbor of `(x, y)` holds a symbol.
pub open spec fn special_at_neighbor(world: Seq<Seq<char>>, x: int, y: int, k: int) -> bool {
    0 <= k < adjacencies_at(world, x, y).len() && (match char_at_spec(
        world,
        adjacencies_at(world, x, y)[k].x as int,
        adjacencies_at(world, x, y)[k].y as int,
    ) {
        Some(c) => is_special_spec(c),
        None => false,
    })
}

pub open spec fn special_adjacent_spec(world: Seq<Seq<char>>, x: int, y: int) -> bool {
    exists|k: int| #[trigger] special_at_neighbor(world, x, y, k)
}

#[verifier::loop_isolation(false)]
#[verifier::rlimit(60)]
pub fn is_special_adjacent(world: &Vec<Vec<char>>, x: usize, y: usize) -> (r: bool)
    requires
        world@.len() > 0,
        0 <= x <= usize::MAX,
    ensures
        r == special_adjacent_spec(world.deep_view(), x as int, y as int),
{
    let tile = Tile::from_world(world, x, y);
    let adj = tile.adjacencies();
    let n = adj.len();
    let ghost adjs = tile.adjacencies_spec();
    let mut i: usize = 0;
    proof {
        assert(adjs == adjacencies_at(world.deep_view(), x as int, y as int));
    }
    while i < n
        invariant
            i <= n,
            n == adjs.len(),
            adj@ == adjs,
            adjs == adjacencies_at(world.deep_view(), x as int, y as int),
            forall|k: int|
                0 <= k < i ==> !special_at_neighbor(world.deep_view(), x as int, y as int, k),
        decreases n - i,
    {
        proof {
            assert(adjs[i as int] == adj@[i as int]);
        }
        match adj[i].char_at(world) {
            Some(c) => {
                if is_special(c) {
                    proof {
                        assert(special_at_neighbor(world.deep_view(), x as int, y as int, i as int));
                    }
                    return true;
                }
            },
            None => (),
        }
        proof {
            assert(!special_at_neighbor(world.deep_view(), x as int, y as int, i as int));
        }
        i += 1;
    }
    proof {
        assert forall|k: int| !special_at_neighbor(world.deep_view(), x as int, y as int, k) by {
            if 0 <= k < n {
            }
        }
    }
    false
}

// ---------------------------------------------------------------------------
// Part one: the scan for symbol-adjacent numbers
// ---------------------------------------------------------------------------

/// One scan step: a digit extends the number being read and marks it
/// valid if a symbol is adjacent; anything else flushes a valid number
/// into the sum.
pub open spec fn scan_step(st: (int, bool, int), c: char, adjacent: bool) -> (int, bool, int) {
    if text::is_digit_char(c) {
        (st.0 * 10 + (c as u32 - 48), st.1 || adjacent, st.2)
    } else {
        if st.1 {
            (0, false, st.2 + st.0)
        } else {
            (0, false, st.2)
        }
    }
}

/// The scan state after processing the grid from cell `(x, y)` onward,
/// row by row. The running number and its validity carry across row ends,
/// as the scan of the schematic carries them.
pub open spec fn scan_from(world: Seq<Seq<char>>, y: int, x: int, st: (int, bool, int)) -> (
    int,
    bool,
    int,
)
    decreases world.len() - y, (if 0 <= y < world.len() {
        world[y].len() + 1 - x
    } else {
        0
    }),
{
    if y < 0 || y >= world.len() {
        st
    } else if x < 0 || x >= world[y].len() {
        scan_from(world, y + 1, 0, st)
    } else {
        scan_from(
            world,
            y,
            x + 1,
            scan_step(st, world[y][x], special_adjacent_spec(world, x, y)),
        )
    }
}

/// Every intermediate running number and sum of the scan from `(x, y)`
/// fits in `u32`.
pub open spec fn scan_fits(world: Seq<Seq<char>>, y: int, x: int, st: (int, bool, int)) -> bool
    decreases world.len() - y, (if 0 <= y < world.len() {
        world[y].len() + 1 - x
    } else {
        0
    }),
{
    0 <= st.0 <= u32::MAX && 0 <= st.2 <= u32::MAX && if y < 0 || y >= world.len() {
        true
    } else if x < 0 || x >= world[y].len() {
        scan_fits(world, y + 1, 0, st)
    } else {
        let st2 = scan_step(st, world[y][x], special_adjacent_spec(world, x, y));
        0 <= st2.0 <= u32::MAX && 0 <= st2.2 <= u32::MAX && scan_fits(world, y, x + 1, st2)
    }
}

/// Sums every number of the schematic that touches a symbol.
#[verifier::loop_isolation(false)]
pub fn part1(contents: &str) -> (r: u32)
    requires
        scan_fits(text::split_lines(contents@), 0, 0, (0, false, 0)),
    ensures
        r as int == scan_from(text::split_lines(contents@), 0, 0, (0, false, 0)).2,
{
    let chars = text::str_chars(contents);
    let world = text::split_lines_exec(&chars);
    let ghost wv = text::split_lines(contents@);
    let h = world.len();
    let mut current_number: u32 = 0;
    let mut is_valid = false;
    let mut sum: u32 = 0;
    let mut y: usize = 0;
    while y < h
        invariant
            y <= h,
            h == wv.len(),
            world.deep_view() == wv,
            scan_from(wv, 0, 0, (0, false, 0)) == scan_from(
                wv,
                y as int,
                0,
                (current_number as int, is_valid, sum as int),
            ),
            scan_fits(wv, y as int, 0, (current_number as int, is_valid, sum as int)),
        decreases h - y,
    {
        let rowlen = world[y].len();
        proof {
            assert(world@[y as int]@ == wv[y as int]);
        }
        let mut x: usize = 0;
        while x < rowlen
            invariant
                x <= rowlen,
                y < h,
                h == wv.len(),
                world.deep_view() == wv,
                rowlen == wv[y as int].len(),
                scan_from(wv, 0, 0, (0, false, 0)) == scan_from(
                    wv,
                    y as int,
                    x as int,
                    (current_number as int, is_valid, sum as int),
                ),
                scan_fits(wv, y as int, x as int, (current_number as int, is_valid, sum as int)),
            decreases rowlen - x,
        {
            proof {
                assert(world@[y as int]@ == wv[y as int]);
            }
            let c = world[y][x];
            let adjacent = is_special_adjacent(&world, x, y);
            let u = c as u32;
            if 48 <= u && u <= 57 {
                current_number = current_number * 10 + (u - 48);
                is_valid = is_valid || adjacent;
            } else {
                if is_valid {
                    sum = sum + current_number;
                    is_valid = false;
                }
                current_number = 0;
            }
            x += 1;
        }
        y += 1;
    }
    sum
}

// ---------------------------------------------------------------------------
// Part two: gears
// ---------------------------------------------------------------------------

/// The leftmost column of the digit run through `(x, y)`.
pub open spec fn run_start(world: Seq<Seq<char>>, x: int, y: int) -> int
    decreases x,
{
    if x > 0 && digit_at_spec(world, x - 1, y) is Some {
        run_start(world, x - 1, y)
    } else {
        x
    }
}

/// The rightmost column of the digit run starting at `(x, y)`, bounded by
/// the width of the first row.
pub open spec fn run_end(world: Seq<Seq<char>>, x: int, y: int) -> int
    decreases world[0].len() - x,
{
    if x + 1 < world[0].len() && digit_at_spec(world, x + 1, y) is Some {
        run_end(world, x + 1, y)
    } else {
        x
    }
}

/// Runs extend rightward: the run's end never lies left of its start.
pub proof fn lemma_run_end_ge(world: Seq<Seq<char>>, x: int, y: int)
    ensures
        run_end(world, x, y) >= x,
    decreases world[0].len() - x,
{
    if x + 1 < world[0].len() && digit_at_spec(world, x + 1, y) is Some {
        lemma_run_end_ge(world, x + 1, y);
    }
}

/// The decimal value of the digits in columns `i ..= j` of row `y`.
pub open spec fn run_val(world: Seq<Seq<char>>, y: int, i: int, j: int) -> int
    decreases j - i + 1,
{
    if j < i {
        0
    } else {
        run_val(world, y, i, j - 1) * 10 + (digit_at_spec(world, j, y)->0) as int
    }
}

/// What `gather_number` finds at `(x, y)`: the full digit run through
/// that cell, its value, and the run's last tile.
pub open spec fn gather_spec(world: Seq<Seq<char>>, x: int, y: int) -> Option<(u32, Tile)> {
    if digit_at_spec(world, x, y) is None {
        None
    } else {
        let i = run_start(world, x, y);
        let j = run_end(world, i, y);
        Some(
            (
                run_val(world, y, i, j) as u32,
                Tile {
                    x: j as usize,
                    y: y as usize,
                    w: world[0].len() as usize,
                    h: world.len() as usize,
                },
            ),
        )
    }
}

/// The digit run through `(x, y)` has a value that fits in `u32`.
pub open spec fn gather_fits(world: Seq<Seq<char>>, x: int, y: int) -> bool {
    digit_at_spec(world, x, y) is Some ==> {
        let i = run_start(world, x, y);
        forall|j: int|
            i <= j <= run_end(world, i, y) ==> 0 <= #[trigger] run_val(world, y, i, j) <= u32::MAX
    }
}

/// Finds the whole number whose digits run through `(x, y)`: its value
/// and the tile of its last digit.
#[verifier::loop_isolation(false)]
pub fn gather_number(world: &Vec<Vec<char>>, x: usize, y: usize) -> (r: Option<(u32, Tile)>)
    requires
        world@.len() > 0,
        gather_fits(world.deep_view(), x as int, y as int),
    ensures
        r == gather_spec(world.deep_view(), x as int, y as int),
{
    let ghost wv = world.deep_view();
    let w0 = world[0].len();
    let h0 = world.len();
    proof {
        assert(world@[0]@ == wv[0]);
        assert(w0 == wv[0].len());
        assert(h0 == wv.len());
    }
    let mut tile = Tile::from_world(world, x, y);
    if tile.digit_at(world).is_none() {
        return None;
    }
    loop
        invariant
            tile.y == y,
            tile.w == wv[0].len(),
            tile.h == wv.len(),
            world.deep_view() == wv,
            world@.len() > 0,
            digit_at_spec(wv, tile.x as int, y as int) is Some,
            run_start(wv, x as int, y as int) == run_start(wv, tile.x as int, y as int),
            tile.x <= x,
        decreases tile.x,
    {
        match tile.left() {
            Some(next_tile) => {
                if next_tile.digit_at(world).is_some() {
                    tile = next_tile;
                } else {
                    break;
                }
            },
            None => {
                break;
            },
        }
    }
    proof {
        assert(run_start(wv, tile.x as int, y as int) == tile.x as int);
    }
    let ghost i = tile.x as int;
    let mut number: u32 = match tile.digit_at(world) {
        Some(d) => d,
        None => 0,
    };
    proof {
        assert(run_val(wv, y as int, i, i - 1) == 0);
        assert(run_val(wv, y as int, i, i) == (digit_at_spec(wv, i, y as int)->0) as int);
        lemma_run_end_ge(wv, i, y as int);
        assert(forall|j: int|
            i <= j <= run_end(wv, i, y as int) ==> 0 <= #[trigger] run_val(wv, y as int, i, j)
                <= u32::MAX);
    }
    loop
        invariant
            tile.y == y,
            tile.w == wv[0].len(),
            tile.h == wv.len(),
            world.deep_view() == wv,
            world@.len() > 0,
            i <= tile.x,
            run_end(wv, i, y as int) == run_end(wv, tile.x as int, y as int),
            number as int == run_val(wv, y as int, i, tile.x as int),
            forall|j: int|
                i <= j <= run_end(wv, i, y as int) ==> 0 <= #[trigger] run_val(wv, y as int, i, j)
                    <= u32::MAX,
            tile.x as int <= run_end(wv, i, y as int),
        decreases wv[0].len() - tile.x,
    {
        match tile.right() {
            Some(next_tile) => {
                match next_tile.digit_at(world) {
                    Some(d) => {
                        proof {
                            assert(run_end(wv, tile.x as int, y as int) == run_end(
                                wv,
                                tile.x + 1,
                                y as int,
                            ));
                            lemma_run_end_ge(wv, tile.x + 1, y as int);
                            assert(tile.x + 1 <= run_end(wv, i, y as int));
                            assert(run_val(wv, y as int, i, tile.x + 1) == run_val(
                                wv,
                                y as int,
                                i,
                                tile.x as int,
                            ) * 10 + d);
                        }
                        number = number * 10 + d;
                        tile = next_tile;
                    },
                    None => {
                        break;
                    },
                }
            },
            None => {
                break;
            },
        }
    }
    proof {
        assert(run_end(wv, tile.x as int, y as int) == tile.x as int);
    }
    Some((number, tile))
}

/// Folds `gather_number` over the eight neighbors of a `*`, keeping each
/// found number once per run (consecutive hits on the same run are
/// dropped by remembering the run's last tile).
pub open spec fn gear_numbers_from(
    world: Seq<Seq<char>>,
    adjs: Seq<Tile>,
    k: int,
    numbers: Seq<u32>,
    previous: Tile,
) -> Seq<u32>
    decreases adjs.len() - k,
{
    if k < 0 || k >= adjs.len() {
        numbers
    } else {
        match gather_spec(world, adjs[k].x as int, adjs[k].y as int) {
            Some(p) => if p.1 != previous {
                gear_numbers_from(world, adjs, k + 1, numbers.push(p.0), p.1)
            } else {
                gear_numbers_from(world, adjs, k + 1, numbers, previous)
            },
            None => gear_numbers_from(world, adjs, k + 1, numbers, previous),
        }
    }
}

/// The numbers a `*` at `(x, y)` touches, each run counted once per
/// consecutive hit.
pub open spec fn gear_numbers(world: Seq<Seq<char>>, x: int, y: int) -> Seq<u32> {
    let t = Tile {
        x: x as usize,
        y: y as usize,
        w: world[0].len() as usize,
        h: world.len() as usize,
    };
    gear_numbers_from(world, t.adjacencies_spec(), 0, seq![], Tile { x: 0, y: 0, w: 0, h: 0 })
}

/// The gear ratio of a `*` at `(x, y)`: the product of its two numbers,
/// if it touches exactly two.
pub open spec fn gear_ratio_spec(world: Seq<Seq<char>>, x: int, y: int) -> Option<u32> {
    let nums = gear_numbers(world, x, y);
    if nums.len() == 2 {
        Some((nums[0] * nums[1]) as u32)
    } else {
        None
    }
}

/// Every neighbor's digit run fits, and if exactly two numbers are found
/// their product fits.
pub open spec fn gear_fits(world: Seq<Seq<char>>, x: int, y: int) -> bool {
    let t = Tile {
        x: x as usize,
        y: y as usize,
        w: world[0].len() as usize,
        h: world.len() as usize,
    };
    &&& forall|k: int|
        0 <= k < t.adjacencies_spec().len() ==> gather_fits(
            world,
            (#[trigger] t.adjacencies_spec()[k]).x as int,
            t.adjacencies_spec()[k].y as int,
        )
    &&& (gear_numbers(world, x, y).len() == 2 ==> gear_numbers(world, x, y)[0] * gear_numbers(
        world,
        x,
        y,
    )[1] <= u32::MAX)
}

/// The product of the two numbers a `*` touches, if it touches exactly
/// two.
#[verifier::loop_isolation(false)]
pub fn gear_ratio(world: &Vec<Vec<char>>, x: usize, y: usize) -> (r: Option<u32>)
    requires
        world@.len() > 0,
        gear_fits(world.deep_view(), x as int, y as int),
    ensures
        r == gear_ratio_spec(world.deep_view(), x as int, y as int),
{
    let ghost wv = world.deep_view();
    let tile = Tile::from_world(world, x, y);
    let adj = tile.adjacencies();
    let ghost adjs = tile.adjacencies_spec();
    let mut numbers: Vec<u32> = Vec::new();
    let mut previous: Tile = Tile::new(0, 0, 0, 0);
    let n = adj.len();
    let mut k: usize = 0;
    proof {
        assert(gear_numbers(wv, x as int, y as int) == gear_numbers_from(
            wv,
            adjs,
            0,
            Seq::<u32>::empty(),
            Tile { x: 0, y: 0, w: 0, h: 0 },
        ));
        assert(numbers@ =~= Seq::<u32>::empty());
    }
    while k < n
        invariant
            k <= n,
            n == adjs.len(),
            adj@ == adjs,
            world.deep_view() == wv,
            world@.len() > 0,
            gear_numbers(wv, x as int, y as int) == gear_numbers_from(
                wv,
                adjs,
                k as int,
                numbers@,
                previous,
            ),
        decreases n - k,
    {
        proof {
            assert(adjs[k as int] == adj@[k as int]);
            assert(gather_fits(wv, adjs[k as int].x as int, adjs[k as int].y as int));
        }
        match gather_number(world, adj[k].x, adj[k].y) {
            Some((num, t)) => {
                if !(t == previous) {
                    numbers.push(num);
                    previous = t;
                }
            },
            None => (),
        }
        k += 1;
    }
    if numbers.len() == 2 {
        Some(numbers[0] * numbers[1])
    } else {
        None
    }
}

/// The sum of the gear ratios of every `*` from cell `(x, y)` onward.
pub open spec fn gear_sum_from(world: Seq<Seq<char>>, y: int, x: int) -> int
    decreases world.len() - y, (if 0 <= y < world.len() {
        world[y].len() + 1 - x
    } else {
        0
    }),
{
    if y < 0 || y >= world.len() {
        0
    } else if x < 0 || x >= world[y].len() {
        gear_sum_from(world, y + 1, 0)
    } else {
        let here = if world[y][x] == '*' {
            match gear_ratio_spec(world, x, y) {
                Some(v) => v as int,
                None => 0,
            }
        } else {
            0
        };
        here + gear_sum_from(world, y, x + 1)
    }
}

/// Every `*` cell's gear computation fits, and every partial gear-ratio
/// sum fits in `u32`.
pub open spec fn part2_ok(world: Seq<Seq<char>>) -> bool {
    &&& world.len() > 0
    &&& forall|y: int, x: int|
        0 <= y < world.len() && 0 <= x < world[y].len() && world[y][x] == '*' ==> gear_fits(
            world,
            x,
            y,
        )
    &&& forall|y: int, x: int| #[trigger] gear_sum_from(world, y, x) <= u32::MAX
}

/// Sums the gear ratios of all `*` cells that touch exactly two numbers.
#[verifier::loop_isolation(false)]
pub fn part2(contents: &str) -> (r: u32)
    requires
        part2_ok(text::split_lines(contents@)),
    ensures
        r as int == gear_sum_from(text::split_lines(contents@), 0, 0),
{
    let chars = text::str_chars(contents);
    let world = text::split_lines_exec(&chars);
    let ghost wv = text::split_lines(contents@);
    let h = world.len();
    let mut sum: u32 = 0;
    let mut y: usize = 0;
    while y < h
        invariant
            y <= h,
            h == wv.len(),
            world.deep_view() == wv,
            part2_ok(wv),
            sum as int + gear_sum_from(wv, y as int, 0) == gear_sum_from(wv, 0, 0),
            sum as int >= 0,
        decreases h - y,
    {
        let rowlen = world[y].len();
        proof {
            assert(world@[y as int]@ == wv[y as int]);
        }
        let mut x: usize = 0;
        while x < rowlen
            invariant
                x <= rowlen,
                y < h,
                h == wv.len(),
                world.deep_view() == wv,
                part2_ok(wv),
                rowlen == wv[y as int].len(),
                sum as int + gear_sum_from(wv, y as int, x as int) == gear_sum_from(wv, 0, 0),
                sum as int >= 0,
            decreases rowlen - x,
        {
            proof {
                assert(world@[y as int]@ == wv[y as int]);
                lemma_gear_sum_nonneg(wv, y as int, x + 1);
            }
            let c = world[y][x];
            if c == '*' {
                match gear_ratio(&world, x, y) {
                    Some(v) => {
                        sum = sum + v;
                    },
                    None => (),
                }
            }
            x += 1;
        }
        y += 1;
    }
    sum
}

pub proof fn lemma_gear_sum_nonneg(world: Seq<Seq<char>>, y: int, x: int)
    ensures
        gear_sum_from(world, y, x) >= 0,
    decreases world.len() - y, (if 0 <= y < world.len() {
        world[y].len() + 1 - x
    } else {
        0
    }),
{
    if y < 0 || y >= world.len() {
    } else if x < 0 || x >= world[y].len() {
        lemma_gear_sum_nonneg(world, y + 1, 0);
    } else {
        lemma_gear_sum_nonneg(world, y, x + 1);
    }
}

} // verus!
