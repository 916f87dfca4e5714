//! The cube game: each line names a game and the cube counts shown per
//! color; queries ask for per-color maxima, their product, and whether a
//! game is possible under given cube limits.

use vstd::prelude::*;

use crate::nums;
use crate::text;

verus! {

/// One game: its id and the counts shown for each color, in input order.
pub struct Game {
    pub id: u64,
    pub red: Vec<u64>,
    pub blue: Vec<u64>,
    pub green: Vec<u64>,
}

/// The mathematical content of a `Game`.
pub ghost struct GameView {
    pub id: u64,
    pub red: Seq<u64>,
    pub blue: Seq<u64>,
    pub green: Seq<u64>,
}

impl View for Game {
    type V = GameView;

    open spec fn view(&self) -> GameView {
        GameView { id: self.id, red: self.red@, blue: self.blue@, green: self.green@ }
    }
}

impl DeepView for Game {
    type V = GameView;

    open spec fn deep_view(&self) -> GameView {
        self@
    }
}

/// The product of the per-color maxima: the power of a game.
pub open spec fn power(g: GameView) -> int {
    nums::seq_max(g.red) * nums::seq_max(g.green) * nums::seq_max(g.blue)
}

/// Whether the game fits under the given per-color cube limits.
pub open spec fn possible(g: GameView, red: u64, green: u64, blue: u64) -> bool {
    red >= nums::seq_max(g.red) && green >= nums::seq_max(g.green) && blue >= nums::seq_max(
        g.blue,
    )
}

// ---------------------------------------------------------------------------
// Parsing
// ---------------------------------------------------------------------------

/// The space-separated parts of one `<count> <color>` entry, trimmed.
pub open spec fn cc_parts(cc: Seq<char>) -> Seq<Seq<char>> {
    text::split_str(text::trim_spec(cc), seq![' '])
}

/// Adds the remaining `<count> <color>` entries of one roll to the color
/// lists; a count that does not parse fails the whole game.
pub open spec fn fold_ccs(ccs: Seq<Seq<char>>, i: int, st: (Seq<u64>, Seq<u64>, Seq<u64>)) -> Option<
    (Seq<u64>, Seq<u64>, Seq<u64>),
>
    decreases ccs.len() - i,
{
    if i < 0 || i >= ccs.len() {
        Some(st)
    } else {
        let ps = cc_parts(ccs[i]);
        match text::u64_token_value(text::trim_spec(ps[0])) {
            None => None,
            Some(count) => {
                let st2 = if ps[1] == seq!['r', 'e', 'd'] {
                    (st.0.push(count), st.1, st.2)
                } else if ps[1] == seq!['b', 'l', 'u', 'e'] {
                    (st.0, st.1.push(count), st.2)
                } else if ps[1] == seq!['g', 'r', 'e', 'e', 'n'] {
                    (st.0, st.1, st.2.push(count))
                } else {
                    st
                };
                fold_ccs(ccs, i + 1, st2)
            },
        }
    }
}

/// Adds the remaining rolls of a game to the color lists.
pub open spec fn fold_rolls(
    rolls: Seq<Seq<char>>,
    j: int,
    st: (Seq<u64>, Seq<u64>, Seq<u64>),
) -> Option<(Seq<u64>, Seq<u64>, Seq<u64>)>
    decreases rolls.len() - j,
{
    if j < 0 || j >= rolls.len() {
        Some(st)
    } else {
        match fold_ccs(text::split_str(rolls[j], seq![',', ' ']), 0, st) {
            None => None,
            Some(st2) => fold_rolls(rolls, j + 1, st2),
        }
    }
}

/// The game a line such as
/// `Game 1: 1 blue, 1 red; 10 red; 8 red, 1 green` describes, if its
/// numbers parse.
pub open spec fn game_of_string(s: Seq<char>) -> Option<GameView> {
    let parts = text::split_str(s, seq![':', ' ']);
    let id_tok = text::strip_prefix_all(
        text::trim_spec(parts[0]),
        seq!['G', 'a', 'm', 'e', ' '],
    );
    match text::u64_token_value(id_tok) {
        None => None,
        Some(id) => match fold_rolls(
            text::split_str(parts[1], seq![';']),
            0,
            (seq![], seq![], seq![]),
        ) {
            None => None,
            Some(st) => Some(GameView { id, red: st.0, blue: st.1, green: st.2 }),
        },
    }
}

/// The `<count> <color>` entry at roll `j`, position `i` splits into at
/// least two parts (bounds included so the whole claim can be quantified).
pub open spec fn cc_ok_at(s: Seq<char>, j: int, i: int) -> bool {
    let parts = text::split_str(s, seq![':', ' ']);
    let rolls = text::split_str(parts[1], seq![';']);
    (0 <= j < rolls.len() && 0 <= i < text::split_str(rolls[j], seq![',', ' ']).len())
        ==> cc_parts(text::split_str(rolls[j], seq![',', ' '])[i]).len() >= 2
}

/// The line has a `: ` separator and every entry has a count and a color.
pub open spec fn game_parse_ok(s: Seq<char>) -> bool {
    &&& text::split_str(s, seq![':', ' ']).len() >= 2
    &&& forall|j: int, i: int| #[trigger] cc_ok_at(s, j, i)
}

impl Game {
    pub fn new(id: u64, red: Vec<u64>, blue: Vec<u64>, green: Vec<u64>) -> (r: Self)
        ensures
            r@ == (GameView { id, red: red@, blue: blue@, green: green@ }),
    {
        Self { id, red, blue, green }
    }

    /// Parses one game line.
    #[verifier::loop_isolation(false)]
    pub fn from_string(input: String) -> (r: Option<Self>)
        requires
            game_parse_ok(input@),
        ensures
            r matches Some(g) ==> game_of_string(input@) == Some(g@),
            r is None ==> game_of_string(input@) is None,
    {
        let chars = text::str_chars(input.as_str());
        let mut colon_sep: Vec<char> = Vec::new();
        colon_sep.push(':');
        colon_sep.push(' ');
        proof {
            assert(colon_sep@ =~= seq![':', ' ']);
        }
        let parts = text::split_str_exec(&chars, &colon_sep);
        let ghost partsv = text::split_str(input@, seq![':', ' ']);
        proof {
            assert(parts@[0]@ == partsv[0]);
            assert(parts@[1]@ == partsv[1]);
        }
        let id_part = text::trim_exec(&parts[0]);
        let mut game_prefix: Vec<char> = Vec::new();
        game_prefix.push('G');
        game_prefix.push('a');
        game_prefix.push('m');
        game_prefix.push('e');
        game_prefix.push(' ');
        proof {
            assert(game_prefix@ =~= seq!['G', 'a', 'm', 'e', ' ']);
        }
        let id_tok = text::strip_prefix_all_exec(&id_part, &game_prefix);
        let id = match text::parse_u64_token(&id_tok) {
            Some(x) => x,
            None => {
                return None;
            },
        };
        let mut semi: Vec<char> = Vec::new();
        semi.push(';');
        proof {
            assert(semi@ =~= seq![';']);
        }
        let rolls = text::split_str_exec(&parts[1], &semi);
        let ghost rollsv = text::split_str(partsv[1], seq![';']);
        let mut comma_sep: Vec<char> = Vec::new();
        comma_sep.push(',');
        comma_sep.push(' ');
        proof {
            assert(comma_sep@ =~= seq![',', ' ']);
        }
        let mut space_sep: Vec<char> = Vec::new();
        space_sep.push(' ');
        proof {
            assert(space_sep@ =~= seq![' ']);
        }
        let mut reds: Vec<u64> = Vec::new();
        let mut blues: Vec<u64> = Vec::new();
        let mut greens: Vec<u64> = Vec::new();
        let ghost init = (Seq::<u64>::empty(), Seq::<u64>::empty(), Seq::<u64>::empty());
        let nrolls = rolls.len();
        let mut j: usize = 0;
        proof {
            assert(reds@ =~= init.0);
            assert(blues@ =~= init.1);
            assert(greens@ =~= init.2);
        }
        while j < nrolls
            invariant
                j <= nrolls,
                nrolls == rollsv.len(),
                fold_rolls(rollsv, 0, init) == fold_rolls(
                    rollsv,
                    j as int,
                    (reds@, blues@, greens@),
                ),
            decreases nrolls - j,
        {
            let ghost st_entry = (reds@, blues@, greens@);
            proof {
                assert(rolls@[j as int]@ == rollsv[j as int]);
            }
            let ccs = text::split_str_exec(&rolls[j], &comma_sep);
            let ghost ccsv = text::split_str(rollsv[j as int], seq![',', ' ']);
            let nccs = ccs.len();
            let mut i: usize = 0;
            while i < nccs
                invariant
                    i <= nccs,
                    nccs == ccsv.len(),
                    fold_rolls(rollsv, 0, init) == match fold_ccs(
                        ccsv,
                        i as int,
                        (reds@, blues@, greens@),
                    ) {
                        None => None,
                        Some(st2) => fold_rolls(rollsv, j + 1, st2),
                    },
                decreases nccs - i,
            {
                proof {
                    assert(ccs@[i as int]@ == ccsv[i as int]);
                    assert(cc_ok_at(input@, j as int, i as int));
                }
                let t = text::trim_exec(&ccs[i]);
                let ps = text::split_str_exec(&t, &space_sep);
                let ghost psv = cc_parts(ccsv[i as int]);
                proof {
                    assert(ps@[0]@ == psv[0]);
                    assert(ps@[1]@ == psv[1]);
                }
                let count_tok = text::trim_exec(&ps[0]);
                let count = match text::parse_u64_token(&count_tok) {
                    Some(c) => c,
                    None => {
                        return None;
                    },
                };
                proof {
                    reveal_strlit("red");
                    reveal_strlit("blue");
                    reveal_strlit("green");
                    assert("red"@ =~= seq!['r', 'e', 'd']);
                    assert("blue"@ =~= seq!['b', 'l', 'u', 'e']);
                    assert("green"@ =~= seq!['g', 'r', 'e', 'e', 'n']);
                }
                if text::vec_eq_str(&ps[1], "red") {
                    reds.push(count);
                } else if text::vec_eq_str(&ps[1], "blue") {
                    blues.push(count);
                } else if text::vec_eq_str(&ps[1], "green") {
                    greens.push(count);
                }
                i += 1;
            }
            j += 1;
        }
        Some(Game::new(id, reds, blues, greens))
    }

    /// The largest red count shown, or 0.
    #[verifier::loop_isolation(false)]
    pub fn max_red(&self) -> (r: u64)
        ensures
            r == nums::seq_max(self@.red),
    {
        Self::vec_max(&self.red)
    }

    /// The largest blue count shown, or 0.
    pub fn max_blue(&self) -> (r: u64)
        ensures
            r == nums::seq_max(self@.blue),
    {
        Self::vec_max(&self.blue)
    }

    /// The largest green count shown, or 0.
    pub fn max_green(&self) -> (r: u64)
        ensures
            r == nums::seq_max(self@.green),
    {
        Self::vec_max(&self.green)
    }

    #[verifier::loop_isolation(false)]
    fn vec_max(v: &Vec<u64>) -> (r: u64)
        ensures
            r == nums::seq_max(v@),
    {
        let n = v.len();
        let mut m: u64 = 0;
        let mut i: usize = 0;
        proof {
            assert(v@.take(0) =~= Seq::<u64>::empty());
        }
        while i < n
            invariant
                i <= n,
                m == nums::seq_max(v@.take(i as int)),
            decreases n - i,
        {
            proof {
                assert(v@.take(i + 1).drop_last() =~= v@.take(i as int));
                assert(v@.take(i + 1).last() == v@[i as int]);
            }
            if v[i] > m {
                m = v[i];
            }
            i += 1;
        }
        proof {
            assert(v@.take(n as int) =~= v@);
        }
        m
    }

    /// The power of the game: the per-color maxima multiplied together.
    pub fn multiply_colors(&self) -> (r: u64)
        requires
            nums::seq_max(self@.red) * nums::seq_max(self@.green) <= u64::MAX,
            power(self@) <= u64::MAX,
        ensures
            r as int == power(self@),
    {
        proof {
            vstd::arithmetic::mul::lemma_mul_nonnegative(
                nums::seq_max(self@.red) as int,
                nums::seq_max(self@.green) as int,
            );
        }
        self.max_red() * self.max_green() * self.max_blue()
    }

    /// Whether the game fits under the given per-color cube limits.
    pub fn is_possible(&self, red: u64, green: u64, blue: u64) -> (r: bool)
        ensures
            r == possible(self@, red, green, blue),
    {
        red >= self.max_red() && green >= self.max_green() && blue >= self.max_blue()
    }
}

// ---------------------------------------------------------------------------
// Whole-input queries
// ---------------------------------------------------------------------------

/// The sum of the powers of all games.
#[verifier::loop_isolation(false)]
pub fn total_power(games: &Vec<Game>) -> (r: u64)
    requires
        forall|k: int|
            0 <= k < games@.len() ==> nums::seq_max((#[trigger] games@[k])@.red) * nums::seq_max(
                games@[k]@.green,
            ) <= u64::MAX,
        forall|k: int| 0 <= k < games@.len() ==> power((#[trigger] games@[k])@) <= u64::MAX,
        nums::sum(games.deep_view().map_values(|g: GameView| power(g))) <= u64::MAX,
    ensures
        r as int == nums::sum(games.deep_view().map_values(|g: GameView| power(g))),
{
    let ghost powers = games.deep_view().map_values(|g: GameView| power(g));
    let n = games.len();
    let mut total: u64 = 0;
    let mut i: usize = 0;
    proof {
        assert(powers.take(0) =~= Seq::<int>::empty());
        assert forall|k: int| 0 <= k < powers.len() implies #[trigger] powers[k] >= 0 by {
            vstd::arithmetic::mul::lemma_mul_nonnegative(
                nums::seq_max(games@[k]@.red) as int,
                nums::seq_max(games@[k]@.green) as int,
            );
            vstd::arithmetic::mul::lemma_mul_nonnegative(
                nums::seq_max(games@[k]@.red) * nums::seq_max(games@[k]@.green),
                nums::seq_max(games@[k]@.blue) as int,
            );
        }
    }
    while i < n
        invariant
            i <= n,
            total as int == nums::sum(powers.take(i as int)),
        decreases n - i,
    {
        let p = games[i].multiply_colors();
        proof {
            assert(powers.take(i + 1).drop_last() =~= powers.take(i as int));
            assert(powers.take(i + 1).last() == powers[i as int]);
            nums::lemma_sum_prefix_le(powers, i + 1);
        }
        total = total + p;
        i += 1;
    }
    proof {
        assert(powers.take(n as int) =~= powers);
    }
    total
}

/// The sum of the ids of the games possible under the given limits.
#[verifier::loop_isolation(false)]
pub fn sum_possible_ids(games: &Vec<Game>, red: u64, green: u64, blue: u64) -> (r: u64)
    requires
        nums::sum(
            games.deep_view().map_values(
                |g: GameView|
                    if possible(g, red, green, blue) {
                        g.id as int
                    } else {
                        0
                    },
            ),
        ) <= u64::MAX,
    ensures
        r as int == nums::sum(
            games.deep_view().map_values(
                |g: GameView|
                    if possible(g, red, green, blue) {
                        g.id as int
                    } else {
                        0
                    },
            ),
        ),
{
    let ghost ids = games.deep_view().map_values(
        |g: GameView|
            if possible(g, red, green, blue) {
                g.id as int
            } else {
                0
            },
    );
    let n = games.len();
    let mut total: u64 = 0;
    let mut i: usize = 0;
    proof {
        assert(ids.take(0) =~= Seq::<int>::empty());
        assert(forall|k: int| 0 <= k < ids.len() ==> #[trigger] ids[k] >= 0);
    }
    while i < n
        invariant
            i <= n,
            total as int == nums::sum(ids.take(i as int)),
        decreases n - i,
    {
        proof {
            assert(ids.take(i + 1).drop_last() =~= ids.take(i as int));
            assert(ids.take(i + 1).last() == ids[i as int]);
            nums::lemma_sum_prefix_le(ids, i + 1);
        }
        if games[i].is_possible(red, green, blue) {
            total = total + games[i].id;
        }
        i += 1;
    }
    proof {
        assert(ids.take(n as int) =~= ids);
    }
    total
}

} // verus!
