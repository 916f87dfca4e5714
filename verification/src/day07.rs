//! Camel cards: a hand of cards scores a base value that orders hands by
//! their card faces, plus large bonuses for pairs, triples, fours and
//! fives; a joker variant lets jacks count as copies of the strongest
//! other card. Total winnings weight each bet by the hand's rank.

use vstd::multiset::Multiset;
use vstd::prelude::*;

use crate::text;

verus! {

/// One playing card face.
#[derive(Debug, PartialEq, Eq, Structural, Hash, Clone, Copy)]
pub enum Card {
    Ace,
    King,
    Queen,
    Jack,
    Ten,
    Nine,
    Eight,
    Seven,
    Six,
    Five,
    Four,
    Three,
    Two,
}

impl Card {
    /// The face value: 2 through 10 for number cards, 11 through 14 for
    /// jack, queen, king, ace.
    pub open spec fn value_spec(self) -> u64 {
        match self {
            Card::Ace => 14,
            Card::King => 13,
            Card::Queen => 12,
            Card::Jack => 11,
            Card::Ten => 10,
            Card::Nine => 9,
            Card::Eight => 8,
            Card::Seven => 7,
            Card::Six => 6,
            Card::Five => 5,
            Card::Four => 4,
            Card::Three => 3,
            Card::Two => 2,
        }
    }

    pub fn value(&self) -> (r: u64)
        ensures
            r == self.value_spec(),
    {
        match self {
            Card::Ace => 14,
            Card::King => 13,
            Card::Queen => 12,
            Card::Jack => 11,
            Card::Ten => 10,
            Card::Nine => 9,
            Card::Eight => 8,
            Card::Seven => 7,
            Card::Six => 6,
            Card::Five => 5,
            Card::Four => 4,
            Card::Three => 3,
            Card::Two => 2,
        }
    }

    /// The card a face character names.
    pub open spec fn from_char_spec(c: char) -> Option<Card> {
        if c == 'A' {
            Some(Card::Ace)
        } else if c == 'K' {
            Some(Card::King)
        } else if c == 'Q' {
            Some(Card::Queen)
        } else if c == 'J' {
            Some(Card::Jack)
        } else if c == 'T' {
            Some(Card::Ten)
        } else if c == '9' {
            Some(Card::Nine)
        } else if c == '8' {
            Some(Card::Eight)
        } else if c == '7' {
            Some(Card::Seven)
        } else if c == '6' {
            Some(Card::Six)
        } else if c == '5' {
            Some(Card::Five)
        } else if c == '4' {
            Some(Card::Four)
        } else if c == '3' {
            Some(Card::Three)
        } else if c == '2' {
            Some(Card::Two)
        } else {
            None
        }
    }

    pub fn from_char(c: char) -> (r: Option<Self>)
        ensures
            r == Self::from_char_spec(c),
    {
        match c {
            'A' => Some(Card::Ace),
            'K' => Some(Card::King),
            'Q' => Some(Card::Queen),
            'J' => Some(Card::Jack),
            'T' => Some(Card::Ten),
            '9' => Some(Card::Nine),
            '8' => Some(Card::Eight),
            '7' => Some(Card::Seven),
            '6' => Some(Card::Six),
            '5' => Some(Card::Five),
            '4' => Some(Card::Four),
            '3' => Some(Card::Three),
            '2' => Some(Card::Two),
            _ => None,
        }
    }
}

/// The card with the given face value.
pub open spec fn card_of_value(v: int) -> Card {
    if v == 14 {
        Card::Ace
    } else if v == 13 {
        Card::King
    } else if v == 12 {
        Card::Queen
    } else if v == 11 {
        Card::Jack
    } else if v == 10 {
        Card::Ten
    } else if v == 9 {
        Card::Nine
    } else if v == 8 {
        Card::Eight
    } else if v == 7 {
        Card::Seven
    } else if v == 6 {
        Card::Six
    } else if v == 5 {
        Card::Five
    } else if v == 4 {
        Card::Four
    } else if v == 3 {
        Card::Three
    } else {
        Card::Two
    }
}

pub open spec fn pow15(k: nat) -> int
    decreases k,
{
    if k == 0 {
        1
    } else {
        15 * pow15((k - 1) as nat)
    }
}

pub proof fn lemma_pow15_16()
    ensures
        pow15(6) == 11390625,
        pow15(16) == 6568408355712890625,
{
    reveal_with_fuel(pow15, 17);
}

pub proof fn lemma_pow15_mono(i: nat, j: nat)
    requires
        i <= j,
    ensures
        1 <= pow15(i) <= pow15(j),
    decreases j,
{
    if i < j {
        lemma_pow15_mono(i, (j - 1) as nat);
    } else if i > 0 {
        lemma_pow15_mono((i - 1) as nat, (j - 1) as nat);
    }
}

/// The base score of a hand: its face values read as digits of a base-15
/// number, most significant first.
pub open spec fn base_score(s: Seq<Card>) -> int
    decreases s.len(),
{
    if s.len() == 0 {
        0
    } else {
        base_score(s.drop_last()) * 15 + s.last().value_spec()
    }
}

pub proof fn lemma_base_score_bound(s: Seq<Card>)
    ensures
        0 <= base_score(s) < pow15(s.len()),
    decreases s.len(),
{
    if s.len() > 0 {
        lemma_base_score_bound(s.drop_last());
    }
}

/// How often card `c` occurs in `s`.
pub open spec fn count_of(s: Seq<Card>, c: Card) -> int
    decreases s.len(),
{
    if s.len() == 0 {
        0
    } else {
        count_of(s.drop_last(), c) + if s.last() == c {
            1int
        } else {
            0int
        }
    }
}

pub proof fn lemma_count_of_bound(s: Seq<Card>, c: Card)
    ensures
        0 <= count_of(s, c) <= s.len(),
    decreases s.len(),
{
    if s.len() > 0 {
        lemma_count_of_bound(s.drop_last(), c);
    }
}

/// The bonus a card with the given count and face value earns.
pub open spec fn bonus_of(count: int, value: int) -> int {
    if count == 0 {
        0
    } else if count == 2 {
        11390625
    } else if count == 3 {
        3int * 11390625
    } else if count == 4 {
        5int * 11390625
    } else if count == 5 {
        6int * 11390625
    } else {
        value
    }
}

/// The bonuses of all face values below `k`, with the plain per-card
/// counts of `s`.
pub open spec fn bonus_below(s: Seq<Card>, k: int) -> int
    decreases k,
{
    if k <= 2 {
        0
    } else {
        bonus_below(s, k - 1) + bonus_of(count_of(s, card_of_value(k - 1)), k - 1)
    }
}

pub proof fn lemma_bonus_below_bound(s: Seq<Card>, k: int)
    requires
        2 <= k <= 15,
        s.len() <= 16,
    ensures
        0 <= bonus_below(s, k) <= (k - 2) * 68343750,
    decreases k,
{
    if k > 2 {
        lemma_bonus_below_bound(s, k - 1);
        lemma_count_of_bound(s, card_of_value(k - 1));
        assert(2 <= k - 1 <= 14);
        assert(0 <= bonus_of(count_of(s, card_of_value(k - 1)), k - 1) <= 6 * 11390625int);
        assert((k - 2) * 68343750 == (k - 3) * 68343750 + 68343750);
    }
}

/// The full score of a hand in the plain variant.
pub open spec fn hand_score(s: Seq<Card>) -> int {
    base_score(s) + bonus_below(s, 15)
}

/// Scores a hand in the plain variant: base value plus multiples bonus.
#[verifier::loop_isolation(false)]
pub fn score_hand(hand: &Vec<Card>) -> (r: u64)
    requires
        hand@.len() <= 16,
    ensures
        r as int == hand_score(hand@),
{
    let s = hand;
    let n = s.len();
    let mut counts: Vec<u64> = Vec::new();
    let mut z: usize = 0;
    while z < 15
        invariant
            z <= 15,
            counts@.len() == z,
            forall|t: int| 0 <= t < z ==> counts@[t] == 0u64,
        decreases 15 - z,
    {
        counts.push(0);
        z += 1;
    }
    let mut score: u64 = 0;
    let mut i: usize = 0;
    proof {
        assert(s@.take(0) =~= Seq::<Card>::empty());
    }
    while i < n
        invariant
            i <= n,
            counts@.len() == 15,
            score as int == base_score(s@.take(i as int)),
            forall|v: int|
                2 <= v < 15 ==> #[trigger] counts@[v] as int == count_of(
                    s@.take(i as int),
                    card_of_value(v),
                ),
        decreases n - i,
    {
        proof {
            assert(s@.take(i + 1).drop_last() =~= s@.take(i as int));
            assert(s@.take(i + 1).last() == s@[i as int]);
            lemma_base_score_bound(s@.take(i + 1));
            lemma_pow15_mono((i + 1) as nat, 16);
            lemma_pow15_16();
            lemma_count_of_bound(s@.take(i as int), s@[i as int]);
            assert(card_of_value(s@[i as int].value_spec() as int) == s@[i as int]);
            assert forall|v: int| 2 <= v < 15 && v != s@[i as int].value_spec() implies count_of(
                s@.take(i + 1),
                card_of_value(v),
            ) == count_of(s@.take(i as int), card_of_value(v)) by {
                assert(card_of_value(v).value_spec() == v);
            }
        }
        let v = s[i].value();
        score = score * 15 + v;
        let vi = v as usize;
        let c = counts[vi];
        counts.set(vi, c + 1);
        i += 1;
    }
    proof {
        assert(s@.take(n as int) =~= s@);
        lemma_base_score_bound(s@);
        lemma_pow15_mono(s@.len(), 16);
        lemma_pow15_16();
    }
    let mut k: usize = 2;
    while k < 15
        invariant
            2 <= k <= 15,
            counts@.len() == 15,
            forall|v: int|
                2 <= v < 15 ==> #[trigger] counts@[v] as int == count_of(s@, card_of_value(v)),
            score as int == base_score(s@) + bonus_below(s@, k as int),
        decreases 15 - k,
    {
        proof {
            lemma_base_score_bound(s@);
            lemma_pow15_mono(s@.len(), 16);
            lemma_pow15_16();
            lemma_bonus_below_bound(s@, k + 1);
            lemma_bonus_below_bound(s@, k as int);
            lemma_count_of_bound(s@, card_of_value(k as int));
        }
        let c = counts[k];
        let add: u64 = if c == 0 {
            0
        } else if c == 2 {
            11390625
        } else if c == 3 {
            3 * 11390625
        } else if c == 4 {
            5 * 11390625
        } else if c == 5 {
            6 * 11390625
        } else {
            k as u64
        };
        proof {
            assert(add as int == bonus_of(count_of(s@, card_of_value(k as int)), k as int));
            assert(bonus_below(s@, k + 1) == bonus_below(s@, k as int) + bonus_of(
                count_of(s@, card_of_value(k as int)),
                k as int,
            ));
            assert(score as int + add as int == base_score(s@) + bonus_below(s@, k + 1));
            assert(bonus_below(s@, k + 1) <= 13int * 68343750);
            assert(base_score(s@) < 6568408355712890625int);
            assert(score as int + add as int <= u64::MAX as int);
        }
        score = score + add;
        k += 1;
    }
    score
}

// ---------------------------------------------------------------------------
// The joker variant
// ---------------------------------------------------------------------------

/// The face value used in the joker base score: jacks count 1.
pub open spec fn joker_value(c: Card) -> u64 {
    if c == Card::Jack {
        1
    } else {
        c.value_spec()
    }
}

/// The base score of a hand with jacks counting 1.
pub open spec fn joker_base(s: Seq<Card>) -> int
    decreases s.len(),
{
    if s.len() == 0 {
        0
    } else {
        joker_base(s.drop_last()) * 15 + joker_value(s.last())
    }
}

pub proof fn lemma_joker_base_bound(s: Seq<Card>)
    ensures
        0 <= joker_base(s) < pow15(s.len()),
    decreases s.len(),
{
    if s.len() > 0 {
        lemma_joker_base_bound(s.drop_last());
    }
}

/// The per-value counts with jacks left out.
pub open spec fn joker_count_of(s: Seq<Card>, v: int) -> int {
    if v == 11 {
        0
    } else {
        count_of(s, card_of_value(v))
    }
}

/// The best (count, value) pair among face values below `k`, encoded as
/// `count * 100 + value`; `(0, Jack)` when no such card is present.
pub open spec fn best_upto(s: Seq<Card>, k: int) -> (int, Card)
    decreases k,
{
    if k <= 2 {
        (0, Card::Jack)
    } else {
        let rest = best_upto(s, k - 1);
        let c = joker_count_of(s, k - 1);
        if c > 0 && c * 100 + (k - 1) > rest.0 {
            (c * 100 + (k - 1), card_of_value(k - 1))
        } else {
            rest
        }
    }
}

/// The counts after the jacks have joined the strongest other card.
pub open spec fn adjusted_count(s: Seq<Card>, v: int) -> int {
    joker_count_of(s, v) + if v == best_upto(s, 15).1.value_spec() {
        count_of(s, Card::Jack)
    } else {
        0int
    }
}

/// The bonuses of all face values below `k`, with the adjusted counts.
pub open spec fn joker_bonus_below(s: Seq<Card>, k: int) -> int
    decreases k,
{
    if k <= 2 {
        0
    } else {
        joker_bonus_below(s, k - 1) + bonus_of(adjusted_count(s, k - 1), k - 1)
    }
}

pub proof fn lemma_joker_bonus_below_bound(s: Seq<Card>, k: int)
    requires
        2 <= k <= 15,
        s.len() <= 16,
    ensures
        0 <= joker_bonus_below(s, k) <= (k - 2) * 68343750,
    decreases k,
{
    if k > 2 {
        lemma_joker_bonus_below_bound(s, k - 1);
        lemma_count_of_bound(s, card_of_value(k - 1));
        lemma_count_of_bound(s, Card::Jack);
        assert(2 <= k - 1 <= 14);
        assert(0 <= bonus_of(adjusted_count(s, k - 1), k - 1) <= 6 * 11390625int);
        assert((k - 2) * 68343750 == (k - 3) * 68343750 + 68343750);
    }
}

/// The full score of a hand in the joker variant.
pub open spec fn joker_score(s: Seq<Card>) -> int {
    joker_base(s) + joker_bonus_below(s, 15)
}

/// Scores a hand in the joker variant: jacks count 1 in the base value
/// and join the strongest other card for the multiples bonus.
#[verifier::loop_isolation(false)]
pub fn score_jokers(hand: &Vec<Card>) -> (r: u64)
    requires
        hand@.len() <= 16,
    ensures
        r as int == joker_score(hand@),
{
    let s = hand;
    let n = s.len();
    let mut counts: Vec<u64> = Vec::new();
    let mut z: usize = 0;
    while z < 15
        invariant
            z <= 15,
            counts@.len() == z,
            forall|t: int| 0 <= t < z ==> counts@[t] == 0u64,
        decreases 15 - z,
    {
        counts.push(0);
        z += 1;
    }
    let mut score: u64 = 0;
    let mut joker_count: u64 = 0;
    let mut i: usize = 0;
    proof {
        assert(s@.take(0) =~= Seq::<Card>::empty());
    }
    while i < n
        invariant
            i <= n,
            counts@.len() == 15,
            score as int == joker_base(s@.take(i as int)),
            joker_count as int == count_of(s@.take(i as int), Card::Jack),
            forall|v: int|
                2 <= v < 15 ==> #[trigger] counts@[v] as int == joker_count_of(
                    s@.take(i as int),
                    v,
                ),
        decreases n - i,
    {
        proof {
            assert(s@.take(i + 1).drop_last() =~= s@.take(i as int));
            assert(s@.take(i + 1).last() == s@[i as int]);
            lemma_joker_base_bound(s@.take(i + 1));
            lemma_pow15_mono((i + 1) as nat, 16);
            lemma_pow15_16();
            lemma_count_of_bound(s@.take(i as int), s@[i as int]);
            lemma_count_of_bound(s@.take(i as int), Card::Jack);
            assert(card_of_value(s@[i as int].value_spec() as int) == s@[i as int]);
            assert forall|v: int| 2 <= v < 15 && v != s@[i as int].value_spec() implies count_of(
                s@.take(i + 1),
                card_of_value(v),
            ) == count_of(s@.take(i as int), card_of_value(v)) by {
                assert(card_of_value(v).value_spec() == v);
            }
        }
        let card = s[i];
        if matches!(card, Card::Jack) {
            joker_count += 1;
            score = score * 15 + 1;
        } else {
            let v = card.value();
            score = score * 15 + v;
            let vi = v as usize;
            let c = counts[vi];
            counts.set(vi, c + 1);
        }
        i += 1;
    }
    proof {
        assert(s@.take(n as int) =~= s@);
    }
    let mut best_key: u64 = 0;
    let mut best_card = Card::Jack;
    let mut k: usize = 2;
    while k < 15
        invariant
            2 <= k <= 15,
            counts@.len() == 15,
            forall|v: int| 2 <= v < 15 ==> #[trigger] counts@[v] as int == joker_count_of(s@, v),
            best_key as int == best_upto(s@, k as int).0,
            best_card == best_upto(s@, k as int).1,
            best_key <= 1614,
        decreases 15 - k,
    {
        proof {
            lemma_count_of_bound(s@, card_of_value(k as int));
        }
        let c = counts[k];
        if c > 0 {
            let key = c * 100 + k as u64;
            if key > best_key {
                best_key = key;
                best_card = match k {
                    14usize => Card::Ace,
                    13usize => Card::King,
                    12usize => Card::Queen,
                    11usize => Card::Jack,
                    10usize => Card::Ten,
                    9usize => Card::Nine,
                    8usize => Card::Eight,
                    7usize => Card::Seven,
                    6usize => Card::Six,
                    5usize => Card::Five,
                    4usize => Card::Four,
                    3usize => Card::Three,
                    _ => Card::Two,
                };
                proof {
                    assert(best_card == card_of_value(k as int));
                }
            }
        }
        k += 1;
    }
    let bv = best_card.value();
    let bvi = bv as usize;
    proof {
        lemma_best_value_range(s@, 15);
        lemma_count_of_bound(s@, Card::Jack);
        lemma_count_of_bound(s@, card_of_value(bv as int));
    }
    let cb = counts[bvi];
    counts.set(bvi, cb + joker_count);
    proof {
        assert(card_of_value(best_upto(s@, 15).1.value_spec() as int) == best_upto(s@, 15).1)
            by {
            lemma_best_value_range(s@, 15);
        }
        assert forall|v: int| 2 <= v < 15 implies #[trigger] counts@[v] as int == adjusted_count(
            s@,
            v,
        ) by {
        }
    }
    let mut k2: usize = 2;
    proof {
        lemma_joker_base_bound(s@);
        lemma_pow15_mono(s@.len(), 16);
        lemma_pow15_16();
    }
    while k2 < 15
        invariant
            2 <= k2 <= 15,
            counts@.len() == 15,
            forall|v: int| 2 <= v < 15 ==> #[trigger] counts@[v] as int == adjusted_count(s@, v),
            score as int == joker_base(s@) + joker_bonus_below(s@, k2 as int),
        decreases 15 - k2,
    {
        proof {
            lemma_joker_base_bound(s@);
            lemma_pow15_mono(s@.len(), 16);
            lemma_pow15_16();
            lemma_joker_bonus_below_bound(s@, k2 + 1);
            lemma_joker_bonus_below_bound(s@, k2 as int);
            lemma_count_of_bound(s@, card_of_value(k2 as int));
            lemma_count_of_bound(s@, Card::Jack);
        }
        let c = counts[k2];
        let add: u64 = if c == 0 {
            0
        } else if c == 2 {
            11390625
        } else if c == 3 {
            3 * 11390625
        } else if c == 4 {
            5 * 11390625
        } else if c == 5 {
            6 * 11390625
        } else {
            k2 as u64
        };
        score = score + add;
        k2 += 1;
    }
    score
}

/// The best card's face value stays within the count array.
pub proof fn lemma_best_value_range(s: Seq<Card>, k: int)
    requires
        2 <= k <= 15,
    ensures
        2 <= best_upto(s, k).1.value_spec() <= 14,
        card_of_value(best_upto(s, k).1.value_spec() as int) == best_upto(s, k).1,
    decreases k,
{
    if k > 2 {
        lemma_best_value_range(s, k - 1);
        assert(card_of_value(k - 1).value_spec() == k - 1);
    }
}

// ---------------------------------------------------------------------------
// Hands and winnings
// ---------------------------------------------------------------------------

/// One hand: its cards, the bet placed on it, and its score.
pub struct Hand {
    pub cards: Vec<Card>,
    pub bet: u64,
    pub score: u64,
}

/// The mathematical content of a `Hand`.
pub ghost struct HandView {
    pub cards: Seq<Card>,
    pub bet: u64,
    pub score: u64,
}

impl View for Hand {
    type V = HandView;

    open spec fn view(&self) -> HandView {
        HandView { cards: self.cards@, bet: self.bet, score: self.score }
    }
}

impl DeepView for Hand {
    type V = HandView;

    open spec fn deep_view(&self) -> HandView {
        self@
    }
}

/// Two hands compare by score alone.
impl PartialEq for Hand {
    fn eq(&self, other: &Self) -> (r: bool) {
        self.score == other.score
    }
}

impl vstd::std_specs::cmp::PartialEqSpecImpl for Hand {
    open spec fn obeys_eq_spec() -> bool {
        true
    }

    open spec fn eq_spec(&self, other: &Hand) -> bool {
        self.score == other.score
    }
}

impl PartialOrd for Hand {
    fn partial_cmp(&self, other: &Self) -> (r: Option<core::cmp::Ordering>) {
        if self.score < other.score {
            Some(core::cmp::Ordering::Less)
        } else if self.score == other.score {
            Some(core::cmp::Ordering::Equal)
        } else {
            Some(core::cmp::Ordering::Greater)
        }
    }
}

impl vstd::std_specs::cmp::PartialOrdSpecImpl for Hand {
    open spec fn obeys_partial_cmp_spec() -> bool {
        true
    }

    open spec fn partial_cmp_spec(&self, other: &Hand) -> Option<core::cmp::Ordering> {
        if self.score < other.score {
            Some(core::cmp::Ordering::Less)
        } else if self.score == other.score {
            Some(core::cmp::Ordering::Equal)
        } else {
            Some(core::cmp::Ordering::Greater)
        }
    }
}

/// The cards the face characters of `t` name, if all of them parse.
pub open spec fn cards_of(t: Seq<char>) -> Option<Seq<Card>>
    decreases t.len(),
{
    if t.len() == 0 {
        Some(seq![])
    } else {
        match cards_of(t.drop_last()) {
            None => None,
            Some(cs) => match Card::from_char_spec(t.last()) {
                None => None,
                Some(c) => Some(cs.push(c)),
            },
        }
    }
}

/// The hand a line `<cards> <bet>` describes, if every face parses.
pub open spec fn hand_of_string(s: Seq<char>, jokers: bool) -> Option<HandView> {
    let toks = text::split_ws(s);
    match cards_of(toks[0]) {
        None => None,
        Some(cards) => Some(
            HandView {
                cards,
                bet: text::u64_token_value(toks[1])->0,
                score: if jokers {
                    joker_score(cards) as u64
                } else {
                    hand_score(cards) as u64
                },
            },
        ),
    }
}

/// The line has a card token and a bet that parses, and the hand is short
/// enough to score.
pub open spec fn hand_line_ok(s: Seq<char>) -> bool {
    let toks = text::split_ws(s);
    &&& toks.len() >= 2
    &&& toks[0].len() <= 16
    &&& text::u64_token_value(toks[1]) is Some
}

impl Hand {
    /// A hand scored in the plain variant.
    pub fn jacks(cards: Vec<Card>, bet: u64) -> (r: Self)
        requires
            cards@.len() <= 16,
        ensures
            r@.cards == cards@,
            r@.bet == bet,
            r@.score as int == hand_score(cards@),
    {
        let score = score_hand(&cards);
        Self { cards, bet, score }
    }

    /// A hand scored in the joker variant.
    pub fn jokers(cards: Vec<Card>, bet: u64) -> (r: Self)
        requires
            cards@.len() <= 16,
        ensures
            r@.cards == cards@,
            r@.bet == bet,
            r@.score as int == joker_score(cards@),
    {
        let score = score_jokers(&cards);
        Self { cards, bet, score }
    }

    /// Parses a line `<cards> <bet>` and scores it in the chosen variant.
    #[verifier::loop_isolation(false)]
    pub fn from_string(input: String, jokers: bool) -> (r: Option<Self>)
        requires
            hand_line_ok(input@),
        ensures
            r matches Some(h) ==> hand_of_string(input@, jokers) == Some(h@),
            r is None ==> hand_of_string(input@, jokers) is None,
    {
        let chars = text::str_chars(input.as_str());
        let parts = text::split_ws_exec(&chars);
        let ghost toks = text::split_ws(input@);
        proof {
            assert(parts@[0]@ == toks[0]);
            assert(parts@[1]@ == toks[1]);
        }
        let card_tok = &parts[0];
        let m = card_tok.len();
        let mut cards: Vec<Card> = Vec::new();
        let mut i: usize = 0;
        proof {
            assert(toks[0].take(0) =~= Seq::<char>::empty());
            assert(cards_of(toks[0].take(0)) == Some(Seq::<Card>::empty()));
        }
        while i < m
            invariant
                i <= m,
                m == toks[0].len(),
                m <= 16,
                card_tok@ == toks[0],
                cards@.len() == i,
                cards_of(toks[0].take(i as int)) == Some(cards@),
            decreases m - i,
        {
            proof {
                assert(toks[0].take(i + 1).drop_last() =~= toks[0].take(i as int));
                assert(toks[0].take(i + 1).last() == toks[0][i as int]);
            }
            match Card::from_char(card_tok[i]) {
                Some(c) => {
                    cards.push(c);
                },
                None => {
                    proof {
                        lemma_cards_of_prefix_none(toks[0], i + 1);
                    }
                    return None;
                },
            }
            i += 1;
        }
        proof {
            assert(toks[0].take(m as int) =~= toks[0]);
        }
        let bet = match text::parse_u64_token(&parts[1]) {
            Some(b) => b,
            None => {
                return None;
            },
        };
        if jokers {
            Some(Self::jokers(cards, bet))
        } else {
            Some(Self::jacks(cards, bet))
        }
    }
}

/// Once a face fails to parse, the whole card token fails.
pub proof fn lemma_cards_of_prefix_none(t: Seq<char>, i: int)
    requires
        0 <= i <= t.len(),
        cards_of(t.take(i)) is None,
    ensures
        cards_of(t) is None,
    decreases t.len() - i,
{
    if i < t.len() {
        assert(t.take(i + 1).drop_last() =~= t.take(i));
        lemma_cards_of_prefix_none(t, i + 1);
    } else {
        assert(t.take(i) =~= t);
    }
}

/// Hands ordered by score, weakest first.
pub open spec fn sorted_by_score(s: Seq<HandView>) -> bool {
    forall|i: int, j: int| 0 <= i < j < s.len() ==> (#[trigger] s[i]).score <= (#[trigger] s[j]).score
}

/// The sum of the bets of `s`.
pub open spec fn sum_bets(s: Seq<HandView>) -> int
    decreases s.len(),
{
    if s.len() == 0 {
        0
    } else {
        sum_bets(s.drop_last()) + s.last().bet
    }
}

/// The winnings of a ranked list of hands: each bet times its 1-based
/// rank.
pub open spec fn winnings(s: Seq<HandView>) -> int
    decreases s.len(),
{
    if s.len() == 0 {
        0
    } else {
        winnings(s.drop_last()) + s.len() * s.last().bet
    }
}

pub proof fn lemma_sum_bets_nonneg(s: Seq<HandView>)
    ensures
        sum_bets(s) >= 0,
    decreases s.len(),
{
    if s.len() > 0 {
        lemma_sum_bets_nonneg(s.drop_last());
    }
}

pub proof fn lemma_sum_bets_insert(s: Seq<HandView>, i: int, x: HandView)
    requires
        0 <= i <= s.len(),
    ensures
        sum_bets(s.insert(i, x)) == sum_bets(s) + x.bet,
    decreases s.len() - i,
{
    if i == s.len() {
        assert(s.insert(i, x).drop_last() =~= s);
    } else {
        assert(s.insert(i, x).drop_last() =~= s.drop_last().insert(i, x));
        assert(s.insert(i, x).last() == s.last());
        lemma_sum_bets_insert(s.drop_last(), i, x);
    }
}

/// Winnings never exceed the number of hands times the total bet.
pub proof fn lemma_winnings_bound(s: Seq<HandView>, n: int)
    requires
        s.len() <= n,
    ensures
        0 <= winnings(s) <= n * sum_bets(s),
    decreases s.len(),
{
    lemma_sum_bets_nonneg(s);
    if s.len() > 0 {
        lemma_winnings_bound(s.drop_last(), n);
        lemma_sum_bets_nonneg(s.drop_last());
        assert(winnings(s) == winnings(s.drop_last()) + s.len() * s.last().bet);
        assert(s.len() * s.last().bet <= n * s.last().bet) by (nonlinear_arith)
            requires
                0 <= s.len() <= n,
                s.last().bet >= 0,
        ;
        assert(n * sum_bets(s.drop_last()) + n * s.last().bet == n * sum_bets(s))
            by (nonlinear_arith)
            requires
                sum_bets(s) == sum_bets(s.drop_last()) + s.last().bet,
        ;
        assert(s.len() * s.last().bet >= 0) by (nonlinear_arith)
            requires
                s.len() >= 0,
                s.last().bet >= 0,
        ;
    }
}

/// Sorts the hands by score and sums each bet times its 1-based rank.
/// Hands with equal scores may rank in any order; the result is correct
/// for the order the sort chose.
#[verifier::loop_isolation(false)]
pub fn total_winnings(hands: Vec<Hand>) -> (r: u64)
    requires
        hands@.len() * sum_bets(hands.deep_view()) <= u64::MAX,
    ensures
        exists|s: Seq<HandView>|
            #![auto]
            s.to_multiset() == hands.deep_view().to_multiset() && sorted_by_score(s) && r as int
                == winnings(s),
{
    let ghost hv = hands.deep_view();
    let ghost total_n = hands@.len() as int;
    let mut rest = hands;
    let mut sorted: Vec<Hand> = Vec::new();
    proof {
        assert(sorted.deep_view() =~= Seq::<HandView>::empty());
        assert(rest.deep_view() =~= hv);
        lemma_empty_to_multiset();
        assert(sorted.deep_view().to_multiset().add(rest.deep_view().to_multiset()) =~= hv.to_multiset());
        assert(sum_bets(sorted.deep_view()) == 0);
    }
    loop
        invariant
            sorted.deep_view().to_multiset().add(rest.deep_view().to_multiset())
                =~= hv.to_multiset(),
            sum_bets(sorted.deep_view()) + sum_bets(rest.deep_view()) == sum_bets(hv),
            sorted_by_score(sorted.deep_view()),
            sorted@.len() + rest@.len() == total_n,
        decreases rest@.len(),
    {
        let ghost old_rest = rest.deep_view();
        let ghost old_sorted = sorted.deep_view();
        let h = match rest.pop() {
            Some(h) => h,
            None => {
                break;
            },
        };
        proof {
            assert(rest.deep_view() =~= old_rest.drop_last());
            assert(old_rest.drop_last() =~= old_rest.remove(old_rest.len() - 1));
            old_rest.to_multiset_ensures();
            assert(rest.deep_view().to_multiset() =~= old_rest.to_multiset().remove(h@));
        }
        let n_sorted = sorted.len();
        let mut pos: usize = 0;
        while pos < n_sorted
            invariant
                pos <= n_sorted,
                n_sorted == sorted@.len(),
                forall|t: int| 0 <= t < pos ==> (#[trigger] sorted.deep_view()[t]).score <= h@.score,
            decreases n_sorted - pos,
        {
            if sorted[pos].score > h.score {
                break;
            }
            proof {
                assert(sorted.deep_view()[pos as int].score == sorted@[pos as int]@.score);
            }
            pos += 1;
        }
        proof {
            assert(pos < n_sorted ==> sorted.deep_view()[pos as int].score > h@.score);
        }
        let ghost hview = h@;
        sorted.insert(pos, h);
        proof {
            assert(sorted.deep_view() =~= old_sorted.insert(pos as int, hview));
            let s2 = old_sorted.insert(pos as int, hview);
            assert(s2.remove(pos as int) =~= old_sorted);
            s2.to_multiset_ensures();
            assert(s2[pos as int] == hview);
            assert(old_sorted.to_multiset() =~= s2.to_multiset().remove(hview));
            assert(s2.to_multiset().contains(hview)) by {
                assert(s2.contains(hview));
            }
            assert(s2.to_multiset() =~= old_sorted.to_multiset().insert(hview));
            lemma_sum_bets_insert(old_sorted, pos as int, hview);
            assert forall|i: int, j: int| 0 <= i < j < s2.len() implies (
            #[trigger] s2[i]).score <= (#[trigger] s2[j]).score by {
                if i < pos && j > pos {
                    assert(s2[j] == old_sorted[j - 1]);
                } else if i == pos {
                    assert(s2[j] == old_sorted[j - 1]);
                    assert(old_sorted[j - 1].score > hview.score || old_sorted[j - 1].score
                        >= old_sorted[pos as int].score);
                }
            }
        }
    }
    let ghost sv = sorted.deep_view();
    proof {
        assert(rest.deep_view() =~= Seq::<HandView>::empty());
        lemma_empty_to_multiset();
        assert(rest.deep_view().to_multiset() =~= Multiset::<HandView>::empty());
        assert(sv.to_multiset() =~= hv.to_multiset());
        assert(sum_bets(sv) == sum_bets(hv));
        assert(sv.len() == total_n);
    }
    let n = sorted.len();
    let mut total: u64 = 0;
    let mut i: usize = 0;
    proof {
        assert(sv.take(0) =~= Seq::<HandView>::empty());
    }
    while i < n
        invariant
            i <= n,
            n == sv.len(),
            total as int == winnings(sv.take(i as int)),
        decreases n - i,
    {
        proof {
            assert(sv.take(i + 1).drop_last() =~= sv.take(i as int));
            assert(sv.take(i + 1).last() == sv[i as int]);
            lemma_winnings_prefix_le(sv, i + 1);
            lemma_winnings_bound(sv, total_n);
            lemma_winnings_bound(sv.take(i + 1), total_n);
            assert(sorted@[i as int]@ == sv[i as int]);
            assert((i + 1) * sv[i as int].bet as int <= winnings(sv.take(i + 1))) by {
                lemma_winnings_bound(sv.take(i as int), total_n);
            }
        }
        let rank = (i + 1) as u64;
        total = total + rank * sorted[i].bet;
        i += 1;
    }
    proof {
        assert(sv.take(n as int) =~= sv);
    }
    total
}

/// An empty hand list has the empty multiset.
pub proof fn lemma_empty_to_multiset()
    ensures
        Seq::<HandView>::empty().to_multiset() =~= Multiset::<HandView>::empty(),
{
    let e = Seq::<HandView>::empty();
    e.to_multiset_ensures();
    assert forall|x: HandView| e.to_multiset().count(x) == 0 by {
        assert(!e.contains(x));
    }
}

/// Winnings of a prefix never exceed winnings of the whole list.
pub proof fn lemma_winnings_prefix_le(s: Seq<HandView>, i: int)
    requires
        0 <= i <= s.len(),
    ensures
        winnings(s.take(i)) <= winnings(s),
    decreases s.len() - i,
{
    if i < s.len() {
        assert(s.take(i + 1).drop_last() =~= s.take(i));
        assert(s.take(i + 1).len() * s.take(i + 1).last().bet >= 0) by (nonlinear_arith)
            requires
                s.take(i + 1).len() >= 0,
                s.take(i + 1).last().bet >= 0,
        ;
        lemma_winnings_prefix_le(s, i + 1);
    } else {
        assert(s.take(i) =~= s);
    }
}

} // verus!
