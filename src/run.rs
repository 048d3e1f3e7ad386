//! Runs of cards: the `Run` enum, the `RunCoercionStrategy` struct, the
//! classifier `verify_run` and the coercion of jokers into real cards.
//!
//! Joker policy. A joker is a wildcard that stands for exactly one card. All
//! jokers are the same card value, so the rule that a run holds no card twice
//! admits at most one joker per run. In an equal run the joker takes a suit
//! that no other card of the run has; in an ascending run it takes the one
//! slot of the consecutive sequence that no other card fills.
use vstd::prelude::*;
use crate::card::{Card, CardType, GameError, Suit};

verus! {

/// How jokers are to be resolved into real cards.
///
/// * `prefer_ascending` - read an ambiguous run as ascending. Under the joker
///   policy of this module no run is both equal and ascending (two real cards
///   of one rank and one suit would be the same card), so it never decides.
/// * `highest_possible` - a joker at an open end of an ascending run extends
///   it upwards rather than downwards.
/// * `suit_preference` - the order in which an equal run's joker is offered
///   suits; it takes the first one that no card of the run has.
pub struct RunCoercionStrategy {
    pub prefer_ascending: bool,
    pub highest_possible: bool,
    pub suit_preference: [Suit; 4],
}

impl RunCoercionStrategy {
    /// The suit preference lists the four real suits, each once.
    pub open spec fn wf(self) -> bool {
        let p = self.suit_preference@;
        &&& forall|i: int| 0 <= i < 4 ==> p[i] != Suit::JokerSuit
        &&& forall|i: int, j: int| 0 <= i < j < 4 ==> p[i] != p[j]
    }

    /// A strategy from its three settings.
    pub fn new(prefer_ascending: bool, highest_possible: bool, suit_preference: [Suit; 4]) -> (r:
        Self)
        requires
            (RunCoercionStrategy { prefer_ascending, highest_possible, suit_preference }).wf(),
        ensures
            r.prefer_ascending == prefer_ascending,
            r.highest_possible == highest_possible,
            r.suit_preference@ == suit_preference@,
            r.wf(),
    {
        RunCoercionStrategy { prefer_ascending, highest_possible, suit_preference }
    }
}

impl Default for RunCoercionStrategy {
    /// Ascending first, upwards, and suits in the order spades, diamonds,
    /// clubs, hearts.
    fn default() -> (r: Self)
        ensures
            r.prefer_ascending,
            r.highest_possible,
            r.suit_preference@ == seq![Suit::Spades, Suit::Diamonds, Suit::Clubs, Suit::Hearts],
            r.wf(),
    {
        let r = RunCoercionStrategy {
            prefer_ascending: true,
            highest_possible: true,
            suit_preference: [Suit::Spades, Suit::Diamonds, Suit::Clubs, Suit::Hearts],
        };
        proof {
            assert(r.suit_preference@ =~= seq![Suit::Spades, Suit::Diamonds, Suit::Clubs, Suit::Hearts]);
        }
        r
    }
}

/// A run of cards as it may lie on the table.
#[derive(PartialEq, Eq, Debug)]
pub enum Run {
    /// Cards of one suit with consecutive values.
    Ascending(Vec<Card>),
    /// Three or four cards of one value and differing suits.
    Equal(Vec<Card>),
}

impl Run {
    /// The cards of the run, in order.
    pub open spec fn cards(self) -> Seq<Card> {
        match self {
            Run::Ascending(v) => v@,
            Run::Equal(v) => v@,
        }
    }

    /// A run as `verify_run` builds it: three or more well-formed cards, none
    /// twice, laid out as its kind demands.
    pub open spec fn wf(self) -> bool {
        &&& all_wf(self.cards())
        &&& all_distinct(self.cards())
        &&& self.cards().len() >= 3
        &&& match self {
            Run::Equal(v) => same_rank(v@) && v@.len() <= 4,
            Run::Ascending(v) => exists|h: bool, b: int| ascending_from(v@, h, b),
        }
    }

    /// The cards of the run with every joker replaced by the card it stands
    /// for, or `None` where an equal run's joker finds no free suit.
    pub open spec fn coerced(self, strategy: RunCoercionStrategy) -> Option<Seq<Card>> {
        let r = self.cards();
        if !has_joker(r) {
            Some(r)
        } else {
            match self {
                Run::Ascending(_) => Some(
                    coerce_ascending(r, r[first_real(r)].suit, run_start(r), strategy.highest_possible),
                ),
                Run::Equal(_) => {
                    let p = strategy.suit_preference@;
                    if exists|k: int| is_first_free(r, p, k) {
                        let k = choose|k: int| is_first_free(r, p, k);
                        Some(fill_equal(r, r[first_real(r)].card_type, p[k]))
                    } else {
                        None
                    }
                },
            }
        }
    }
}

/// Some card of `s` is a joker.
pub open spec fn has_joker(s: Seq<Card>) -> bool {
    exists|i: int| 0 <= i < s.len() && (#[trigger] s[i]).is_joker()
}

/// `f` is the index of the first card of `s` that is not a joker.
pub open spec fn is_first_real(s: Seq<Card>, f: int) -> bool {
    &&& 0 <= f < s.len()
    &&& !s[f].is_joker()
    &&& forall|j: int| 0 <= j < f ==> (#[trigger] s[j]).is_joker()
}

/// The index of the first card of `s` that is not a joker.
pub open spec fn first_real(s: Seq<Card>) -> int {
    choose|f: int| is_first_real(s, f)
}

/// The position of the first card of an ascending run. An ace that is the
/// first real card is low when it opens the run, and high after a joker.
pub open spec fn run_start(s: Seq<Card>) -> int {
    let f = first_real(s);
    slot_key(s[f], f > 0) - f
}

/// The card of suit `suit` in position `v` of an ascending run.
pub open spec fn card_at_slot(suit: Suit, v: int) -> Card {
    let card_type = if v == 1 || v == 14 {
        CardType::Ace
    } else if v == 11 {
        CardType::Jack
    } else if v == 12 {
        CardType::Queen
    } else if v == 13 {
        CardType::King
    } else {
        CardType::Number(v as u8)
    };
    Card { card_type, suit }
}

/// Each joker of `s` replaced by the card of its position.
pub open spec fn fill_slots(s: Seq<Card>, suit: Suit, start: int) -> Seq<Card> {
    Seq::new(
        s.len(),
        |i: int|
            if s[i].is_joker() {
                card_at_slot(suit, start + i)
            } else {
                s[i]
            },
    )
}

/// An ascending run from `start` with its joker resolved. A joker that opens
/// the run moves above its top when `highest` asks for it and there is room;
/// one that closes it moves below its bottom when `highest` does not and
/// there is room. Otherwise each joker takes the card of its position.
pub open spec fn coerce_ascending(s: Seq<Card>, suit: Suit, start: int, highest: bool) -> Seq<
    Card,
> {
    let n = s.len() as int;
    if n > 0 && s[0].is_joker() && highest && start + n <= 14 {
        s.drop_first().push(card_at_slot(suit, start + n))
    } else if n > 0 && s[n - 1].is_joker() && !highest && start >= 2 {
        seq![card_at_slot(suit, start - 1)] + s.drop_last()
    } else {
        fill_slots(s, suit, start)
    }
}

/// Some card of `s` has suit `suit`.
pub open spec fn suit_used(s: Seq<Card>, suit: Suit) -> bool {
    exists|i: int| 0 <= i < s.len() && (#[trigger] s[i]).suit == suit
}

/// `p[k]` is the first suit of `p` that no card of `s` has.
pub open spec fn is_first_free(s: Seq<Card>, p: Seq<Suit>, k: int) -> bool {
    &&& 0 <= k < p.len()
    &&& !suit_used(s, p[k])
    &&& forall|k2: int| 0 <= k2 < k ==> suit_used(s, #[trigger] p[k2])
}

/// Each joker of `s` replaced by the card of rank `card_type` and suit `suit`.
pub open spec fn fill_equal(s: Seq<Card>, card_type: CardType, suit: Suit) -> Seq<Card> {
    Seq::new(
        s.len(),
        |i: int|
            if s[i].is_joker() {
                Card { card_type, suit }
            } else {
                s[i]
            },
    )
}

/// Every card of `s` is well formed.
pub open spec fn all_wf(s: Seq<Card>) -> bool {
    forall|i: int| 0 <= i < s.len() ==> (#[trigger] s[i]).wf()
}

/// No card occurs twice in `s`.
pub open spec fn all_distinct(s: Seq<Card>) -> bool {
    forall|i: int, j: int| 0 <= i < j < s.len() ==> s[i] != s[j]
}

/// The cards of `s` other than jokers share one rank.
pub open spec fn same_rank(s: Seq<Card>) -> bool {
    forall|a: Card, b: Card|
        #![trigger s.contains(a), s.contains(b)]
        s.contains(a) && s.contains(b) && !a.is_joker() && !b.is_joker() ==> a.card_type
            == b.card_type
}

/// The cards of `s` other than jokers share one suit.
pub open spec fn same_suit(s: Seq<Card>) -> bool {
    forall|a: Card, b: Card|
        #![trigger s.contains(a), s.contains(b)]
        s.contains(a) && s.contains(b) && !a.is_joker() && !b.is_joker() ==> a.suit == b.suit
}

/// `r` holds the same cards as `s`, each once.
pub open spec fn same_cards(r: Seq<Card>, s: Seq<Card>) -> bool {
    &&& r.len() == s.len()
    &&& all_distinct(r)
    &&& forall|c: Card| r.contains(c) <==> s.contains(c)
}

/// The position of a card in an ascending run: its key, except that a high
/// ace comes after the king.
pub open spec fn slot_key(c: Card, ace_high: bool) -> int {
    if c.card_type == CardType::Ace && ace_high {
        14
    } else {
        c.key() as int
    }
}

/// The lowest position of an ascending run.
pub open spec fn lowest_slot(ace_high: bool) -> int {
    if ace_high {
        2
    } else {
        1
    }
}

/// The highest position of an ascending run.
pub open spec fn highest_slot(ace_high: bool) -> int {
    if ace_high {
        14
    } else {
        13
    }
}

/// `r` fills the consecutive positions `start, start + 1, ...` in one suit,
/// each card other than a joker in its own position.
pub open spec fn ascending_from(r: Seq<Card>, ace_high: bool, start: int) -> bool {
    &&& lowest_slot(ace_high) <= start
    &&& start + r.len() - 1 <= highest_slot(ace_high)
    &&& same_suit(r)
    &&& forall|i: int|
        0 <= i < r.len() && !(#[trigger] r[i]).is_joker() ==> slot_key(r[i], ace_high) == start
            + i
}

/// `r` lays out the cards of `s` as an ascending run from `start`.
pub open spec fn arranges(s: Seq<Card>, r: Seq<Card>, ace_high: bool, start: int) -> bool {
    same_cards(r, s) && ascending_from(r, ace_high, start)
}

/// Some layout of `s` is an ascending run from `start`.
pub open spec fn can_arrange(s: Seq<Card>, ace_high: bool, start: int) -> bool {
    exists|r: Seq<Card>| arranges(s, r, ace_high, start)
}

/// Layouts are tried with the ace low before the ace high, and from the
/// lowest start upwards.
pub open spec fn tried_before(h1: bool, b1: int, h2: bool, b2: int) -> bool {
    (!h1 && h2) || (h1 == h2 && b1 < b2)
}

/// `s` can be laid out as some ascending run.
pub open spec fn is_ascending_set(s: Seq<Card>) -> bool {
    exists|h: bool, b: int| can_arrange(s, h, b)
}

/// `r` is the first ascending layout of `s` in the order of `tried_before`.
pub open spec fn first_layout(s: Seq<Card>, r: Seq<Card>) -> bool {
    exists|h: bool, b: int|
        arranges(s, r, h, b) && forall|h2: bool, b2: int|
            tried_before(h2, b2, h, b) ==> !can_arrange(s, h2, b2)
}

fn slot_key_of(c: &Card, ace_high: bool) -> (r: u8)
    requires
        c.wf(),
        !c.is_joker(),
    ensures
        r as int == slot_key(*c, ace_high),
        1 <= r <= 14,
{
    match c.card_type {
        CardType::Ace => if ace_high {
            14
        } else {
            1
        },
        _ => c.get_comparison_value(),
    }
}

/// Two well-formed jokers are the same card.
proof fn lemma_jokers_equal(a: Card, b: Card)
    requires
        a.wf(),
        b.wf(),
        a.is_joker(),
        b.is_joker(),
    ensures
        a == b,
{
}

/// The index of a real card of `cards` in position `want`, if there is one.
fn find_slot(cards: &Vec<Card>, ace_high: bool, want: u8) -> (r: Option<usize>)
    requires
        all_wf(cards@),
    ensures
        r matches Some(j) ==> j < cards@.len() && !cards@[j as int].is_joker() && slot_key(
            cards@[j as int],
            ace_high,
        ) == want,
        r is None ==> forall|j: int|
            0 <= j < cards@.len() && !(#[trigger] cards@[j]).is_joker() ==> slot_key(
                cards@[j],
                ace_high,
            ) != want,
{
    let mut j: usize = 0;
    while j < cards.len()
        invariant
            j <= cards@.len(),
            all_wf(cards@),
            forall|k: int|
                0 <= k < j && !(#[trigger] cards@[k]).is_joker() ==> slot_key(cards@[k], ace_high)
                    != want,
        decreases cards@.len() - j,
    {
        let c = &cards[j];
        let is_joker = match c.card_type {
            CardType::Joker => true,
            _ => false,
        };
        if !is_joker && slot_key_of(c, ace_high) == want {
            return Some(j);
        }
        j += 1;
    }
    None
}

/// The index of a joker in `cards`, if there is one.
fn find_joker(cards: &Vec<Card>) -> (r: Option<usize>)
    ensures
        r matches Some(j) ==> j < cards@.len() && cards@[j as int].is_joker(),
        r is None ==> forall|j: int| 0 <= j < cards@.len() ==> !(#[trigger] cards@[j]).is_joker(),
{
    let mut j: usize = 0;
    while j < cards.len()
        invariant
            j <= cards@.len(),
            forall|k: int| 0 <= k < j ==> !(#[trigger] cards@[k]).is_joker(),
        decreases cards@.len() - j,
    {
        match cards[j].card_type {
            CardType::Joker => {
                return Some(j);
            },
            _ => {},
        }
        j += 1;
    }
    None
}

/// Whether `cards` holds `c`.
fn holds(cards: &Vec<Card>, c: &Card) -> (r: bool)
    ensures
        r == cards@.contains(*c),
{
    let mut j: usize = 0;
    while j < cards.len()
        invariant
            j <= cards@.len(),
            forall|k: int| 0 <= k < j ==> cards@[k] != *c,
        decreases cards@.len() - j,
    {
        if cards[j] == *c {
            return true;
        }
        j += 1;
    }
    false
}

impl Run {
    /// The run with every joker replaced by the card it stands for under
    /// `strategy`; the run itself is left as it is. A run without jokers comes
    /// back unchanged. An equal run's joker takes the run's rank and the first
    /// suit of the preference that no card of the run has; an equal run holds
    /// at most three real cards, so there always is one. An ascending run's
    /// joker takes the card of its position, or moves to the other open end
    /// as `coerce_ascending` describes. The result is a well-formed run of the
    /// same kind, without jokers.
    pub fn coerce_to_real(&self, strategy: RunCoercionStrategy) -> (r: Result<Run, GameError>)
        requires
            self.wf(),
            strategy.wf(),
        ensures
            !has_joker(self.cards()) ==> (r matches Ok(w) && w.cards() == self.cards()),
            self.coerced(strategy) matches Some(c) ==> (r matches Ok(w) && w.cards() == c),
            self.coerced(strategy) is None ==> r == Err::<Run, GameError>(
                GameError::UnresolvableJoker,
            ),
            self.coerced(strategy) is Some,
            r matches Ok(w) ==> (w is Ascending <==> self is Ascending) && !has_joker(w.cards())
                && w.wf(),
    {
        let v = match self {
            Run::Ascending(v) => v,
            Run::Equal(v) => v,
        };
        let joker = find_joker(v);
        let j = match joker {
            None => {
                let w = copy_cards(v);
                return match self {
                    Run::Ascending(_) => Ok(Run::Ascending(w)),
                    Run::Equal(_) => Ok(Run::Equal(w)),
                };
            },
            Some(j) => j,
        };
        proof {
            assert(has_joker(v@));
            if forall|k: int| 0 <= k < v@.len() ==> (#[trigger] v@[k]).is_joker() {
                assert(v@[0].is_joker() && v@[1].is_joker());
                assert(v@[0].wf() && v@[1].wf());
                lemma_jokers_equal(v@[0], v@[1]);
            }
        }
        let f = match find_real(v) {
            Some(f) => f,
            None => {
                return Err(GameError::UnresolvableJoker);
            },
        };
        proof {
            lemma_first_real(v@, f as int);
        }
        let first = v[f];
        match self {
            Run::Equal(_) => {
                proof {
                    lemma_free_suit_exists(v@, strategy.suit_preference@, j as int);
                }
                match first_free_suit(v, &strategy.suit_preference) {
                    None => Err(GameError::UnresolvableJoker),
                    Some(k) => {
                        let suit = strategy.suit_preference[k];
                        proof {
                            let p = strategy.suit_preference@;
                            assert(is_first_free(v@, p, k as int));
                            let k2 = choose|k2: int| is_first_free(v@, p, k2);
                            if k2 < k {
                                assert(suit_used(v@, p[k2]));
                            }
                            if k < k2 {
                                assert(suit_used(v@, p[k as int]));
                            }
                        }
                        proof {
                            lemma_equal_coerced_wf(v@, f as int, suit);
                        }
                        Ok(Run::Equal(fill_equal_exec(v, first.card_type, suit)))
                    },
                }
            },
            Run::Ascending(_) => {
                let n = v.len();
                let ghost (h, b) = choose|h: bool, b: int| ascending_from(v@, h, b);
                proof {
                    assert(ascending_from(v@, h, b));
                    lemma_start_of_run(v@, h, b, f as int);
                    lemma_ascending_coerced_wf(v@, h, b, j as int, f as int, strategy.highest_possible);
                }
                let start: i32 = slot_key_of(&first, f > 0) as i32 - f as i32;
                let suit = first.suit;
                let w = if j == 0 && strategy.highest_possible && start + n as i32 <= 14 {
                    let mut w: Vec<Card> = Vec::new();
                    let mut i: usize = 1;
                    while i < n
                        invariant
                            n == v@.len(),
                            1 <= i <= n,
                            w@ == v@.subrange(1, i as int),
                        decreases n - i,
                    {
                        w.push(v[i]);
                        proof {
                            assert(v@.subrange(1, i + 1) =~= v@.subrange(1, i as int).push(v@[i as int]));
                        }
                        i += 1;
                    }
                    w.push(card_at(suit, start + n as i32));
                    proof {
                        assert(v@.subrange(1, n as int) =~= v@.drop_first());
                    }
                    w
                } else if j == n - 1 && !strategy.highest_possible && start >= 2 {
                    let mut w: Vec<Card> = Vec::new();
                    w.push(card_at(suit, start - 1));
                    let mut i: usize = 0;
                    while i < n - 1
                        invariant
                            n == v@.len(),
                            n >= 3,
                            0 <= i <= n - 1,
                            w@ == seq![card_at_slot(suit, start - 1)] + v@.subrange(0, i as int),
                        decreases n - i,
                    {
                        w.push(v[i]);
                        proof {
                            assert(v@.subrange(0, i + 1) =~= v@.subrange(0, i as int).push(v@[i as int]));
                        }
                        i += 1;
                    }
                    proof {
                        assert(v@.subrange(0, n - 1) =~= v@.drop_last());
                    }
                    w
                } else {
                    fill_slots_exec(v, suit, start)
                };
                proof {
                    if j == 0 {
                        assert(v@[0].is_joker());
                    }
                    if j == n - 1 {
                        assert(v@[n - 1].is_joker());
                    }
                    let c = coerce_ascending(v@, suit, start as int, strategy.highest_possible);
                    if v@[0].is_joker() && j != 0 {
                        lemma_jokers_equal(v@[0], v@[j as int]);
                    }
                    if v@[n - 1].is_joker() && j != n - 1 {
                        lemma_jokers_equal(v@[n - 1], v@[j as int]);
                    }
                    assert(w@ =~= c);
                    assert forall|i: int| 0 <= i < n && i != j implies !(#[trigger] v@[i]).is_joker() by {
                        if v@[i].is_joker() {
                            lemma_jokers_equal(v@[i], v@[j as int]);
                        }
                    }
                    assert forall|i: int| 0 <= i < w@.len() implies !(#[trigger] w@[i]).is_joker() by {
                        if j == 0 && strategy.highest_possible && start + n <= 14 {
                            if i < n - 1 {
                                assert(w@[i] == v@[i + 1]);
                            }
                        } else if j == n - 1 && !strategy.highest_possible && start >= 2 {
                            if i > 0 {
                                assert(w@[i] == v@[i - 1]);
                            }
                        }
                    }
                }
                Ok(Run::Ascending(w))
            },
        }
    }
}

impl Run {
    /// The points of the run: the sum of the points of its cards once every
    /// joker is replaced under `strategy`. Fails as the coercion fails.
    pub fn get_score(&self, strategy: RunCoercionStrategy) -> (r: Result<u8, GameError>)
        requires
            self.wf(),
            strategy.wf(),
        ensures
            r is Ok,
            self.coerced(strategy) matches Some(c) ==> r == Ok::<u8, GameError>(
                sum_points(c) as u8,
            ),
            self.coerced(strategy) is None ==> r == Err::<u8, GameError>(
                GameError::UnresolvableJoker,
            ),
    {
        proof {
            if self is Ascending {
                let (h, b) = choose|h: bool, b: int| ascending_from(self.cards(), h, b);
                assert(ascending_from(self.cards(), h, b));
            }
        }
        match self.coerce_to_real(strategy) {
            Ok(run) => {
                let v = match &run {
                    Run::Ascending(v) => v,
                    Run::Equal(v) => v,
                };
                proof {
                    if run is Ascending {
                        let (h, b) = choose|h: bool, b: int| ascending_from(v@, h, b);
                        assert(ascending_from(v@, h, b));
                    }
                    assert forall|i: int| 0 <= i < v@.len() implies (#[trigger] v@[i]).points()
                        <= 11 by {
                        assert(v@[i].wf());
                        if v@[i].is_joker() {
                            assert(has_joker(v@));
                        }
                    }
                }
                Ok(sum_scores(v))
            },
            Err(e) => Err(e),
        }
    }
}

/// The total of the points of the cards of `s`.
pub open spec fn sum_points(s: Seq<Card>) -> nat
    decreases s.len(),
{
    if s.len() == 0 {
        0
    } else {
        sum_points(s.drop_last()) + s.last().points()
    }
}

/// The total of the points of the cards of `cards`.
fn sum_scores(cards: &Vec<Card>) -> (r: u8)
    requires
        cards@.len() <= 14,
        forall|i: int| 0 <= i < cards@.len() ==> (#[trigger] cards@[i]).points() <= 11,
    ensures
        r as nat == sum_points(cards@),
{
    let mut total: u8 = 0;
    let mut i: usize = 0;
    while i < cards.len()
        invariant
            i <= cards@.len() <= 14,
            total as nat == sum_points(cards@.subrange(0, i as int)),
            total <= 11 * i,
            forall|k: int| 0 <= k < cards@.len() ==> (#[trigger] cards@[k]).points() <= 11,
        decreases cards@.len() - i,
    {
        let c = cards[i];
        proof {
            assert(cards@.subrange(0, i + 1).drop_last() =~= cards@.subrange(0, i as int));
        }
        total = total + c.score();
        i += 1;
    }
    proof {
        assert(cards@.subrange(0, i as int) =~= cards@);
    }
    total
}

/// Removing a card takes its points off the total.
pub proof fn lemma_sum_remove(s: Seq<Card>, k: int)
    requires
        0 <= k < s.len(),
    ensures
        sum_points(s.remove(k)) + s[k].points() == sum_points(s),
    decreases s.len(),
{
    if k == s.len() - 1 {
        assert(s.remove(k) =~= s.drop_last());
    } else {
        lemma_sum_remove(s.drop_last(), k);
        assert(s.remove(k).drop_last() =~= s.drop_last().remove(k));
        assert(s.remove(k).last() == s.last());
    }
}

/// The points of a collection of cards do not depend on their order: two
/// sequences that hold the same cards, as many times each, have the same
/// total.
pub proof fn lemma_score_reorder(s1: Seq<Card>, s2: Seq<Card>)
    requires
        s1.to_multiset() == s2.to_multiset(),
    ensures
        sum_points(s1) == sum_points(s2),
    decreases s1.len(),
{
    broadcast use vstd::seq_lib::group_to_multiset_ensures;

    if s1.len() == 0 {
        assert(s2.to_multiset().len() == 0);
        assert(s2.len() == 0);
    } else {
        let x = s1.last();
        let rest = s1.drop_last();
        assert(s1 =~= rest.push(x));
        vstd::seq_lib::to_multiset_build(rest, x);
        assert(s1.to_multiset().count(x) > 0);
        assert(s2.to_multiset().count(x) > 0);
        assert(s2.contains(x));
        let k = choose|k: int| 0 <= k < s2.len() && s2[k] == x;
        vstd::seq_lib::to_multiset_remove(s2, k);
        assert(rest.to_multiset() =~= s2.remove(k).to_multiset());
        lemma_score_reorder(rest, s2.remove(k));
        lemma_sum_remove(s2, k);
    }
}

/// An equal run with a joker holds at most three real cards, so one of the
/// four preferred suits is always free for it.
proof fn lemma_free_suit_exists(s: Seq<Card>, p: Seq<Suit>, j: int)
    requires
        all_wf(s),
        all_distinct(s),
        s.len() <= 4,
        0 <= j < s.len(),
        s[j].is_joker(),
        p.len() == 4,
        forall|i: int| 0 <= i < 4 ==> p[i] != Suit::JokerSuit,
        forall|a: int, b: int| 0 <= a < b < 4 ==> p[a] != p[b],
    ensures
        exists|k: int| is_first_free(s, p, k),
{
    if forall|k: int| 0 <= k < 4 ==> suit_used(s, #[trigger] p[k]) {
        assert(suit_used(s, p[0]));
        assert(suit_used(s, p[1]));
        assert(suit_used(s, p[2]));
        assert(suit_used(s, p[3]));
        let i0 = choose|i: int| 0 <= i < s.len() && (#[trigger] s[i]).suit == p[0];
        let i1 = choose|i: int| 0 <= i < s.len() && (#[trigger] s[i]).suit == p[1];
        let i2 = choose|i: int| 0 <= i < s.len() && (#[trigger] s[i]).suit == p[2];
        let i3 = choose|i: int| 0 <= i < s.len() && (#[trigger] s[i]).suit == p[3];
        assert(s[j].wf());
        assert(false);
    } else {
        let k0 = choose|k: int| 0 <= k < 4 && !suit_used(s, #[trigger] p[k]);
        lemma_first_free_from(s, p, k0);
    }
}

/// Where some suit of `p` up to `k` is free, there is a first free one.
proof fn lemma_first_free_from(s: Seq<Card>, p: Seq<Suit>, k: int)
    requires
        0 <= k < p.len(),
        !suit_used(s, p[k]),
    ensures
        exists|k2: int| is_first_free(s, p, k2),
    decreases k,
{
    if forall|k2: int| 0 <= k2 < k ==> suit_used(s, #[trigger] p[k2]) {
        assert(is_first_free(s, p, k));
    } else {
        let k2 = choose|k2: int| 0 <= k2 < k && !suit_used(s, #[trigger] p[k2]);
        lemma_first_free_from(s, p, k2);
    }
}

/// Two runs without jokers that hold the same cards, in whatever order, are
/// worth the same under any strategy.
pub proof fn lemma_run_score_reorder(r1: Run, r2: Run, strategy: RunCoercionStrategy)
    requires
        !has_joker(r1.cards()),
        !has_joker(r2.cards()),
        r1.cards().to_multiset() == r2.cards().to_multiset(),
    ensures
        r1.coerced(strategy) == Some(r1.cards()),
        r2.coerced(strategy) == Some(r2.cards()),
        sum_points(r1.cards()) == sum_points(r2.cards()),
{
    lemma_score_reorder(r1.cards(), r2.cards());
}

/// The start of an ascending run is fixed by its first real card.
proof fn lemma_start_of_run(s: Seq<Card>, h: bool, b: int, f: int)
    requires
        ascending_from(s, h, b),
        all_wf(s),
        s.len() >= 3,
        is_first_real(s, f),
    ensures
        b == slot_key(s[f], f > 0) - f,
{
    assert(s[f].wf());
    assert(slot_key(s[f], h) == b + f);
}

/// A real card in an ascending run laid out with the ace high sits in the
/// same position with the ace low, when the run has no ace.
proof fn lemma_no_ace_slot(c: Card, h1: bool, h2: bool)
    requires
        c.card_type != CardType::Ace,
    ensures
        slot_key(c, h1) == slot_key(c, h2),
{
}

/// The card placed in position `v` of a run is well formed, real, and sits in
/// position `v`.
proof fn lemma_card_at_slot(suit: Suit, v: int, h: bool)
    requires
        suit != Suit::JokerSuit,
        lowest_slot(h) <= v <= highest_slot(h),
    ensures
        card_at_slot(suit, v).wf(),
        !card_at_slot(suit, v).is_joker(),
        card_at_slot(suit, v).suit == suit,
        slot_key(card_at_slot(suit, v), h) == v,
{
}

/// Resolving the joker of an ascending run gives an ascending run.
proof fn lemma_ascending_coerced_wf(s: Seq<Card>, h: bool, b: int, j: int, f: int, highest: bool)
    requires
        ascending_from(s, h, b),
        all_wf(s),
        all_distinct(s),
        s.len() >= 3,
        0 <= j < s.len(),
        s[j].is_joker(),
        is_first_real(s, f),
    ensures
        ({
            let c = coerce_ascending(s, s[f].suit, b, highest);
            &&& all_wf(c)
            &&& all_distinct(c)
            &&& c.len() >= 3
            &&& exists|h2: bool, b2: int| ascending_from(c, h2, b2)
        }),
{
    let n = s.len() as int;
    let suit = s[f].suit;
    let c = coerce_ascending(s, suit, b, highest);
    assert(s[f].wf());
    assert(suit != Suit::JokerSuit);
    assert(s.contains(s[f]));
    assert forall|i: int| 0 <= i < n && i != j implies !(#[trigger] s[i]).is_joker() by {
        if s[i].is_joker() {
            lemma_jokers_equal(s[i], s[j]);
        }
    }
    assert forall|i: int| 0 <= i < n && i != j implies (#[trigger] s[i]).suit == suit by {
        assert(s.contains(s[i]));
    }
    if n > 0 && s[0].is_joker() && highest && b + n <= 14 {
        assert(j == 0) by {
            if j != 0 {
                lemma_jokers_equal(s[0], s[j]);
            }
        }
        let h2 = h || b + n == 14;
        let top = card_at_slot(suit, b + n);
        lemma_card_at_slot(suit, b + n, h2);
        assert forall|i: int| 1 <= i < n implies (#[trigger] s[i]).card_type != CardType::Ace
            || h2 == h by {
            if s[i].card_type == CardType::Ace && !h {
                assert(slot_key(s[i], h) == b + i);
            }
        }
        assert forall|i: int| 0 <= i < n - 1 implies slot_key(#[trigger] c[i], h2) == b + 1 + i by {
            assert(c[i] == s[i + 1]);
            assert(slot_key(s[i + 1], h) == b + i + 1);
        }
        assert(c[n - 1] == top);
        assert forall|i: int| 0 <= i < n implies (#[trigger] c[i]).wf() && !c[i].is_joker()
            && c[i].suit == suit by {
            if i < n - 1 {
                assert(c[i] == s[i + 1]);
            }
        }
        assert forall|x: int, y: int| 0 <= x < y < n implies c[x] != c[y] by {
            assert(slot_key(c[x], h2) == b + 1 + x);
            assert(slot_key(c[y], h2) == b + 1 + y);
        }
        assert forall|a: Card, d: Card|
            #![trigger c.contains(a), c.contains(d)]
            c.contains(a) && c.contains(d) && !a.is_joker() && !d.is_joker() implies a.suit
                == d.suit by {}
        assert(ascending_from(c, h2, b + 1));
    } else if n > 0 && s[n - 1].is_joker() && !highest && b >= 2 {
        assert(j == n - 1) by {
            if j != n - 1 {
                lemma_jokers_equal(s[n - 1], s[j]);
            }
        }
        let h2 = h && b - 1 != 1;
        let bottom = card_at_slot(suit, b - 1);
        lemma_card_at_slot(suit, b - 1, h2);
        assert forall|i: int| 0 <= i < n - 1 implies (#[trigger] s[i]).card_type != CardType::Ace
            || h2 == h by {
            if s[i].card_type == CardType::Ace && h {
                assert(slot_key(s[i], h) == b + i);
            }
        }
        assert forall|i: int| 1 <= i < n implies slot_key(#[trigger] c[i], h2) == b - 1 + i by {
            assert(c[i] == s[i - 1]);
            assert(slot_key(s[i - 1], h) == b + i - 1);
        }
        assert(c[0] == bottom);
        assert forall|i: int| 0 <= i < n implies (#[trigger] c[i]).wf() && !c[i].is_joker()
            && c[i].suit == suit by {
            if i > 0 {
                assert(c[i] == s[i - 1]);
            }
        }
        assert forall|x: int, y: int| 0 <= x < y < n implies c[x] != c[y] by {
            assert(slot_key(c[x], h2) == b - 1 + x);
            assert(slot_key(c[y], h2) == b - 1 + y);
        }
        assert forall|a: Card, d: Card|
            #![trigger c.contains(a), c.contains(d)]
            c.contains(a) && c.contains(d) && !a.is_joker() && !d.is_joker() implies a.suit
                == d.suit by {}
        assert(ascending_from(c, h2, b - 1));
    } else {
        lemma_card_at_slot(suit, b + j, h);
        assert forall|i: int| 0 <= i < n implies (#[trigger] c[i]).wf() && !c[i].is_joker()
            && c[i].suit == suit && slot_key(c[i], h) == b + i by {
            if i != j {
                assert(c[i] == s[i]);
            }
        }
        assert forall|x: int, y: int| 0 <= x < y < n implies c[x] != c[y] by {
            assert(slot_key(c[x], h) == b + x);
            assert(slot_key(c[y], h) == b + y);
        }
        assert forall|a: Card, d: Card|
            #![trigger c.contains(a), c.contains(d)]
            c.contains(a) && c.contains(d) && !a.is_joker() && !d.is_joker() implies a.suit
                == d.suit by {}
        assert(ascending_from(c, h, b));
    }
}

/// Resolving the joker of an equal run with a free suit gives an equal run.
proof fn lemma_equal_coerced_wf(s: Seq<Card>, f: int, suit: Suit)
    requires
        same_rank(s),
        all_wf(s),
        all_distinct(s),
        3 <= s.len() <= 4,
        is_first_real(s, f),
        suit != Suit::JokerSuit,
        !suit_used(s, suit),
    ensures
        ({
            let c = fill_equal(s, s[f].card_type, suit);
            &&& all_wf(c)
            &&& all_distinct(c)
            &&& same_rank(c)
            &&& c.len() == s.len()
        }),
{
    let n = s.len() as int;
    let rank = s[f].card_type;
    let c = fill_equal(s, rank, suit);
    assert(s[f].wf());
    assert(s.contains(s[f]));
    assert forall|i: int| 0 <= i < n && !s[i].is_joker() implies (#[trigger] s[i]).card_type
        == rank by {
        assert(s.contains(s[i]));
    }
    assert forall|i: int| 0 <= i < n implies (#[trigger] c[i]).wf() && !c[i].is_joker()
        && c[i].card_type == rank by {}
    assert forall|x: int, y: int| 0 <= x < y < n implies c[x] != c[y] by {
        if s[x].is_joker() && s[y].is_joker() {
            lemma_jokers_equal(s[x], s[y]);
        }
        if s[x].is_joker() && !s[y].is_joker() {
            assert(c[y].suit != suit);
        }
        if !s[x].is_joker() && s[y].is_joker() {
            assert(c[x].suit != suit);
        }
    }
    assert forall|a: Card, d: Card|
        #![trigger c.contains(a), c.contains(d)]
        c.contains(a) && c.contains(d) && !a.is_joker() && !d.is_joker() implies a.card_type
            == d.card_type by {}
}

/// `f` is the only first real index, so `first_real` picks it.
proof fn lemma_first_real(s: Seq<Card>, f: int)
    requires
        is_first_real(s, f),
    ensures
        first_real(s) == f,
{
    let g = first_real(s);
    assert(is_first_real(s, g));
    if g < f {
        assert(s[g].is_joker());
    }
    if f < g {
        assert(s[f].is_joker());
    }
}

/// A copy of `cards`.
fn copy_cards(cards: &Vec<Card>) -> (r: Vec<Card>)
    ensures
        r@ == cards@,
{
    let mut r: Vec<Card> = Vec::new();
    let mut i: usize = 0;
    while i < cards.len()
        invariant
            i <= cards@.len(),
            r@ == cards@.subrange(0, i as int),
        decreases cards@.len() - i,
    {
        r.push(cards[i]);
        proof {
            assert(cards@.subrange(0, i + 1) =~= cards@.subrange(0, i as int).push(cards@[i as int]));
        }
        i += 1;
    }
    proof {
        assert(cards@.subrange(0, i as int) =~= cards@);
    }
    r
}

/// The card of suit `suit` in position `v`.
fn card_at(suit: Suit, v: i32) -> (r: Card)
    ensures
        r == card_at_slot(suit, v as int),
{
    let card_type = if v == 1 || v == 14 {
        CardType::Ace
    } else if v == 11 {
        CardType::Jack
    } else if v == 12 {
        CardType::Queen
    } else if v == 13 {
        CardType::King
    } else {
        CardType::Number(v as u8)
    };
    Card { card_type, suit }
}

/// Each joker of `cards` replaced by the card of its position.
fn fill_slots_exec(cards: &Vec<Card>, suit: Suit, start: i32) -> (r: Vec<Card>)
    requires
        cards@.len() <= 14,
        -14 <= start <= 14,
    ensures
        r@ == fill_slots(cards@, suit, start as int),
{
    let mut r: Vec<Card> = Vec::new();
    let mut i: usize = 0;
    while i < cards.len()
        invariant
            i <= cards@.len() <= 14,
            -14 <= start <= 14,
            r@ == fill_slots(cards@, suit, start as int).subrange(0, i as int),
        decreases cards@.len() - i,
    {
        let c = cards[i];
        let next = match c.card_type {
            CardType::Joker => card_at(suit, start + i as i32),
            _ => c,
        };
        r.push(next);
        proof {
            let full = fill_slots(cards@, suit, start as int);
            assert(full.subrange(0, i + 1) =~= full.subrange(0, i as int).push(full[i as int]));
        }
        i += 1;
    }
    proof {
        let full = fill_slots(cards@, suit, start as int);
        assert(full.subrange(0, i as int) =~= full);
    }
    r
}

/// Each joker of `cards` replaced by the card of rank `card_type` and suit
/// `suit`.
fn fill_equal_exec(cards: &Vec<Card>, card_type: CardType, suit: Suit) -> (r: Vec<Card>)
    ensures
        r@ == fill_equal(cards@, card_type, suit),
{
    let mut r: Vec<Card> = Vec::new();
    let mut i: usize = 0;
    while i < cards.len()
        invariant
            i <= cards@.len(),
            r@ == fill_equal(cards@, card_type, suit).subrange(0, i as int),
        decreases cards@.len() - i,
    {
        let c = cards[i];
        let next = match c.card_type {
            CardType::Joker => Card { card_type, suit },
            _ => c,
        };
        r.push(next);
        proof {
            let full = fill_equal(cards@, card_type, suit);
            assert(full.subrange(0, i + 1) =~= full.subrange(0, i as int).push(full[i as int]));
        }
        i += 1;
    }
    proof {
        let full = fill_equal(cards@, card_type, suit);
        assert(full.subrange(0, i as int) =~= full);
    }
    r
}

/// Whether some card of `cards` has suit `suit`.
fn uses_suit(cards: &Vec<Card>, suit: Suit) -> (r: bool)
    ensures
        r == suit_used(cards@, suit),
{
    let mut i: usize = 0;
    while i < cards.len()
        invariant
            i <= cards@.len(),
            forall|k: int| 0 <= k < i ==> (#[trigger] cards@[k]).suit != suit,
        decreases cards@.len() - i,
    {
        if cards[i].suit == suit {
            return true;
        }
        i += 1;
    }
    false
}

/// The index of the first suit of `pref` that no card of `cards` has.
fn first_free_suit(cards: &Vec<Card>, pref: &[Suit; 4]) -> (r: Option<usize>)
    ensures
        r matches Some(k) ==> is_first_free(cards@, pref@, k as int),
        r is None ==> !exists|k: int| is_first_free(cards@, pref@, k),
{
    let mut k: usize = 0;
    while k < 4
        invariant
            k <= 4,
            pref@.len() == 4,
            forall|k2: int| 0 <= k2 < k ==> suit_used(cards@, #[trigger] pref@[k2]),
        decreases 4 - k,
    {
        if !uses_suit(cards, pref[k]) {
            return Some(k);
        }
        k += 1;
    }
    None
}

/// Lays out `cards` as the ascending run from `start`, where one exists.
fn arrange(cards: &Vec<Card>, ace_high: bool, start: u8) -> (r: Option<Vec<Card>>)
    requires
        all_wf(cards@),
        all_distinct(cards@),
        same_suit(cards@),
        lowest_slot(ace_high) <= start,
        start + cards@.len() - 1 <= highest_slot(ace_high),
    ensures
        r matches Some(v) ==> arranges(cards@, v@, ace_high, start as int),
        r is None ==> !can_arrange(cards@, ace_high, start as int),
{
    let n = cards.len();
    let mut out: Vec<Card> = Vec::new();
    let mut joker_used = false;
    let mut i: usize = 0;
    while i < n
        invariant
            n == cards@.len(),
            i <= n,
            all_wf(cards@),
            all_distinct(cards@),
            same_suit(cards@),
            lowest_slot(ace_high) <= start,
            start + n - 1 <= highest_slot(ace_high),
            out@.len() == i,
            forall|k: int| 0 <= k < i ==> cards@.contains(#[trigger] out@[k]),
            forall|k: int|
                0 <= k < i && !(#[trigger] out@[k]).is_joker() ==> slot_key(out@[k], ace_high)
                    == start + k,
            joker_used <==> exists|k: int| 0 <= k < i && (#[trigger] out@[k]).is_joker(),
            all_distinct(out@),
            forall|r2: Seq<Card>|
                #[trigger] arranges(cards@, r2, ace_high, start as int) ==> out@ == r2.subrange(
                    0,
                    i as int,
                ),
        decreases n - i,
    {
        let want = start + i as u8;
        let ghost old_out = out@;
        match find_slot(cards, ace_high, want) {
            Some(j) => {
                let c = cards[j];
                proof {
                    assert(cards@.contains(cards@[j as int]));
                    assert forall|r2: Seq<Card>|
                        #[trigger] arranges(cards@, r2, ace_high, start as int) implies out@.push(c)
                        == r2.subrange(0, i + 1) by {
                        assert(r2.contains(c));
                        let k = choose|k: int| 0 <= k < r2.len() && r2[k] == c;
                        assert(r2[k] == c);
                        assert(k == i);
                        assert(r2.subrange(0, i + 1) =~= r2.subrange(0, i as int).push(r2[i as int]));
                    }
                }
                out.push(c);
            },
            None => {
                if joker_used {
                    proof {
                        assert forall|r2: Seq<Card>| !arranges(cards@, r2, ace_high, start as int) by {
                            if arranges(cards@, r2, ace_high, start as int) {
                                assert(out@ == r2.subrange(0, i as int));
                                let k = choose|k: int| 0 <= k < i && (#[trigger] out@[k]).is_joker();
                                assert(r2[k] == out@[k]);
                                assert(cards@.contains(r2[i as int]));
                                if !r2[i as int].is_joker() {
                                    let jj = choose|jj: int| 0 <= jj < cards@.len() && cards@[jj] == r2[i as int];
                                    assert(!cards@[jj].is_joker());
                                }
                                let ja = choose|ja: int| 0 <= ja < cards@.len() && cards@[ja] == r2[i as int];
                                let jb = choose|jb: int| 0 <= jb < cards@.len() && cards@[jb] == r2[k];
                                assert(cards@[ja].wf() && cards@[jb].wf());
                                lemma_jokers_equal(r2[k], r2[i as int]);
                            }
                        }
                    }
                    return None;
                }
                match find_joker(cards) {
                    Some(j) => {
                        let c = cards[j];
                        proof {
                            assert(cards@.contains(cards@[j as int]));
                            assert forall|r2: Seq<Card>|
                                #[trigger] arranges(cards@, r2, ace_high, start as int) implies out@.push(c)
                                == r2.subrange(0, i + 1) by {
                                assert(cards@.contains(r2[i as int]));
                                let jj = choose|jj: int| 0 <= jj < cards@.len() && cards@[jj] == r2[i as int];
                                assert(cards@[jj].wf());
                                if !r2[i as int].is_joker() {
                                    assert(!cards@[jj].is_joker());
                                }
                                lemma_jokers_equal(c, r2[i as int]);
                                assert(r2.subrange(0, i + 1) =~= r2.subrange(0, i as int).push(r2[i as int]));
                            }
                        }
                        out.push(c);
                        joker_used = true;
                    },
                    None => {
                        proof {
                            assert forall|r2: Seq<Card>| !arranges(cards@, r2, ace_high, start as int) by {
                                if arranges(cards@, r2, ace_high, start as int) {
                                    assert(cards@.contains(r2[i as int]));
                                    let jj = choose|jj: int| 0 <= jj < cards@.len() && cards@[jj] == r2[i as int];
                                    assert(!cards@[jj].is_joker());
                                }
                            }
                        }
                        return None;
                    },
                }
            },
        }
        proof {
            assert(out@.subrange(0, i as int) =~= old_out);
            if out@[i as int].is_joker() {
                assert(out@[i as int].is_joker());
            } else {
                assert forall|k: int| 0 <= k < i + 1 && (#[trigger] out@[k]).is_joker() implies (
                exists|k2: int| 0 <= k2 < i && (#[trigger] old_out[k2]).is_joker()) by {
                    assert(old_out[k] == out@[k]);
                }
            }
        }
        i += 1;
    }
    proof {
        assert forall|r2: Seq<Card>|
            #[trigger] arranges(cards@, r2, ace_high, start as int) implies out@ == r2 by {
            assert(r2.subrange(0, n as int) =~= r2);
        }
    }
    let mut k: usize = 0;
    while k < n
        invariant
            n == cards@.len(),
            k <= n,
            forall|m: int| 0 <= m < k ==> out@.contains(#[trigger] cards@[m]),
            forall|r2: Seq<Card>|
                #[trigger] arranges(cards@, r2, ace_high, start as int) ==> out@ == r2,
        decreases n - k,
    {
        if !holds(&out, &cards[k]) {
            proof {
                assert forall|r2: Seq<Card>| !arranges(cards@, r2, ace_high, start as int) by {
                    if arranges(cards@, r2, ace_high, start as int) {
                        assert(cards@.contains(cards@[k as int]));
                    }
                }
            }
            return None;
        }
        k += 1;
    }
    proof {
        assert forall|c: Card| out@.contains(c) <==> cards@.contains(c) by {
            if cards@.contains(c) {
                let m = choose|m: int| 0 <= m < n && cards@[m] == c;
                assert(out@.contains(cards@[m]));
            }
        }
        assert forall|a: Card, b: Card|
            #![trigger out@.contains(a), out@.contains(b)]
            out@.contains(a) && out@.contains(b) && !a.is_joker() && !b.is_joker() implies a.suit
                == b.suit by {
            assert(cards@.contains(a) && cards@.contains(b));
        }
    }
    Some(out)
}

/// Classifies `cards` as a run, the only way to build a `Run` from cards.
///
/// Fewer than three cards, or a card given twice, are rejected first. Cards
/// whose real members share a rank form an equal run of three or four cards,
/// in the order given. Otherwise cards whose real members share a suit form an
/// ascending run when they lay out on consecutive positions (with the ace
/// below the two, or above the king); the layout returned is the first in the
/// order of `tried_before`. Anything else is not a run.
pub fn verify_run(cards: Vec<Card>) -> (r: Result<Run, GameError>)
    requires
        all_wf(cards@),
    ensures
        cards@.len() < 3 ==> r == Err::<Run, GameError>(GameError::TooFewCards),
        cards@.len() >= 3 && !all_distinct(cards@) ==> r == Err::<Run, GameError>(
            GameError::DuplicateCard,
        ),
        cards@.len() >= 3 && all_distinct(cards@) && same_rank(cards@) && cards@.len() <= 4 ==> (
        r matches Ok(Run::Equal(v)) && v@ == cards@),
        cards@.len() >= 3 && all_distinct(cards@) && !(same_rank(cards@) && cards@.len() <= 4)
            && same_suit(cards@) && is_ascending_set(cards@) ==> (r matches Ok(Run::Ascending(v))
            && first_layout(cards@, v@)),
        cards@.len() >= 3 && all_distinct(cards@) && !(same_rank(cards@) && cards@.len() <= 4)
            && same_suit(cards@) && !is_ascending_set(cards@) ==> r == Err::<Run, GameError>(
            GameError::NonConsecutiveRun,
        ),
        cards@.len() >= 3 && all_distinct(cards@) && !(same_rank(cards@) && cards@.len() <= 4)
            && !same_suit(cards@) ==> r == Err::<Run, GameError>(GameError::NotARun),
        r matches Ok(w) ==> w.wf(),
{
    if cards.len() < 3 {
        return Err(GameError::TooFewCards);
    }
    if has_duplicate(&cards) {
        return Err(GameError::DuplicateCard);
    }
    if all_same_rank(&cards) && cards.len() <= 4 {
        return Ok(Run::Equal(cards));
    }
    if !all_same_suit(&cards) {
        return Err(GameError::NotARun);
    }
    match first_arrangement(&cards, false) {
        Some((b, v)) => {
            proof {
                assert(arranges(cards@, v@, false, b as int));
                assert forall|i: int| 0 <= i < v@.len() implies (#[trigger] v@[i]).wf() by {
                    assert(v@.contains(v@[i]));
                    assert(cards@.contains(v@[i]));
                }
                assert(can_arrange(cards@, false, b as int));
                assert(is_ascending_set(cards@));
                assert forall|h2: bool, b2: int| tried_before(h2, b2, false, b as int) implies !can_arrange(
                    cards@,
                    h2,
                    b2,
                ) by {}
            }
            return Ok(Run::Ascending(v));
        },
        None => {},
    }
    match first_arrangement(&cards, true) {
        Some((b, v)) => {
            proof {
                assert(arranges(cards@, v@, true, b as int));
                assert forall|i: int| 0 <= i < v@.len() implies (#[trigger] v@[i]).wf() by {
                    assert(v@.contains(v@[i]));
                    assert(cards@.contains(v@[i]));
                }
                assert(can_arrange(cards@, true, b as int));
                assert(is_ascending_set(cards@));
                assert forall|h2: bool, b2: int| tried_before(h2, b2, true, b as int) implies !can_arrange(
                    cards@,
                    h2,
                    b2,
                ) by {
                    if !h2 {
                        assert(!can_arrange(cards@, false, b2));
                    }
                }
            }
            Ok(Run::Ascending(v))
        },
        None => {
            proof {
                assert forall|h2: bool, b2: int| !can_arrange(cards@, h2, b2) by {
                    if h2 {
                        assert(!can_arrange(cards@, true, b2));
                    } else {
                        assert(!can_arrange(cards@, false, b2));
                    }
                }
            }
            Err(GameError::NonConsecutiveRun)
        },
    }
}

/// The first start from which `cards` lays out as an ascending run, and that
/// layout.
fn first_arrangement(cards: &Vec<Card>, ace_high: bool) -> (r: Option<(u8, Vec<Card>)>)
    requires
        all_wf(cards@),
        all_distinct(cards@),
        same_suit(cards@),
    ensures
        r matches Some((b, v)) ==> arranges(cards@, v@, ace_high, b as int) && forall|b2: int|
            b2 < b ==> !#[trigger] can_arrange(cards@, ace_high, b2),
        r is None ==> forall|b2: int| !#[trigger] can_arrange(cards@, ace_high, b2),
{
    let n = cards.len();
    let low: u8 = if ace_high {
        2
    } else {
        1
    };
    let high: u8 = if ace_high {
        14
    } else {
        13
    };
    if n > 13 {
        return None;
    }
    let mut b: u8 = low;
    while b as usize + n <= high as usize + 1
        invariant
            n == cards@.len(),
            n <= 13,
            low as int == lowest_slot(ace_high),
            high as int == highest_slot(ace_high),
            low <= b <= 16,
            all_wf(cards@),
            all_distinct(cards@),
            same_suit(cards@),
            forall|b2: int| b2 < b ==> !#[trigger] can_arrange(cards@, ace_high, b2),
        decreases 17 - b,
    {
        match arrange(cards, ace_high, b) {
            Some(v) => {
                return Some((b, v));
            },
            None => {},
        }
        b += 1;
    }
    None
}

/// Whether the real cards of `cards` share one rank.
fn all_same_rank(cards: &Vec<Card>) -> (r: bool)
    ensures
        r == same_rank(cards@),
{
    let first = find_real(cards);
    match first {
        None => true,
        Some(f) => {
            let rank = cards[f].card_type;
            let mut j: usize = 0;
            while j < cards.len()
                invariant
                    f < cards@.len(),
                    !cards@[f as int].is_joker(),
                    rank == cards@[f as int].card_type,
                    j <= cards@.len(),
                    forall|k: int|
                        0 <= k < j && !(#[trigger] cards@[k]).is_joker() ==> cards@[k].card_type
                            == rank,
                decreases cards@.len() - j,
            {
                let c = cards[j];
                let is_joker = match c.card_type {
                    CardType::Joker => true,
                    _ => false,
                };
                if !is_joker && c.card_type != rank {
                    proof {
                        assert(cards@.contains(cards@[j as int]));
                        assert(cards@.contains(cards@[f as int]));
                    }
                    return false;
                }
                j += 1;
            }
            true
        },
    }
}

/// Whether the real cards of `cards` share one suit.
fn all_same_suit(cards: &Vec<Card>) -> (r: bool)
    ensures
        r == same_suit(cards@),
{
    let first = find_real(cards);
    match first {
        None => true,
        Some(f) => {
            let suit = cards[f].suit;
            let mut j: usize = 0;
            while j < cards.len()
                invariant
                    f < cards@.len(),
                    !cards@[f as int].is_joker(),
                    suit == cards@[f as int].suit,
                    j <= cards@.len(),
                    forall|k: int|
                        0 <= k < j && !(#[trigger] cards@[k]).is_joker() ==> cards@[k].suit
                            == suit,
                decreases cards@.len() - j,
            {
                let c = cards[j];
                let is_joker = match c.card_type {
                    CardType::Joker => true,
                    _ => false,
                };
                if !is_joker && c.suit != suit {
                    proof {
                        assert(cards@.contains(cards@[j as int]));
                        assert(cards@.contains(cards@[f as int]));
                    }
                    return false;
                }
                j += 1;
            }
            true
        },
    }
}

/// The index of the first card of `cards` that is not a joker.
fn find_real(cards: &Vec<Card>) -> (r: Option<usize>)
    ensures
        r matches Some(j) ==> is_first_real(cards@, j as int),
        r is None ==> forall|j: int| 0 <= j < cards@.len() ==> (#[trigger] cards@[j]).is_joker(),
{
    let mut j: usize = 0;
    while j < cards.len()
        invariant
            j <= cards@.len(),
            forall|k: int| 0 <= k < j ==> (#[trigger] cards@[k]).is_joker(),
        decreases cards@.len() - j,
    {
        match cards[j].card_type {
            CardType::Joker => {},
            _ => {
                return Some(j);
            },
        }
        j += 1;
    }
    None
}

/// Whether some card occurs twice in `cards`.
fn has_duplicate(cards: &Vec<Card>) -> (r: bool)
    ensures
        r == !all_distinct(cards@),
{
    let n = cards.len();
    let mut i: usize = 0;
    while i < n
        invariant
            n == cards@.len(),
            i <= n,
            forall|a: int, b: int| 0 <= a < i && a < b < n ==> cards@[a] != cards@[b],
        decreases n - i,
    {
        let mut j: usize = i + 1;
        while j < n
            invariant
                n == cards@.len(),
                i < n,
                i + 1 <= j <= n,
                forall|a: int, b: int| 0 <= a < i && a < b < n ==> cards@[a] != cards@[b],
                forall|b: int| i < b < j ==> cards@[i as int] != cards@[b],
            decreases n - j,
        {
            if cards[i] == cards[j] {
                return true;
            }
            j += 1;
        }
        i += 1;
    }
    false
}

} // verus!
