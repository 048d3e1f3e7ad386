//! Cards: the `CardType`, `Suit` and `CardOrdering` enums and the `Card` struct,
//! together with the suit-scoped partial ordering between cards.
use std::cmp::Ordering;
use vstd::prelude::*;
use vstd::string::*;

verus! {

/// The rank of a card. `Number(n)` is only meaningful for `2 <= n <= 10`
/// (see `CardType::wf`); the ace is a variant of its own.
#[derive(Debug, Clone, Copy, PartialEq, Eq, Structural)]
pub enum CardType {
    Number(u8),
    Jack,
    Queen,
    King,
    Ace,
    Joker,
}

/// The suit of a card. `JokerSuit` is carried by jokers only.
#[derive(Debug, Clone, Copy, PartialEq, Eq, Structural)]
pub enum Suit {
    Spades,
    Diamonds,
    Clubs,
    Hearts,
    JokerSuit,
}

/// A playing card: a rank and a suit, with value semantics.
#[derive(Debug, Clone, Copy, PartialEq, Eq, Structural)]
pub struct Card {
    pub card_type: CardType,
    pub suit: Suit,
}

/// The result of comparing two cards: a linear `Ordering` where one makes
/// sense, and `IllDefined` for cards of different suits or jokers.
#[derive(Debug, Clone, Copy)]
pub enum CardOrdering {
    WellDefined(Ordering),
    IllDefined,
}

/// The ways in which a rule of the game can reject its input.
#[derive(Debug, Clone, Copy, PartialEq, Eq, Structural)]
pub enum GameError {
    /// A run was given fewer than three cards.
    TooFewCards,
    /// A run was given the same card twice.
    DuplicateCard,
    /// Cards of one rank repeat a suit. Two such cards are one card given
    /// twice, which `verify_run` reports first as `DuplicateCard`.
    DuplicateSuitInEqualRun,
    /// Cards of one suit leave a gap that jokers cannot fill.
    NonConsecutiveRun,
    /// The cards form neither kind of run.
    NotARun,
    /// A joker cannot be given a card to stand for. `coerce_to_real` proves
    /// that this does not happen to a well-formed run and strategy.
    UnresolvableJoker,
    /// A card code is malformed.
    InvalidCardCode,
}

/// The sentinel comparison key of a joker, above every real key.
pub const JOKER_KEY: u8 = 99;

impl CardType {
    /// A numbered rank lies in `2..=10`.
    pub open spec fn wf(self) -> bool {
        match self {
            CardType::Number(n) => 2 <= n <= 10,
            _ => true,
        }
    }
}

impl Card {
    /// A card is well formed when its rank is, and it carries `JokerSuit`
    /// exactly when it is a joker.
    pub open spec fn wf(self) -> bool {
        &&& self.card_type.wf()
        &&& (self.card_type == CardType::Joker <==> self.suit == Suit::JokerSuit)
    }

    pub open spec fn is_joker(self) -> bool {
        self.card_type == CardType::Joker
    }

    /// The comparison key: ace 1, numbers their value, jack 11, queen 12,
    /// king 13, joker a sentinel above all of them.
    pub open spec fn key(self) -> nat {
        match self.card_type {
            CardType::Ace => 1,
            CardType::Number(n) => n as nat,
            CardType::Jack => 11,
            CardType::Queen => 12,
            CardType::King => 13,
            CardType::Joker => JOKER_KEY as nat,
        }
    }

    /// The points a card is worth: numbers their value, ace 11, joker 25,
    /// jack, queen and king 10.
    pub open spec fn points(self) -> nat {
        match self.card_type {
            CardType::Number(n) => n as nat,
            CardType::Ace => 11,
            CardType::Joker => 25,
            _ => 10,
        }
    }

    /// The distance from `self` to a card that follows it in a sorted run,
    /// with the ace adjacent to the king.
    pub open spec fn distance(self, other: Card) -> int {
        if self.key() == 1 && other.key() == 13 {
            1
        } else {
            other.key() - self.key()
        }
    }

    /// What `compare` returns.
    pub open spec fn compare_spec(self, other: Card) -> CardOrdering {
        if self.suit != other.suit {
            CardOrdering::IllDefined
        } else if self.key() == 1 && other.key() == 13 {
            CardOrdering::WellDefined(Ordering::Less)
        } else if self.key() == 13 && other.key() == 1 {
            CardOrdering::WellDefined(Ordering::Greater)
        } else if self.is_joker() || other.is_joker() {
            CardOrdering::IllDefined
        } else {
            CardOrdering::WellDefined(ordering_of(self.key() as int, other.key() as int))
        }
    }

    /// Creates a new card from a well-formed rank and suit.
    pub fn new(card_type: CardType, suit: Suit) -> (r: Self)
        requires
            (Card { card_type, suit }).wf(),
        ensures
            r == (Card { card_type, suit }),
            r.wf(),
    {
        Card { card_type, suit }
    }

    /// Reads a card from its two-character code: the suit (`H`, `C`, `D`,
    /// `S`, or `J` for the joker), then the rank (`A`, `J`, `Q`, `K`, `2` to
    /// `9`, `X` for ten, nothing for the joker).
    pub fn from_code(code: &str) -> (r: Result<Card, GameError>)
        ensures
            card_of_code(code@) matches Some(c) ==> r == Ok::<Card, GameError>(c),
            card_of_code(code@) is None ==> r == Err::<Card, GameError>(GameError::InvalidCardCode),
    {
        let n = code.unicode_len();
        if n < 1 || n > 2 {
            return Err(GameError::InvalidCardCode);
        }
        let suit = suit_from_char(code.get_char(0));
        let rank = if n == 2 {
            rank_from_char(code.get_char(1))
        } else {
            Some(CardType::Joker)
        };
        match (suit, rank) {
            (Some(suit), Some(card_type)) => {
                let joker_rank = match card_type {
                    CardType::Joker => true,
                    _ => false,
                };
                let joker_suit = match suit {
                    Suit::JokerSuit => true,
                    _ => false,
                };
                if joker_rank == joker_suit {
                    Ok(Card { card_type, suit })
                } else {
                    Err(GameError::InvalidCardCode)
                }
            },
            _ => Err(GameError::InvalidCardCode),
        }
    }

    /// The score of a single card. An ace counts 11 here; the rule that a
    /// lone ace counts one belongs to `Hand::score`.
    pub fn score(&self) -> (r: u8)
        ensures
            r as nat == self.points(),
    {
        match self.card_type {
            CardType::Number(n) => n,
            CardType::Ace => 11,
            CardType::Joker => 25,
            _ => 10,
        }
    }

    /// The raw comparison key.
    pub fn get_comparison_value(&self) -> (r: u8)
        ensures
            r as nat == self.key(),
    {
        match self.card_type {
            CardType::Ace => 1,
            CardType::Number(n) => n,
            CardType::Jack => 11,
            CardType::Queen => 12,
            CardType::King => 13,
            CardType::Joker => JOKER_KEY,
        }
    }

    /// The distance between two cards, the ace being adjacent to the king.
    /// `self` is the lower of the two in a sorted run.
    pub fn get_distance(&self, other: &Self) -> (r: u8)
        requires
            (self.key() == 1 && other.key() == 13) || self.key() <= other.key(),
        ensures
            r as int == self.distance(*other),
    {
        let self_val = self.get_comparison_value();
        let other_val = other.get_comparison_value();
        if self_val == 1 && other_val == 13 {
            1
        } else {
            other_val - self_val
        }
    }

    /// Compares two cards: ill defined across suits and for jokers, the ace
    /// directly below the king, and otherwise by comparison key.
    pub fn compare(&self, other: &Self) -> (r: CardOrdering)
        requires
            self.wf(),
            other.wf(),
        ensures
            r == self.compare_spec(*other),
            self.suit != other.suit ==> r == CardOrdering::IllDefined,
            self.suit == other.suit && !self.is_joker() && !other.is_joker() && !(self.key()
                == 1 && other.key() == 13) && !(self.key() == 13 && other.key() == 1) ==> r
                == CardOrdering::WellDefined(ordering_of(self.key() as int, other.key() as int)),
    {
        if self.suit == other.suit {
            let self_val = self.get_comparison_value();
            let other_val = other.get_comparison_value();
            if self_val == 1 && other_val == 13 {
                return CardOrdering::WellDefined(Ordering::Less);
            }
            if self_val == 13 && other_val == 1 {
                return CardOrdering::WellDefined(Ordering::Greater);
            }
            if self_val == JOKER_KEY || other_val == JOKER_KEY {
                return CardOrdering::IllDefined;
            }
            return CardOrdering::WellDefined(compare_keys(self_val, other_val));
        }
        CardOrdering::IllDefined
    }
}

/// The suit that a code's first character selects.
pub open spec fn suit_of_char(c: char) -> Option<Suit> {
    if c == 'H' {
        Some(Suit::Hearts)
    } else if c == 'C' {
        Some(Suit::Clubs)
    } else if c == 'D' {
        Some(Suit::Diamonds)
    } else if c == 'S' {
        Some(Suit::Spades)
    } else if c == 'J' {
        Some(Suit::JokerSuit)
    } else {
        None
    }
}

/// The rank that a code's second character selects (`X` is the ten).
pub open spec fn rank_of_char(c: char) -> Option<CardType> {
    if c == 'A' {
        Some(CardType::Ace)
    } else if c == 'J' {
        Some(CardType::Jack)
    } else if c == 'Q' {
        Some(CardType::Queen)
    } else if c == 'K' {
        Some(CardType::King)
    } else if c == 'X' {
        Some(CardType::Number(10))
    } else if '2' <= c <= '9' {
        Some(CardType::Number(((c as u32) - ('0' as u32)) as u8))
    } else {
        None
    }
}

/// The card that a code of one or two characters names: a suit character,
/// then a rank character, or none for the joker. Only well-formed cards are
/// named.
pub open spec fn card_of_code(s: Seq<char>) -> Option<Card> {
    if s.len() < 1 || s.len() > 2 {
        None
    } else {
        let rank = if s.len() == 2 {
            rank_of_char(s[1])
        } else {
            Some(CardType::Joker)
        };
        match (suit_of_char(s[0]), rank) {
            (Some(suit), Some(card_type)) => {
                let c = Card { card_type, suit };
                if c.wf() {
                    Some(c)
                } else {
                    None
                }
            },
            _ => None,
        }
    }
}

fn suit_from_char(c: char) -> (r: Option<Suit>)
    ensures
        r == suit_of_char(c),
{
    match c {
        'H' => Some(Suit::Hearts),
        'C' => Some(Suit::Clubs),
        'D' => Some(Suit::Diamonds),
        'S' => Some(Suit::Spades),
        'J' => Some(Suit::JokerSuit),
        _ => None,
    }
}

fn rank_from_char(c: char) -> (r: Option<CardType>)
    ensures
        r == rank_of_char(c),
{
    match c {
        'A' => Some(CardType::Ace),
        'J' => Some(CardType::Jack),
        'Q' => Some(CardType::Queen),
        'K' => Some(CardType::King),
        'X' => Some(CardType::Number(10)),
        _ => {
            if '2' <= c && c <= '9' {
                Some(CardType::Number(((c as u32) - ('0' as u32)) as u8))
            } else {
                None
            }
        },
    }
}

/// The linear ordering of two integers.
pub open spec fn ordering_of(a: int, b: int) -> Ordering {
    if a < b {
        Ordering::Less
    } else if a == b {
        Ordering::Equal
    } else {
        Ordering::Greater
    }
}

fn compare_keys(a: u8, b: u8) -> (r: Ordering)
    ensures
        r == ordering_of(a as int, b as int),
{
    if a < b {
        Ordering::Less
    } else if a == b {
        Ordering::Equal
    } else {
        Ordering::Greater
    }
}

} // verus!
