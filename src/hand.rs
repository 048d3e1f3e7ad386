//! The cards that a player holds.
use vstd::prelude::*;
use crate::HAND_SIZE;
use crate::card::{Card, CardType};
use crate::run::sum_points;

verus! {

/// The cards that a player holds.
pub struct Hand(pub Vec<Card>);

/// What a hand of cards `s` scores: 100 for a full hand that was never
/// played from, 1 for a lone ace, and otherwise the points of its cards.
pub open spec fn hand_score(s: Seq<Card>) -> nat {
    if s.len() == HAND_SIZE as nat {
        100
    } else if s.len() == 1 && s[0].card_type == CardType::Ace {
        1
    } else {
        sum_points(s)
    }
}

/// The points of a prefix are at most the points of the whole.
proof fn lemma_prefix_points(s: Seq<Card>, i: int)
    requires
        0 <= i <= s.len(),
    ensures
        sum_points(s.subrange(0, i)) <= sum_points(s),
    decreases s.len(),
{
    if i < s.len() {
        assert(s.drop_last().subrange(0, i) =~= s.subrange(0, i));
        lemma_prefix_points(s.drop_last(), i);
    } else {
        assert(s.subrange(0, i) =~= s);
    }
}

impl Hand {
    /// Deals a hand of thirteen cards off the top (the end) of `deck`; the
    /// first card of the hand is the last card of the deck.
    pub fn draw(deck: &mut Vec<Card>) -> (r: Self)
        requires
            old(deck)@.len() >= HAND_SIZE,
        ensures
            final(deck)@ == old(deck)@.subrange(0, old(deck)@.len() - HAND_SIZE),
            r.0@.len() == HAND_SIZE,
            forall|i: int|
                0 <= i < HAND_SIZE ==> #[trigger] r.0@[i] == old(deck)@[old(deck)@.len() - 1 - i],
    {
        let ghost start = deck@;
        let mut cards: Vec<Card> = Vec::new();
        let mut i: u8 = 0;
        while i < HAND_SIZE
            invariant
                start.len() >= HAND_SIZE,
                i <= HAND_SIZE,
                deck@ == start.subrange(0, start.len() - i),
                cards@.len() == i,
                forall|k: int| 0 <= k < i ==> #[trigger] cards@[k] == start[start.len() - 1 - k],
            decreases HAND_SIZE - i,
        {
            let c = deck.pop().unwrap();
            cards.push(c);
            proof {
                assert(deck@ =~= start.subrange(0, start.len() - (i + 1)));
            }
            i += 1;
        }
        Hand(cards)
    }

    /// The score of the hand: 100 while it still holds thirteen cards, 1 for
    /// a lone ace, and otherwise the sum of the scores of its cards.
    pub fn score(&self) -> (r: u8)
        requires
            self.0@.len() != HAND_SIZE && !(self.0@.len() == 1 && self.0@[0].card_type
                == CardType::Ace) ==> sum_points(self.0@) <= 255,
        ensures
            r as nat == hand_score(self.0@),
    {
        let cards = &self.0;
        if cards.len() == HAND_SIZE as usize {
            return 100;
        }
        if cards.len() == 1 {
            match cards[0].card_type {
                CardType::Ace => {
                    return 1;
                },
                _ => {},
            }
        }
        let mut total: u8 = 0;
        let mut i: usize = 0;
        while i < cards.len()
            invariant
                i <= cards@.len(),
                sum_points(cards@) <= 255,
                total as nat == sum_points(cards@.subrange(0, i as int)),
            decreases cards@.len() - i,
        {
            proof {
                assert(cards@.subrange(0, i + 1).drop_last() =~= cards@.subrange(0, i as int));
                lemma_prefix_points(cards@, i + 1);
            }
            total = total + cards[i].score();
            i += 1;
        }
        proof {
            assert(cards@.subrange(0, i as int) =~= cards@);
        }
        total
    }
}

} // verus!
