//! Building decks of cards.
use vstd::prelude::*;
use rand::seq::SliceRandom;
use crate::card::{Card, CardType, Suit};

verus! {

/// The thirteen cards of one suit, in the order ace, king, queen, jack, then
/// two to ten.
pub open spec fn suit_block(suit: Suit) -> Seq<Card> {
    seq![
        Card { card_type: CardType::Ace, suit },
        Card { card_type: CardType::King, suit },
        Card { card_type: CardType::Queen, suit },
        Card { card_type: CardType::Jack, suit },
    ] + Seq::new(9, |i: int| Card { card_type: CardType::Number((i + 2) as u8), suit })
}

/// The joker card.
pub open spec fn joker() -> Card {
    Card { card_type: CardType::Joker, suit: Suit::JokerSuit }
}

/// A deck in standard order: spades, hearts, diamonds and clubs, then two
/// jokers.
pub open spec fn single_deck() -> Seq<Card> {
    suit_block(Suit::Spades) + suit_block(Suit::Hearts) + suit_block(Suit::Diamonds) + suit_block(
        Suit::Clubs,
    ) + seq![joker(), joker()]
}

/// Relies on rand's `SliceRandom::shuffle`, driven by `thread_rng`: it
/// permutes the cards in place (swaps only), so the same cards remain.
#[verifier::external_body]
fn shuffle_cards(deck: &mut Vec<Card>)
    ensures
        final(deck)@.len() == old(deck)@.len(),
        final(deck)@.to_multiset() == old(deck)@.to_multiset(),
{
    deck.shuffle(&mut rand::thread_rng());
}

/// Appends the thirteen cards of `suit` to `deck`.
fn push_suit(deck: &mut Vec<Card>, suit: Suit)
    ensures
        final(deck)@ == old(deck)@ + suit_block(suit),
{
    deck.push(Card { card_type: CardType::Ace, suit });
    deck.push(Card { card_type: CardType::King, suit });
    deck.push(Card { card_type: CardType::Queen, suit });
    deck.push(Card { card_type: CardType::Jack, suit });
    let ghost before = old(deck)@;
    let mut i: u8 = 2;
    while i < 11
        invariant
            2 <= i <= 11,
            deck@ == before + suit_block(suit).subrange(0, i as int + 2),
        decreases 11 - i,
    {
        deck.push(Card { card_type: CardType::Number(i), suit });
        proof {
            assert(suit_block(suit).subrange(0, i as int + 3) =~= suit_block(suit).subrange(
                0,
                i as int + 2,
            ).push(Card { card_type: CardType::Number(i), suit }));
        }
        i += 1;
    }
    proof {
        assert(suit_block(suit).subrange(0, 13) =~= suit_block(suit));
    }
}

/// A deck of the 52 cards and two jokers, in standard order, or shuffled
/// when `shuffled` is set.
pub fn generate_single_deck(shuffled: bool) -> (r: Vec<Card>)
    ensures
        r@.len() == 54,
        !shuffled ==> r@ == single_deck(),
        r@.to_multiset() == single_deck().to_multiset(),
{
    let mut deck: Vec<Card> = Vec::new();
    push_suit(&mut deck, Suit::Spades);
    push_suit(&mut deck, Suit::Hearts);
    push_suit(&mut deck, Suit::Diamonds);
    push_suit(&mut deck, Suit::Clubs);
    deck.push(Card { card_type: CardType::Joker, suit: Suit::JokerSuit });
    deck.push(Card { card_type: CardType::Joker, suit: Suit::JokerSuit });
    proof {
        assert(deck@ =~= single_deck());
    }
    if shuffled {
        shuffle_cards(&mut deck);
    }
    deck
}

/// The full playing deck: two single decks, one after the other, each
/// shuffled on its own when `shuffled` is set.
pub fn generate_deck(shuffled: bool) -> (r: Vec<Card>)
    ensures
        r@.len() == 108,
        !shuffled ==> r@ == single_deck() + single_deck(),
        r@.to_multiset() == (single_deck() + single_deck()).to_multiset(),
{
    let mut deck = generate_single_deck(shuffled);
    let mut other = generate_single_deck(shuffled);
    let ghost a = deck@;
    let ghost b = other@;
    deck.append(&mut other);
    proof {
        vstd::seq_lib::lemma_multiset_commutative(a, b);
        vstd::seq_lib::lemma_multiset_commutative(single_deck(), single_deck());
    }
    deck
}

} // verus!
