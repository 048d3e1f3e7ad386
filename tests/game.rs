use ramino::card::{Card, CardOrdering, CardType, GameError, Suit};
use ramino::hand::Hand;
use ramino::run::{verify_run, Run, RunCoercionStrategy};
use ramino::utils::{generate_deck, generate_single_deck};
use std::cmp::Ordering;

fn card(code: &str) -> Card {
    Card::from_code(code).unwrap()
}

fn cards(codes: &[&str]) -> Vec<Card> {
    codes.iter().map(|s| card(s)).collect()
}

#[test]
fn get_deck() {
    let deck = generate_single_deck(false);
    assert_eq!(deck.len(), 54);
}

#[test]
fn shuffled_deck() {
    let deck = generate_single_deck(true);
    println!("{:?}", deck[0]);
}

#[test]
fn full_deck() {
    let deck = generate_deck(false);
    assert_eq!(deck.len(), 108);
}

#[test]
fn generate_hand() {
    let mut deck = generate_deck(true);
    let _hand = Hand::draw(&mut deck);
}

#[test]
fn hand_score() {
    let hand0 = Hand(vec![]);
    assert_eq!(hand0.score(), 0);

    let hand1 = Hand(vec![card("SA")]);
    assert_eq!(hand1.score(), 1);

    let hand2 = Hand(vec![card("SK"), card("HQ"), card("DJ")]);
    assert_eq!(hand2.score(), 30);

    let hand3 = Hand(vec![card("S8"), card("S9"), card("J")]);
    assert_eq!(hand3.score(), 42);
}

#[test]
fn verify_runs() {
    let test_cards2 = cards(&["SA", "S2", "S3"]);
    assert_eq!(verify_run(test_cards2.clone()), Ok(Run::Ascending(test_cards2.clone())));

    let test_cards3 = cards(&["S2", "D2", "H2"]);
    assert_eq!(verify_run(test_cards3.clone()), Ok(Run::Equal(test_cards3.clone())));

    let test_cards4 = cards(&["S2", "D2", "H3"]);
    assert_eq!(verify_run(test_cards4.clone()), Err(GameError::NotARun));
}

#[test]
fn shuffled_deck_is_a_permutation() {
    let plain = generate_single_deck(false);
    let mut shuffled = generate_single_deck(true);
    assert_ne!(shuffled, plain);
    let mut sorted_plain = plain.clone();
    let key = |c: &Card| format!("{:?}", c);
    sorted_plain.sort_by_key(key);
    shuffled.sort_by_key(key);
    assert_eq!(sorted_plain, shuffled);
}

#[test]
fn full_deck_is_two_single_decks() {
    let deck = generate_deck(false);
    let single = generate_single_deck(false);
    assert_eq!(&deck[..54], &single[..]);
    assert_eq!(&deck[54..], &single[..]);
    assert_eq!(single[0], Card::new(CardType::Ace, Suit::Spades));
    assert_eq!(single[4], Card::new(CardType::Number(2), Suit::Spades));
    assert_eq!(single[13], Card::new(CardType::Ace, Suit::Hearts));
    assert_eq!(single[53], Card::new(CardType::Joker, Suit::JokerSuit));
}

#[test]
fn draw_takes_from_the_end() {
    let mut deck = generate_deck(false);
    let hand = Hand::draw(&mut deck);
    assert_eq!(deck.len(), 95);
    assert_eq!(hand.0.len(), 13);
    assert_eq!(hand.0[0], Card::new(CardType::Joker, Suit::JokerSuit));
    assert_eq!(hand.0[2], Card::new(CardType::Number(10), Suit::Clubs));
    assert_eq!(hand.score(), 100);
}

#[test]
fn card_codes() {
    assert_eq!(card("HX"), Card::new(CardType::Number(10), Suit::Hearts));
    assert_eq!(card("C7"), Card::new(CardType::Number(7), Suit::Clubs));
    assert_eq!(card("DQ"), Card::new(CardType::Queen, Suit::Diamonds));
    assert_eq!(card("J"), Card::new(CardType::Joker, Suit::JokerSuit));
    assert_eq!(Card::from_code("Z2"), Err(GameError::InvalidCardCode));
    assert_eq!(Card::from_code("S1"), Err(GameError::InvalidCardCode));
    assert_eq!(Card::from_code("H"), Err(GameError::InvalidCardCode));
    assert_eq!(Card::from_code("JA"), Err(GameError::InvalidCardCode));
    assert_eq!(Card::from_code("SAX"), Err(GameError::InvalidCardCode));
    assert_eq!(Card::from_code(""), Err(GameError::InvalidCardCode));
}

#[test]
fn card_values() {
    assert_eq!(card("SA").score(), 11);
    assert_eq!(card("SK").score(), 10);
    assert_eq!(card("S7").score(), 7);
    assert_eq!(card("J").score(), 25);
    assert_eq!(card("SA").get_comparison_value(), 1);
    assert_eq!(card("SJ").get_comparison_value(), 11);
    assert_eq!(card("SK").get_comparison_value(), 13);
    assert_eq!(card("J").get_comparison_value(), 99);
    assert_eq!(card("S3").get_distance(&card("S7")), 4);
    assert_eq!(card("SA").get_distance(&card("SK")), 1);
}

#[test]
fn compare_across_suits_is_ill_defined() {
    assert!(matches!(card("S2").compare(&card("H2")), CardOrdering::IllDefined));
    assert!(matches!(card("SA").compare(&card("DK")), CardOrdering::IllDefined));
    assert!(matches!(card("S5").compare(&card("J")), CardOrdering::IllDefined));
}

#[test]
fn compare_within_a_suit_follows_keys() {
    assert!(matches!(card("S2").compare(&card("S9")), CardOrdering::WellDefined(Ordering::Less)));
    assert!(matches!(card("SQ").compare(&card("SJ")), CardOrdering::WellDefined(Ordering::Greater)));
    assert!(matches!(card("S7").compare(&card("S7")), CardOrdering::WellDefined(Ordering::Equal)));
    assert!(matches!(card("SA").compare(&card("S2")), CardOrdering::WellDefined(Ordering::Less)));
}

#[test]
fn compare_ace_and_king() {
    assert!(matches!(card("SA").compare(&card("SK")), CardOrdering::WellDefined(Ordering::Less)));
    assert!(matches!(card("SK").compare(&card("SA")), CardOrdering::WellDefined(Ordering::Greater)));
}

#[test]
fn classify_ascending() {
    let run = cards(&["S2", "S3", "S4"]);
    assert_eq!(verify_run(run.clone()), Ok(Run::Ascending(run)));
    assert_eq!(
        verify_run(cards(&["S4", "S2", "S3"])),
        Ok(Run::Ascending(cards(&["S2", "S3", "S4"])))
    );
}

#[test]
fn classify_wraps_around_the_king() {
    let run = cards(&["SQ", "SK", "SA"]);
    assert_eq!(verify_run(run.clone()), Ok(Run::Ascending(run)));
    assert_eq!(
        verify_run(cards(&["SA", "SK", "SQ"])),
        Ok(Run::Ascending(cards(&["SQ", "SK", "SA"])))
    );
}

#[test]
fn classify_equal() {
    let run = cards(&["S2", "D2", "H2"]);
    assert_eq!(verify_run(run.clone()), Ok(Run::Equal(run)));
}

#[test]
fn classify_errors() {
    assert_eq!(verify_run(cards(&["S2", "D2", "H3"])), Err(GameError::NotARun));
    assert_eq!(verify_run(cards(&["S2", "D2", "S2"])), Err(GameError::DuplicateCard));
    assert_eq!(verify_run(cards(&["S2", "S3"])), Err(GameError::TooFewCards));
    assert_eq!(verify_run(cards(&["S2", "S3", "S5"])), Err(GameError::NonConsecutiveRun));
    assert_eq!(verify_run(cards(&["SK", "SA", "S2"])), Err(GameError::NonConsecutiveRun));
    assert_eq!(verify_run(cards(&["J", "J", "S2"])), Err(GameError::DuplicateCard));
    assert_eq!(
        verify_run(cards(&["S2", "D2", "H2", "C2", "J"])),
        Err(GameError::NotARun)
    );
}

#[test]
fn classify_with_a_joker() {
    assert_eq!(
        verify_run(cards(&["S2", "J", "S4"])),
        Ok(Run::Ascending(cards(&["S2", "J", "S4"])))
    );
    assert_eq!(
        verify_run(cards(&["S4", "S3", "J"])),
        Ok(Run::Ascending(cards(&["J", "S3", "S4"])))
    );
    assert_eq!(
        verify_run(cards(&["SA", "S2", "J"])),
        Ok(Run::Ascending(cards(&["SA", "S2", "J"])))
    );
    assert_eq!(
        verify_run(cards(&["J", "CQ", "HQ"])),
        Ok(Run::Equal(cards(&["J", "CQ", "HQ"])))
    );
    assert_eq!(verify_run(cards(&["S2", "J", "S5"])), Err(GameError::NonConsecutiveRun));
}

fn strategy(highest_possible: bool) -> RunCoercionStrategy {
    RunCoercionStrategy::new(
        true,
        highest_possible,
        [Suit::Clubs, Suit::Diamonds, Suit::Spades, Suit::Hearts],
    )
}

#[test]
fn coerce_without_jokers_is_identity() {
    let asc = verify_run(cards(&["S2", "S3", "S4"])).unwrap();
    assert_eq!(asc.coerce_to_real(strategy(true)), Ok(Run::Ascending(cards(&["S2", "S3", "S4"]))));
    let eq = verify_run(cards(&["S2", "D2", "H2"])).unwrap();
    assert_eq!(eq.coerce_to_real(strategy(false)), Ok(Run::Equal(cards(&["S2", "D2", "H2"]))));
}

#[test]
fn coerce_ascending_open_end() {
    let run = verify_run(cards(&["J", "S3", "S4"])).unwrap();
    assert_eq!(run.coerce_to_real(strategy(false)), Ok(Run::Ascending(cards(&["S2", "S3", "S4"]))));
    assert_eq!(run.coerce_to_real(strategy(true)), Ok(Run::Ascending(cards(&["S3", "S4", "S5"]))));
    let top = verify_run(cards(&["J", "SK", "SA"])).unwrap();
    assert_eq!(top.coerce_to_real(strategy(true)), Ok(Run::Ascending(cards(&["SQ", "SK", "SA"]))));
}

#[test]
fn coerce_ascending_gap() {
    let run = verify_run(cards(&["S9", "J", "SJ"])).unwrap();
    assert_eq!(run.coerce_to_real(strategy(true)), Ok(Run::Ascending(cards(&["S9", "SX", "SJ"]))));
}

#[test]
fn coerce_equal_takes_preferred_free_suit() {
    let run = verify_run(cards(&["J", "CQ", "HQ"])).unwrap();
    assert_eq!(run.coerce_to_real(strategy(false)), Ok(Run::Equal(cards(&["DQ", "CQ", "HQ"]))));
    let default = RunCoercionStrategy::default();
    assert_eq!(run.coerce_to_real(default), Ok(Run::Equal(cards(&["SQ", "CQ", "HQ"]))));
}

#[test]
fn run_scores() {
    let run = verify_run(cards(&["SJ", "SQ", "SK"])).unwrap();
    assert_eq!(run.get_score(strategy(true)), Ok(30));
    let run = verify_run(cards(&["S8", "S9", "J"])).unwrap();
    assert_eq!(run.get_score(strategy(true)), Ok(27));
    assert_eq!(run.get_score(strategy(false)), Ok(24));
    let run = verify_run(cards(&["SA", "DA", "HA", "J"])).unwrap();
    assert_eq!(run.get_score(strategy(true)), Ok(44));
}

#[test]
fn score_ignores_order() {
    let a = Hand(cards(&["SK", "HQ", "DJ", "C4"]));
    let b = Hand(cards(&["C4", "DJ", "SK", "HQ"]));
    assert_eq!(a.score(), b.score());
    assert_eq!(a.score(), 34);
    let r1 = verify_run(cards(&["SJ", "SQ", "SK"])).unwrap();
    let r2 = verify_run(cards(&["SK", "SJ", "SQ"])).unwrap();
    assert_eq!(r1.get_score(strategy(true)), r2.get_score(strategy(true)));
}
