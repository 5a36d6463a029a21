use flip_seven::deck::Deck;
use flip_seven::hand::Hand;

fn snapshot(deck: &Deck) -> String {
    let cards: Vec<i8> = (0..22).map(|c| deck.get_remaining_card(c)).collect();
    format!("remaining={}\n {:?}", deck.get_total_remaining(), cards)
}

#[test]
fn new_deck() {
    let deck = Deck::new(123);
    assert_eq!(
        snapshot(&deck),
        "remaining=94\n [1, 1, 2, 3, 4, 5, 6, 7, 8, 9, 10, 11, 12, 1, 1, 1, 1, 1, 1, 3, 3, 3]"
    );
}

#[test]
fn discard() {
    let mut deck = Deck::new(123);
    deck.discard(0);
    deck.discard(1);
    deck.discard(12);
    assert_eq!(
        snapshot(&deck),
        "remaining=91\n [0, 0, 2, 3, 4, 5, 6, 7, 8, 9, 10, 11, 11, 1, 1, 1, 1, 1, 1, 3, 3, 3]"
    );
}

#[test]
fn draw() {
    let mut deck = Deck::new(123);
    let mut drawn_cards = String::new();
    for _i in 1..23 {
        drawn_cards.push_str(&format!("{} ", deck.draw().to_string()))
    }
    let output = snapshot(&deck) + "\n" + &drawn_cards;
    assert_eq!(
        output,
        "remaining=72\n [1, 1, 2, 1, 4, 4, 6, 7, 7, 7, 7, 7, 7, 1, 1, 1, 1, 1, 0, 2, 2, 2]\n11 12 11 10 3 10 12 19 20 11 12 9 21 8 11 9 5 3 18 12 10 12 "
    );
}

#[test]
fn reshuffle() {
    let mut deck = Deck::new(123);
    for _ in 1..23 {
        deck.draw();
    }
    let mut hand = Hand::empty();
    hand = hand.with(0);
    hand = hand.with(12);
    hand = hand.with(18);
    let hands: Vec<Hand> = vec![hand];
    deck.reshuffle(&hands);
    assert_eq!(
        snapshot(&deck),
        "remaining=91\n [0, 1, 2, 3, 4, 5, 6, 7, 8, 9, 10, 11, 11, 1, 1, 1, 1, 1, 0, 3, 3, 3]"
    );
}

#[test]
fn discard_refuses_missing_or_special_cards() {
    let mut deck = Deck::new(1);
    assert!(deck.discard(0));
    assert!(!deck.discard(0));
    assert!(!deck.discard(13));
    assert!(!deck.discard(40));
    assert_eq!(deck.get_total_remaining(), 93);
}

#[test]
fn take_card_at_walks_the_layout() {
    let mut deck = Deck::new(9);
    // layout: 0 | 1 | 2 2 | 3 3 3 | ...
    assert_eq!(deck.take_card_at(0), 0);
    assert_eq!(deck.get_remaining_card(0), 0);
    // now: 1 | 2 2 | 3 3 3 ...
    assert_eq!(deck.take_card_at(0), 1);
    assert_eq!(deck.take_card_at(1), 2);
    assert_eq!(deck.take_card_at(1), 3);
    assert_eq!(deck.get_total_remaining(), 90);
    // the last position is the last action card
    assert_eq!(deck.take_card_at(89), 21);
}

#[test]
fn drawing_the_whole_deck_empties_it() {
    let mut deck = Deck::new(5);
    let mut counts = [0i32; 22];
    for _ in 0..94 {
        counts[deck.draw()] += 1;
    }
    assert_eq!(deck.get_total_remaining(), 0);
    assert_eq!(counts, [1, 1, 2, 3, 4, 5, 6, 7, 8, 9, 10, 11, 12, 1, 1, 1, 1, 1, 1, 3, 3, 3]);
}

#[test]
fn remaining_card_past_the_end_is_zero() {
    let deck = Deck::new(3);
    assert_eq!(deck.get_remaining_card(22), 0);
    assert_eq!(deck.get_remaining_card(19), 3);
}

#[test]
fn reshuffle_leaves_out_held_cards_of_every_hand() {
    let mut deck = Deck::new(4);
    let a = Hand::empty().with(5).with(13).with(20);
    let b = Hand::empty().with(5).with(6);
    deck.reshuffle(&vec![a, b]);
    assert_eq!(deck.get_remaining_card(5), 3);
    assert_eq!(deck.get_remaining_card(6), 5);
    assert_eq!(deck.get_remaining_card(13), 0);
    assert_eq!(deck.get_remaining_card(20), 3);
    assert_eq!(deck.get_total_remaining(), 90);
}

#[test]
fn reshuffle_counts_below_zero_when_hands_hold_too_many() {
    let mut deck = Deck::new(5);
    let a = Hand::empty().with(0).with(13);
    let b = Hand::empty().with(0).with(13).with(1);
    deck.reshuffle(&vec![a, b]);
    assert_eq!(deck.get_remaining_card(0), -1);
    assert_eq!(deck.get_remaining_card(13), -1);
    assert_eq!(deck.get_remaining_card(1), 0);
    assert_eq!(deck.get_total_remaining(), 89);
}
