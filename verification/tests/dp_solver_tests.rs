use flip_seven::action::{Action, Ratio, Recommendation};
use flip_seven::deck::Deck;
use flip_seven::dp_solver::recommend;
use flip_seven::hand::Hand;

fn value(r: &Option<Ratio>) -> f64 {
    let r = r.unwrap();
    r.num as f64 / r.den as f64
}

fn snapshot(rec: &Recommendation) -> String {
    let action = match rec.action {
        Action::Hit(_) => "HIT",
        Action::Stay => "STAY",
    };
    format!(
        "Recommendation= [{}]\nDetails= Hit: {:.2} vs Stay: {:.2}",
        action,
        value(&rec.hit),
        value(&rec.stay),
    )
}

#[test]
fn empty_hand() {
    let hand = Hand::empty();
    let deck = Deck::new(123);
    let recommendation = recommend(hand, &deck);
    assert_eq!(
        snapshot(&recommendation),
        "Recommendation= [HIT]\nDetails= Hit: 17.67 vs Stay: 0.00"
    );
}

#[test]
fn empty_hand_weighs_number_cards_only() {
    let r = recommend(Hand::empty(), &Deck::new(5));
    assert_eq!(r.hit.unwrap().den, 79u128.pow(7));
}

#[test]
fn seven_cards() {
    let mut hand = Hand::empty();
    let mut deck = Deck::new(123);
    for i in 0..7 {
        hand = hand.with(i);
        deck.draw();
    }
    let recommendation = recommend(hand, &deck);
    assert_eq!(
        snapshot(&recommendation),
        "Recommendation= [STAY]\nDetails= Hit: 36.00 vs Stay: 36.00"
    );
}

#[test]
fn three_dealt_cards() {
    let mut hand = Hand::empty();
    let mut deck = Deck::new(123);
    hand = hand.with(deck.draw());
    hand = hand.with(deck.draw());
    hand = hand.with(deck.draw());
    // seed 123 deals 11, 12, 11
    assert_eq!(hand, Hand::empty().with(11).with(12));
    let recommendation = recommend(hand, &deck);
    assert_eq!(
        snapshot(&recommendation),
        "Recommendation= [STAY]\nDetails= Hit: 23.00 vs Stay: 23.00"
    );
}

#[test]
fn seven_card_hand_stays_with_exact_values() {
    let mut hand = Hand::empty();
    for i in 0..7 {
        hand = hand.with(i);
    }
    let r = recommend(hand, &Deck::new(1));
    assert_eq!(r.action, Action::Stay);
    assert_eq!(r.hit, Some(Ratio { num: 36, den: 1 }));
    assert_eq!(r.stay, Some(Ratio { num: 36, den: 1 }));
}

#[test]
fn one_card_short_of_seven() {
    // six number cards: hitting either completes the hand or busts
    let mut hand = Hand::empty();
    for i in 7..13 {
        hand = hand.with(i);
    }
    let deck = Deck::new(1);
    let r = recommend(hand, &deck);
    // stay: 57; hit: sum over cards 0..6 not held of count * (57 + c + 15) / 79
    let hit_num: u128 = (0..7u128).map(|c| [1u128, 1, 2, 3, 4, 5, 6][c as usize] * (57 + c + 15)).sum();
    assert_eq!(r.hit, Some(Ratio { num: hit_num.max(57 * 79), den: 79 }));
    assert_eq!(r.stay, Some(Ratio { num: 57, den: 1 }));
    assert_eq!(r.action, if hit_num > 57 * 79 { Action::Hit(None) } else { Action::Stay });
}

#[test]
fn short_deck_is_replaced_by_a_fresh_one() {
    let mut deck = Deck::new(7);
    while deck.get_total_remaining() > 3 {
        deck.draw();
    }
    let hand = Hand::empty();
    let r = recommend(hand, &deck);
    let fresh = recommend(hand, &Deck::new(99));
    assert_eq!(r.hit, fresh.hit);
    assert_eq!(r.action, fresh.action);
}

#[test]
fn hit_value_never_below_stay_value() {
    let mut deck = Deck::new(321);
    let mut hand = Hand::empty();
    for _ in 0..4 {
        let r = recommend(hand, &deck);
        assert!(value(&r.hit) >= value(&r.stay));
        let c = deck.draw();
        if c < 13 {
            hand = hand.with(c);
        }
    }
}
