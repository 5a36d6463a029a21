use flip_seven::hand::Hand;

fn snapshot(hand: Hand) -> String {
    format!(
        "[{}]\nlen={}\nScore={}",
        hand.get_cards_in_hand(),
        hand.len(),
        hand.score(),
    )
}

#[test]
fn new_hand() {
    let hand = Hand::empty();
    assert_eq!(snapshot(hand), "[]\nlen=0\nScore=0");
}

#[test]
fn add_cards() {
    let mut hand = Hand::empty();
    hand = hand.with(2);
    hand = hand.with(3);
    hand = hand.with(5);
    assert_eq!(snapshot(hand), "[2 3 5 ]\nlen=3\nScore=10");
}

#[test]
fn seven_card_bonus() {
    let mut hand = Hand::empty();
    for i in 0..7 {
        hand = hand.with(i);
    }
    assert_eq!(snapshot(hand), "[0 1 2 3 4 5 6 ]\nlen=7\nScore=36");
}

#[test]
fn with_makes_copy() {
    let mut hand = Hand::empty();
    hand = hand.with(4);
    let new_hand = hand.with(5);
    let output = snapshot(hand) + &snapshot(new_hand);
    assert_eq!(output, "[4 ]\nlen=1\nScore=4[4 5 ]\nlen=2\nScore=9");
}

#[test]
fn modifiers_add_to_score() {
    let hand = Hand::empty().with(13).with(14).with(15).with(16).with(17).with(18);
    assert_eq!(snapshot(hand), "[+2 +4 +6 +8 +10 x2]\nlen=0\nScore=30");
}

#[test]
fn multiplier_effects_base_score_only() {
    let hand = Hand::empty().with(2).with(3).with(13).with(14).with(18);
    assert_eq!(snapshot(hand), "[2 3 +2 +4 x2]\nlen=2\nScore=16");
}

#[test]
fn hand_never_exceeds_seven_number_cards() {
    let mut hand = Hand::empty();
    for card in [0usize, 3, 3, 12, 7, 1, 9, 11, 2, 5, 4, 6, 8, 10] {
        hand = hand.with(card);
        assert!(hand.len() <= 7);
    }
    assert_eq!(hand.len(), 7);
    assert!(!hand.contains(2));
}

#[test]
fn full_hand_refuses_a_new_number_card_but_keeps_held_ones() {
    let mut hand = Hand::empty();
    for i in 0..7 {
        hand = hand.with(i);
    }
    assert_eq!(hand.with(9), hand);
    assert_eq!(hand.with(3), hand);
    // a modifier is refused too when the hand is full and lacks it
    assert_eq!(hand.with(13), hand);
}

#[test]
fn duplicates_are_idempotent() {
    for card in 0..13usize {
        let hand = Hand::empty().with(card);
        let again = hand.with(card);
        assert_eq!(again.len(), hand.len());
        assert_eq!(again, hand);
    }
}

#[test]
fn contains_reports_added_cards() {
    let cards = [1usize, 4, 9, 12, 0];
    let mut hand = Hand::empty();
    for &c in &cards {
        hand = hand.with(c);
    }
    for &c in &cards {
        assert!(hand.contains(c));
    }
    assert!(!hand.contains(2));
    assert!(!hand.contains(18));
}

#[test]
fn score_is_sum_of_numbers_plus_bonus() {
    let hand = Hand::empty().with(12).with(11).with(10).with(9).with(8).with(7);
    assert_eq!(hand.score(), 57);
    let full = hand.with(6);
    assert_eq!(full.score(), 63 + 15);
}

#[test]
fn multiplier_doubles_base_score() {
    let base = Hand::empty().with(5).with(7).with(11);
    assert_eq!(base.with(18).score(), 2 * base.score());
}

#[test]
fn multiplier_doubles_only_base_score() {
    let base = Hand::empty().with(1).with(6).with(6).with(10).with(2).with(0);
    for m in 13..18usize {
        let with_mod = base.with(m);
        let doubled = with_mod.with(18);
        assert_eq!(doubled.score() - with_mod.score(), base.score());
    }
}

#[test]
fn modifier_adds_its_value() {
    let base = Hand::empty().with(3);
    assert_eq!(base.with(13).score(), 5);
    assert_eq!(base.with(17).score(), 13);
}

#[test]
fn best_hand_scores_171() {
    // modifiers first: a hand of seven number cards takes no new card
    let mut hand = Hand::empty();
    for c in (13..19usize).chain(6..13) {
        hand = hand.with(c);
    }
    assert_eq!(hand.len(), 7);
    assert_eq!(hand.score(), 2 * 63 + 30 + 15);
}

#[test]
fn action_cards_are_held_but_not_counted() {
    let hand = Hand::empty().with(19).with(20).with(4);
    assert!(hand.contains(19));
    assert!(hand.contains(20));
    assert_eq!(hand.len(), 1);
    assert_eq!(hand.score(), 4);
    assert_eq!(hand.get_cards_in_hand(), "4 ");
}

#[test]
fn taking_a_card_never_lowers_the_score() {
    let mut hand = Hand::empty();
    for card in [5usize, 13, 18, 0, 17, 19, 12, 1, 2, 3, 4, 6, 7, 8, 21] {
        let next = hand.with(card);
        assert!(next.score() >= hand.score());
        hand = next;
    }
    // seven number cards: 5, 0, 12, 1, 2, 3, 4 with +2, +10 and x2
    assert_eq!(hand.len(), 7);
    assert_eq!(hand.score(), 2 * 27 + 2 + 10 + 15);
}

#[test]
fn text_marks_each_card() {
    let hand = Hand::empty().with(3).with(10).with(14).with(18).with(20);
    let text = hand.get_cards_in_hand();
    assert_eq!(text, "3 10 +4 x2");
    assert_eq!(text.matches(' ').count(), 3);
    assert_eq!(text.matches('+').count(), 1);
    assert!(text.ends_with("x2"));
    let plain = Hand::empty().with(7).with(15);
    assert!(!plain.get_cards_in_hand().ends_with("x2"));
    assert_eq!(plain.get_cards_in_hand().matches('+').count(), 1);
}

#[test]
fn every_card_at_once_scores_the_maximum() {
    let all = Hand(0x7FFFF);
    assert_eq!(all.score(), flip_seven::hand::MAX_SCORE);
    assert_eq!(all.score(), 2 * 78 + 30);
}

#[test]
fn text_words_name_each_card() {
    let hand = Hand::empty().with(0).with(12).with(13).with(17).with(18).with(19);
    let text = hand.get_cards_in_hand();
    let words: Vec<&str> = text.split_whitespace().collect();
    assert_eq!(words, vec!["0", "12", "+2", "+10", "x2"]);
    let digits = words.iter().filter(|w| w.chars().all(|c| c.is_ascii_digit())).count();
    let pluses = words.iter().filter(|w| w.starts_with('+')).count();
    assert_eq!(digits as u32, hand.len());
    assert_eq!(pluses, 2);
}
