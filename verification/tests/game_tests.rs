use flip_seven::action::Action;
use flip_seven::game::{Game, StepOutcome};
use flip_seven::hand::Hand;
use flip_seven::player::{ControlMode, Player, PlayerStatus};
use flip_seven::strategy::{ExpectedValue, Strategy, Threshold};

fn bots(threshold: i32, n: usize) -> Vec<Player> {
    let mut players = Vec::new();
    for i in 1..=n {
        players.push(Player::new(
            &format!("Player {}", i),
            Box::new(Threshold(threshold)),
            ControlMode::Automatic,
        ));
    }
    players
}

#[test]
fn automatic_round_with_seed_123() {
    let players = bots(25, 3);
    let mut game = Game::new(players, 123);
    game.play_round(0);
    let output = game.display();
    assert_eq!(
        output,
        "+----------+-----------+------------+--------+------------+
| Player   | Hand      | Hand Score | Status | Cumulative |
+----------+-----------+------------+--------+------------+
| Player 1 | 10 11 12  | 33         | Stayed | 33         |
| Player 2 | 3 11 12   | 26         | Stayed | 26         |
| Player 3 | 10 11 12  | 33         | Stayed | 33         |
+----------+-----------+------------+--------+------------+
"
    );
}

#[test]
fn staying_everyone_ends_the_round_without_points() {
    let mut game = Game::new(bots(0, 2), 5);
    game.play_round(1);
    for p in &game.players {
        assert_eq!(p.status, PlayerStatus::Stayed);
        assert_eq!(p.cumulative_score, 0);
        assert_eq!(p.hand, Hand(0));
    }
}

#[test]
fn advisory_seat_pauses_the_step() {
    let mut players = bots(0, 1);
    players.push(Player::new("You", Box::new(ExpectedValue), ControlMode::Advisory));
    let mut game = Game::new(players, 42);
    game.start_round(0);
    match game.step() {
        StepOutcome::NeedsInput { player_index, recommendation } => {
            assert_eq!(player_index, 1);
            assert_eq!(recommendation.action, Action::Hit(None));
            assert_eq!(game.players[0].status, PlayerStatus::Stayed);
            // staying ends the round: nobody is active any more
            assert!(game.apply(player_index, Action::Stay));
        }
        StepOutcome::RoundOver => panic!("the advisory seat was skipped"),
    }
}

#[test]
fn hitting_a_named_card_takes_it_from_the_deck() {
    let mut players = bots(0, 1);
    players.push(Player::new("You", Box::new(ExpectedValue), ControlMode::Advisory));
    let mut game = Game::new(players, 42);
    game.start_round(1);
    assert!(!game.apply(1, Action::Hit(Some(7))));
    assert!(game.players[1].hand.contains(7));
    assert_eq!(game.players[1].status, PlayerStatus::Active);
    // a second 7 busts the seat; the other seat is still active
    assert!(!game.apply(1, Action::Hit(Some(7))));
    assert_eq!(game.players[1].status, PlayerStatus::Busted);
    // the last active seat stays: the round ends and is scored
    assert!(game.apply(0, Action::Stay));
    assert_eq!(game.players[1].cumulative_score, 0);
}

#[test]
fn deal_card_busts_on_a_duplicate() {
    let mut game = Game::new(bots(10, 2), 8);
    game.start_round(0);
    assert!(!game.deal_card(0, 4));
    assert!(!game.deal_card(0, 4));
    assert_eq!(game.players[0].status, PlayerStatus::Busted);
    assert_eq!(game.players[0].hand, Hand::empty().with(4));
}

#[test]
fn seventh_number_card_ends_and_scores_the_round() {
    let mut game = Game::new(bots(10, 2), 8);
    game.start_round(0);
    for c in 0..6 {
        assert!(!game.deal_card(1, c));
    }
    assert!(game.deal_card(1, 6));
    assert_eq!(game.players[1].cumulative_score, 36);
    assert_eq!(game.players[0].cumulative_score, 0);
    assert_eq!(game.players[0].status, PlayerStatus::Active);
}

#[test]
fn busted_seat_scores_nothing_others_score_their_hand() {
    let mut game = Game::new(bots(10, 2), 8);
    game.start_round(0);
    assert!(!game.deal_card(0, 9));
    assert!(!game.deal_card(0, 13));
    assert!(!game.deal_card(1, 12));
    assert!(!game.deal_card(1, 12));
    assert!(game.apply(0, Action::Stay));
    assert_eq!(game.players[0].cumulative_score, 11);
    assert_eq!(game.players[1].cumulative_score, 0);
}

#[test]
fn start_round_clears_hands_and_keeps_totals() {
    let mut game = Game::new(bots(25, 3), 123);
    game.play_round(0);
    let totals: Vec<u32> = game.players.iter().map(|p| p.cumulative_score).collect();
    game.start_round(1);
    for (p, t) in game.players.iter().zip(totals) {
        assert_eq!(p.hand, Hand(0));
        assert_eq!(p.status, PlayerStatus::Active);
        assert_eq!(p.cumulative_score, t);
    }
}

#[test]
fn rounds_accumulate_scores() {
    let mut game = Game::new(bots(20, 3), 77);
    let mut before: Vec<u32> = vec![0; 3];
    for round in 0..5 {
        game.play_round(round);
        for (j, p) in game.players.iter().enumerate() {
            let earned = if p.status == PlayerStatus::Busted { 0 } else { p.hand.score() as u32 };
            assert_eq!(p.cumulative_score, before[j] + earned);
            before[j] = p.cumulative_score;
        }
        let ended = game.players.iter().all(|p| p.status != PlayerStatus::Active)
            || game.players.iter().any(|p| p.hand.len() >= 7);
        assert!(ended);
    }
}

#[test]
fn display_pads_by_the_longest_cell() {
    let players = vec![
        Player::new("A", Box::new(Threshold(0)), ControlMode::Automatic),
        Player::new("Longer name", Box::new(Threshold(0)), ControlMode::Automatic),
    ];
    let game = Game::new(players, 1);
    assert_eq!(
        game.display(),
        "+-------------+------+------------+--------+------------+
| Player      | Hand | Hand Score | Status | Cumulative |
+-------------+------+------------+--------+------------+
| A           |      | 0          | Active | 0          |
| Longer name |      | 0          | Active | 0          |
+-------------+------+------------+--------+------------+
"
    );
}

#[test]
fn strategies_advise() {
    let deck = flip_seven::deck::Deck::new(3);
    let t = Threshold(10);
    assert_eq!(t.decide(Hand::empty().with(4), &deck).action, Action::Hit(None));
    assert_eq!(t.decide(Hand::empty().with(4).with(6), &deck).action, Action::Stay);
    assert!(t.decide(Hand::empty(), &deck).hit.is_none());
    assert_eq!(t.name(), "threshold");
    assert_eq!(ExpectedValue.name(), "Expected value");
    let ev = ExpectedValue.decide(Hand::empty(), &deck);
    assert_eq!(ev.action, Action::Hit(None));
}

#[test]
fn default_target_is_highest_active_other_seat() {
    let t = Threshold(0);
    let seats = vec![
        (Hand::empty().with(12), PlayerStatus::Active),
        (Hand::empty().with(5), PlayerStatus::Active),
        (Hand::empty().with(12).with(11), PlayerStatus::Busted),
        (Hand::empty().with(5), PlayerStatus::Active),
    ];
    assert_eq!(t.choose_target(0, &seats, 20), 3);
    assert_eq!(t.choose_target(1, &seats, 20), 0);
    let alone = vec![(Hand::empty(), PlayerStatus::Active)];
    assert_eq!(t.choose_target(0, &alone, 20), 0);
}

#[test]
fn game_over_when_a_total_reaches_the_target() {
    let mut game = Game::new(bots(10, 2), 8);
    game.start_round(0);
    assert!(!game.game_over(1));
    for c in 0..7 {
        game.deal_card(1, c);
    }
    assert!(game.game_over(36));
    assert!(!game.game_over(37));
    assert!(game.game_over(0));
}

#[test]
fn action_cards_are_set_aside() {
    let mut game = Game::new(bots(10, 2), 8);
    game.start_round(0);
    assert!(!game.deal_card(0, 19));
    assert!(!game.deal_card(0, 19));
    assert_eq!(game.players[0].hand, Hand(0));
    assert_eq!(game.players[0].status, PlayerStatus::Active);
}

#[test]
fn thirteen_seats_always_leave_a_number_card_to_refill() {
    let mut game = Game::new(bots(25, 13), 8);
    game.start_round(0);
    assert!(game.refills_hold_a_number_card());
    let mut crowded = Game::new(bots(25, 14), 8);
    crowded.start_round(0);
    assert!(!crowded.refills_hold_a_number_card());
}

#[test]
fn thirteen_bots_play_a_round() {
    let mut game = Game::new(bots(30, 13), 11);
    game.play_round(3);
    for p in &game.players {
        assert!(p.hand.len() <= 7);
        let earned = if p.status == PlayerStatus::Busted { 0 } else { p.hand.score() as u32 };
        assert_eq!(p.cumulative_score, earned);
    }
}
