//! A game: the seats, the deck, and whose turn comes next.
//!
//! A round ends when a hand reaches seven number cards or when no seat is
//! active any more; each seat then adds its hand's score to its total, or
//! nothing when it busted.
use vstd::prelude::*;
use crate::action::{Action, Recommendation};
use crate::deck::{Deck, count_sum, full_deck, holders, refilled};
use crate::hand::{
    Hand,
    cards_text,
    count_bits,
    lemma_count_bits_le,
    lemma_count_bits_none,
    lemma_count_or,
    lemma_score_bounds,
    lemma_with_holds,
    lemma_with_number_cards,
    MAX_SCORE,
};
use crate::player::{ControlMode, Player, PlayerStatus};
use crate::text::{
    byte_len,
    decimal,
    decimal_string,
    nat_widths,
    push_row,
    push_rule,
    row_line,
    rule_line,
    strings_view,
};

verus! {

broadcast use vstd::string::to_string_from_display_ensures_for_str;

/// The state of the table: the seats, the deck and the turn counter.
pub struct Game {
    pub players: Vec<Player>,
    deck: Deck,
    next_index: usize,
}

/// What a step of the game came to.
pub enum StepOutcome {
    NeedsInput { player_index: usize, recommendation: Recommendation },
    RoundOver,
}

/// The hands of the seats.
pub open spec fn hands_of(ps: Seq<Player>) -> Seq<Hand> {
    ps.map_values(|p: Player| p.hand)
}

/// Whether some seat is still active.
pub open spec fn any_active(ps: Seq<Player>) -> bool {
    exists|j: int| 0 <= j < ps.len() && (#[trigger] ps[j]).status == PlayerStatus::Active
}

/// What a seat earns for the round: its hand's score, nothing when busted.
pub open spec fn round_score(p: Player) -> int {
    if p.status == PlayerStatus::Busted {
        0
    } else {
        p.hand.spec_score()
    }
}

/// The seat with its round score added to its total.
pub open spec fn scored(p: Player) -> Player {
    Player { cumulative_score: (p.cumulative_score + round_score(p)) as u32, ..p }
}

/// All seats with their round scores added.
pub open spec fn finished(ps: Seq<Player>) -> Seq<Player> {
    ps.map_values(|p: Player| scored(p))
}

/// The seat with another status.
pub open spec fn with_status(p: Player, s: PlayerStatus) -> Player {
    Player { status: s, ..p }
}

/// The seat with another hand.
pub open spec fn with_hand(p: Player, h: Hand) -> Player {
    Player { hand: h, ..p }
}

/// The seats after a move, and whether the round is over: it is over, and
/// scored, when no seat is active.
pub open spec fn close_if_idle(m: Seq<Player>) -> (Seq<Player>, bool) {
    if any_active(m) {
        (m, false)
    } else {
        (finished(m), true)
    }
}

/// Seat `i` receives `card`: an action card (19 to 21) is set aside and
/// leaves the seat as it was; another card busts the seat when it holds the
/// card already, else the seat takes it, and seven number cards end the round
/// at once.
pub open spec fn dealt(ps: Seq<Player>, i: int, card: nat) -> (Seq<Player>, bool) {
    let p = ps[i];
    if card >= 19 {
        close_if_idle(ps)
    } else if p.hand.holds(card) {
        close_if_idle(ps.update(i, with_status(p, PlayerStatus::Busted)))
    } else {
        let h = p.hand.spec_with(card);
        let m = ps.update(i, with_hand(p, h));
        if h.number_cards() >= 7 {
            (finished(m), true)
        } else {
            close_if_idle(m)
        }
    }
}

/// Seat `i` stays.
pub open spec fn stayed(ps: Seq<Player>, i: int) -> (Seq<Player>, bool) {
    close_if_idle(ps.update(i, with_status(ps[i], PlayerStatus::Stayed)))
}

/// What a step works on: the seats, the copies left of each card in the
/// deck, and the turn counter.
pub type TableState = (Seq<Player>, Seq<int>, int);

/// The deck as a turn finds it: refilled from the seats' hands when empty.
pub open spec fn topped_up(ps: Seq<Player>, counts: Seq<int>) -> Seq<int> {
    if count_sum(counts, 22) == 0 {
        refilled(hands_of(ps))
    } else {
        counts
    }
}

/// Seat `i` is dealt `card` from the deck `d`, which then holds `e`: one copy
/// of the card leaves the deck.
pub open spec fn draw_turn(
    ps: Seq<Player>,
    d: Seq<int>,
    i: int,
    card: nat,
    qs: Seq<Player>,
    e: Seq<int>,
    over: bool,
) -> bool {
    &&& card < 22
    &&& d[card as int] > 0
    &&& e == d.update(card as int, d[card as int] - 1)
    &&& (qs, over) == dealt(ps, i, card)
}

/// The action that seat `i`'s strategy advises against the deck `d`.
pub open spec fn advised_at(ps: Seq<Player>, i: int, d: Seq<int>) -> Action {
    ps[i].strategy.advised(ps[i].hand, d, count_sum(d, 22))
}

/// A hit that names a number card with a copy left in the deck `d` is dealt
/// that card.
pub open spec fn takes_named(a: Action, d: Seq<int>, card: nat) -> bool {
    match a {
        Action::Hit(Some(c)) => c < 13 && d[c as int] > 0 ==> card == c,
        _ => true,
    }
}

/// One turn of a step, from state `s` to state `t`: the deck is refilled if
/// empty; seat `next % n` has the turn and the counter moves on. An inactive
/// seat is passed over; an active automatic seat plays what its strategy
/// advises: it stays, or it is dealt a card from the deck (the card it names,
/// when the deck holds that number card).
pub open spec fn step_turn(s: TableState, t: TableState, over: bool) -> bool {
    let n = s.0.len() as int;
    let d = topped_up(s.0, s.1);
    let i = s.2 % n;
    &&& n > 0
    &&& t.2 == s.2 + 1
    &&& if s.0[i].status != PlayerStatus::Active {
        t.0 == s.0 && t.1 == d && !over
    } else {
        &&& s.0[i].control == ControlMode::Automatic
        &&& if advised_at(s.0, i, d) is Stay {
            (t.0, over) == stayed(s.0, i) && t.1 == d
        } else {
            exists|card: nat|
                #[trigger] draw_turn(s.0, d, i, card, t.0, t.1, over) && takes_named(
                    advised_at(s.0, i, d),
                    d,
                    card,
                )
        }
    }
}

/// Each state of `trace` follows from the one before by a turn, taken while
/// some seat was active, that did not end the round.
pub open spec fn step_play(trace: Seq<TableState>) -> bool {
    forall|k: int|
        0 <= k < trace.len() - 1 ==> any_active((#[trigger] trace[k]).0) && step_turn(
            trace[k],
            trace[k + 1],
            false,
        )
}

/// How a step ends from state `s` in state `t`: no seat is active, so the
/// (refilled if empty) deck stays and the round is scored; or a turn ended
/// the round.
pub open spec fn step_ends(s: TableState, t: TableState) -> bool {
    ||| !any_active(s.0) && t == (finished(s.0), topped_up(s.0, s.1), s.2)
    ||| any_active(s.0) && step_turn(s, t, true)
}

/// How a step pauses from state `s` at seat `i`: it is the seat `next % n`,
/// active and advisory; its turn is taken (the counter moves on) and nothing
/// else changes but the refill of an empty deck.
pub open spec fn step_pauses(s: TableState, t: TableState, i: int) -> bool {
    &&& any_active(s.0)
    &&& s.0.len() > 0
    &&& i == s.2 % (s.0.len() as int)
    &&& s.0[i].status == PlayerStatus::Active
    &&& s.0[i].control == ControlMode::Advisory
    &&& t == (s.0, topped_up(s.0, s.1), s.2 + 1)
}

/// The action cards in the deck.
pub open spec fn action_cards(counts: Seq<int>) -> int {
    counts[19] + counts[20] + counts[21]
}

/// Falls with each action card drawn, and when an empty deck is refilled
/// (a refill holds a number card while the seats' `room` is below 79).
pub open spec fn draw_measure(counts: Seq<int>) -> int {
    action_cards(counts) + if count_sum(counts, 19) == 0 {
        10int
    } else {
        0int
    }
}

/// A bound on the turns left in the round, per seat.
pub open spec fn turn_budget(ps: Seq<Player>, counts: Seq<int>) -> int {
    20 * potential(ps) + draw_measure(counts)
}

/// The seats at the start of a round: empty hands, all active.
pub open spec fn reset_seats(ps: Seq<Player>) -> Seq<Player> {
    ps.map_values(|p: Player| Player { hand: Hand(0), status: PlayerStatus::Active, ..p })
}

/// Every total can take one more round score without overflow.
pub open spec fn scores_fit(ps: Seq<Player>) -> bool {
    forall|j: int| 0 <= j < ps.len() ==> (#[trigger] ps[j]).cumulative_score + MAX_SCORE <= u32::MAX
}

/// A seat keeps its name, strategy, control and second chance.
pub open spec fn same_seat(p: Player, q: Player) -> bool {
    &&& p.name == q.name
    &&& p.strategy == q.strategy
    &&& p.control == q.control
    &&& p.has_second_chance == q.has_second_chance
}

/// How many more moves an active seat can make before it leaves the round:
/// one per card it can still take, plus one.
pub open spec fn seat_potential(p: Player) -> nat {
    if p.status == PlayerStatus::Active {
        (33 - count_bits(p.hand.0, 32)) as nat
    } else {
        0
    }
}

/// The moves left to all seats; each move of an active seat that does not
/// end the round lowers it.
pub open spec fn potential(ps: Seq<Player>) -> nat
    decreases ps.len(),
{
    if ps.len() == 0 {
        0
    } else {
        potential(ps.drop_last()) + seat_potential(ps.last())
    }
}

/// How many number cards a seat can come to hold in the round: an active
/// seat six (a seventh ends the round) or what it holds if more, another
/// seat what it holds.
pub open spec fn seat_room(p: Player) -> nat {
    if p.status == PlayerStatus::Active && p.hand.number_cards() < 6 {
        6
    } else {
        p.hand.number_cards()
    }
}

/// How many number cards the hands can come to hold in the round. Below 79,
/// the full deck's number cards, a refilled deck always holds a number card;
/// otherwise it may hold action cards alone, and a seat that keeps hitting
/// would never end its turn.
pub open spec fn room(ps: Seq<Player>) -> nat
    decreases ps.len(),
{
    if ps.len() == 0 {
        0
    } else {
        room(ps.drop_last()) + seat_room(ps.last())
    }
}

/// No hand holds more than seven number cards.
pub open spec fn within_seven(ps: Seq<Player>) -> bool {
    forall|j: int| 0 <= j < ps.len() ==> (#[trigger] ps[j]).hand.number_cards() <= 7
}

/// How a status is written.
pub open spec fn status_text(s: PlayerStatus) -> Seq<char> {
    match s {
        PlayerStatus::Active => "Active"@,
        PlayerStatus::Frozen => "Frozen"@,
        PlayerStatus::Stayed => "Stayed"@,
        PlayerStatus::Busted => "Busted"@,
    }
}

/// The column titles of the score table.
pub open spec fn header_cells() -> Seq<Seq<char>> {
    seq!["Player"@, "Hand"@, "Hand Score"@, "Status"@, "Cumulative"@]
}

/// A seat's row of the score table: name, cards, hand score, status, total.
pub open spec fn seat_cells(p: Player) -> Seq<Seq<char>> {
    seq![
        p.name@,
        cards_text(p.hand.0),
        decimal(p.hand.spec_score() as nat),
        status_text(p.status),
        decimal(p.cumulative_score as nat),
    ]
}

/// The width of column `col`: the most bytes of its title and of its cells in
/// the first `k` seats.
pub open spec fn column_width(ps: Seq<Player>, col: int, k: int) -> nat
    decreases k,
{
    if k <= 0 {
        byte_len(header_cells()[col])
    } else {
        let w = column_width(ps, col, k - 1);
        let l = byte_len(seat_cells(ps[k - 1])[col]);
        if l > w {
            l
        } else {
            w
        }
    }
}

/// The widths of the five columns.
pub open spec fn table_widths(ps: Seq<Player>) -> Seq<nat> {
    Seq::new(5, |c: int| column_width(ps, c, ps.len() as int))
}

/// The rows of the first `k` seats.
pub open spec fn seat_lines(ps: Seq<Player>, widths: Seq<nat>, k: int) -> Seq<char>
    decreases k,
{
    if k <= 0 {
        seq![]
    } else {
        seat_lines(ps, widths, k - 1) + row_line(seat_cells(ps[k - 1]), widths)
    }
}

/// The score table: a rule, the titles, a rule, a row per seat, a rule.
pub open spec fn table_text(ps: Seq<Player>) -> Seq<char> {
    let w = table_widths(ps);
    rule_line(w) + row_line(header_cells(), w) + rule_line(w) + seat_lines(ps, w, ps.len() as int)
        + rule_line(w)
}

/// Every cell of the table is short enough to pad and rule.
pub open spec fn table_fits(ps: Seq<Player>) -> bool {
    forall|j: int, c: int|
        0 <= j < ps.len() && 0 <= c < 5 ==> byte_len(#[trigger] seat_cells(ps[j])[c]) + 2
            <= usize::MAX
}

impl Game {
    /// The seats.
    pub closed spec fn seats(&self) -> Seq<Player> {
        self.players@
    }

    /// The deck.
    pub closed spec fn deck(&self) -> Deck {
        self.deck
    }

    /// The turn counter; the next turn is the seat `next_index % seats`.
    pub closed spec fn next_index(&self) -> int {
        self.next_index as int
    }

    /// The deck is well formed, and each card 0 to 18 is in the deck or in a
    /// hand no more often than a full deck holds it.
    pub closed spec fn wf(&self) -> bool {
        &&& self.deck().wf()
        &&& forall|c: nat|
            c < 19 ==> self.deck().counts()[c as int] + #[trigger] holders(hands_of(self.players@), c)
                <= full_deck()[c as int]
    }

    /// The seats, the deck's counts and the turn counter.
    pub open spec fn state(&self) -> TableState {
        (self.seats(), self.deck().counts(), self.next_index())
    }

    /// The turn counter cannot overflow in the turns that the round can still
    /// take.
    pub closed spec fn counter_fits(&self, reserve: int) -> bool {
        self.next_index() + self.players.len() * (turn_budget(self.players@, self.deck.counts())
            + reserve) <= usize::MAX
    }

    /// A game with these seats and a full deck driven by `seed`.
    pub fn new(players: Vec<Player>, seed: u64) -> (g: Self)
        ensures
            g.seats() == players@,
            g.deck().wf(),
            g.deck().counts() == full_deck(),
            g.deck().remaining() == 94,
            g.next_index() == 0,
            (forall|j: int| 0 <= j < players.len() ==> (#[trigger] players@[j]).hand == Hand(0))
                ==> g.wf(),
    {
        let g = Game { players, deck: Deck::new(seed), next_index: 0 };
        proof {
            if forall|j: int| 0 <= j < g.players.len() ==> (#[trigger] g.players@[j]).hand == Hand(0) {
                assert forall|c: nat| c < 19 implies #[trigger] holders(hands_of(g.players@), c) == 0 by {
                    lemma_holders_of_empty(hands_of(g.players@), c);
                }
            }
        }
        g
    }

    /// Empties every hand, makes every seat active, and gives the first turn
    /// to seat `starting_index` (modulo the number of seats).
    pub fn start_round(&mut self, starting_index: usize)
        requires
            old(self).deck().wf(),
        ensures
            final(self).wf(),
            final(self).seats().len() == old(self).seats().len(),
            forall|j: int|
                0 <= j < final(self).seats().len() ==> #[trigger] final(self).seats()[j] == (Player {
                    hand: Hand(0),
                    status: PlayerStatus::Active,
                    ..old(self).seats()[j]
                }),
            final(self).deck() == old(self).deck(),
            final(self).next_index() == starting_index,
            starting_index + final(self).seats().len() * (660 * final(self).seats().len() + 20)
                <= usize::MAX ==> final(self).counter_fits(1),
    {
        let mut j: usize = 0;
        while j < self.players.len()
            invariant
                j <= self.players.len(),
                self.players.len() == old(self).seats().len(),
                forall|k: int|
                    0 <= k < j ==> #[trigger] self.players@[k] == (Player {
                        hand: Hand(0),
                        status: PlayerStatus::Active,
                        ..old(self).seats()[k]
                    }),
                forall|k: int| j <= k < self.players.len() ==> #[trigger] self.players@[k] == old(self).seats()[k],
                self.deck == old(self).deck,
            decreases self.players.len() - j,
        {
            self.players[j].hand = Hand::empty();
            self.players[j].status = PlayerStatus::Active;
            j += 1;
        }
        /* In the rules of flip seven the starting player increments every round */
        self.next_index = starting_index;
        proof {
            assert forall|c: nat| c < 19 implies #[trigger] holders(hands_of(self.players@), c) == 0 by {
                lemma_holders_of_empty(hands_of(self.players@), c);
            }
            let n = self.players.len() as int;
            lemma_potential_le(self.players@);
            lemma_draw_measure_bounds(self.deck.counts());
            assert(n * (turn_budget(self.players@, self.deck.counts()) + 1) <= n * (660 * n + 20))
                by (nonlinear_arith)
                requires
                    potential(self.players@) <= 33 * n,
                    draw_measure(self.deck.counts()) <= 19,
                    turn_budget(self.players@, self.deck.counts()) == 20 * potential(self.players@)
                        + draw_measure(self.deck.counts()),
                    n >= 0,
            ;
        }
    }

    /// Plays a whole round with automatic seats only, the first turn going to
    /// seat `starting_index`: every seat ends with its round score added.
    /// With fourteen seats or more the round might never end (see `step`), so
    /// at most thirteen play.
    pub fn play_round(&mut self, starting_index: usize)
        requires
            old(self).deck().wf(),
            forall|j: int|
                0 <= j < old(self).seats().len() ==> (#[trigger] old(self).seats()[j]).control
                    == ControlMode::Automatic,
            scores_fit(old(self).seats()),
            old(self).seats().len() <= 13,
            starting_index + old(self).seats().len() * (660 * old(self).seats().len() + 20)
                <= usize::MAX,
        ensures
            final(self).wf(),
            final(self).seats().len() == old(self).seats().len(),
            forall|j: int|
                0 <= j < final(self).seats().len() ==> same_seat(
                    #[trigger] final(self).seats()[j],
                    old(self).seats()[j],
                ),
            forall|j: int|
                0 <= j < final(self).seats().len() ==> #[trigger] final(self).seats()[j].cumulative_score
                    == old(self).seats()[j].cumulative_score + round_score(final(self).seats()[j]),
            within_seven(final(self).seats()),
            !any_active(final(self).seats()) || exists|j: int|
                0 <= j < final(self).seats().len()
                    && #[trigger] final(self).seats()[j].hand.number_cards() >= 7,
            exists|trace: Seq<TableState>|
                {
                    &&& trace.len() > 0
                    &&& trace[0] == (
                        reset_seats(old(self).seats()),
                        old(self).deck().counts(),
                        starting_index as int,
                    )
                    &&& step_play(trace)
                    &&& step_ends(trace.last(), final(self).state())
                },
    {
        self.start_round(starting_index);
        proof {
            assert(self.players@ =~= reset_seats(old(self).players@));
            lemma_room_reset(old(self).players@);
            lemma_count_bits_none(0, 13);
            assert(within_seven(self.players@));
            assert(self.state() == (
                reset_seats(old(self).seats()),
                old(self).deck().counts(),
                starting_index as int,
            ));
        }
        proof {
            let n = self.players.len() as int;
            assert forall|j: int| 0 <= j < n implies (#[trigger] self.players@[j]).cumulative_score
                + MAX_SCORE <= u32::MAX by {
                assert(self.players@[j].cumulative_score == old(self).players@[j].cumulative_score);
            }
        }
        match self.step() {
            StepOutcome::RoundOver => {},
            StepOutcome::NeedsInput { player_index, .. } => {
                proof {
                    assert(self.players@[player_index as int].control == ControlMode::Automatic);
                    assert(false);
                }
            },
        }
    }

    /// One step of the game: turns pass in order from the turn counter,
    /// active seats only; an automatic seat plays its strategy's advice, an
    /// advisory seat stops the step with that advice. An empty deck is
    /// refilled, less the cards the hands hold, before each turn. The step
    /// ends when the round does. Where the hands could come to hold all 79
    /// number cards, a refill could hold action cards alone, which are set
    /// aside when drawn, and a seat that keeps hitting would never end its
    /// turn. `room` below 79 rules that out; thirteen seats at the start of a
    /// round have room for 78.
    #[verifier::rlimit(60)]
    #[verifier::spinoff_prover]
    pub fn step(&mut self) -> (out: StepOutcome)
        requires
            old(self).wf(),
            scores_fit(old(self).seats()),
            room(old(self).seats()) < 79,
            old(self).counter_fits(1),
        ensures
            final(self).wf(),
            final(self).seats().len() == old(self).seats().len(),
            forall|j: int|
                0 <= j < final(self).seats().len() ==> same_seat(
                    #[trigger] final(self).seats()[j],
                    old(self).seats()[j],
                ),
            exists|trace: Seq<TableState>|
                {
                    &&& trace.len() > 0
                    &&& trace[0] == old(self).state()
                    &&& step_play(trace)
                    &&& match out {
                        StepOutcome::RoundOver => step_ends(trace.last(), final(self).state()),
                        StepOutcome::NeedsInput { player_index, .. } => step_pauses(
                            trace.last(),
                            final(self).state(),
                            player_index as int,
                        ),
                    }
                },
            within_seven(old(self).seats()) ==> within_seven(final(self).seats()),
            match out {
                StepOutcome::RoundOver => {
                    &&& forall|j: int|
                        0 <= j < final(self).seats().len() ==> #[trigger] final(self).seats()[j].cumulative_score == old(self).seats()[j].cumulative_score
                            + round_score(final(self).seats()[j])
                    &&& !any_active(final(self).seats()) || exists|j: int|
                        0 <= j < final(self).seats().len()
                            && #[trigger] final(self).seats()[j].hand.number_cards() >= 7
                },
                StepOutcome::NeedsInput { player_index, recommendation } => {
                    &&& player_index < final(self).seats().len()
                    &&& final(self).seats()[player_index as int].status == PlayerStatus::Active
                    &&& final(self).seats()[player_index as int].control == ControlMode::Advisory
                    &&& recommendation.action == advised_at(
                        final(self).seats(),
                        player_index as int,
                        final(self).deck().counts(),
                    )
                    &&& final(self).deck().remaining() > 0
                    &&& final(self).counter_fits(0)
                    &&& room(final(self).seats()) <= room(old(self).seats())
                    &&& forall|j: int|
                        0 <= j < final(self).seats().len()
                            ==> #[trigger] final(self).seats()[j].cumulative_score == old(self).seats()[j].cumulative_score
                },
            },
    {
        let ghost n = self.players.len() as int;
        let ghost mut skipped: int = 0;
        let ghost mut trace: Seq<TableState> = seq![self.state()];
        proof {
            let b = turn_budget(self.players@, self.deck.counts());
            assert(n * (b + 1) == n * b + n) by (nonlinear_arith);
        }
        loop
            invariant
                self.wf(),
                self.players.len() == n,
                n == old(self).seats().len(),
                room(self.players@) <= room(old(self).seats()),
                room(old(self).seats()) < 79,
                within_seven(old(self).seats()) ==> within_seven(self.players@),
                forall|j: int|
                    0 <= j < n ==> same_seat(#[trigger] self.players@[j], old(self).seats()[j]),
                forall|j: int|
                    0 <= j < n ==> #[trigger] self.players@[j].cumulative_score == old(self).seats()[j].cumulative_score,
                scores_fit(self.players@),
                0 <= skipped <= n,
                skipped > 0 ==> self.next_index() >= skipped,
                forall|k: int|
                    0 <= k < skipped ==> (#[trigger] self.players@[(self.next_index() - 1 - k) % n]).status
                        != PlayerStatus::Active,
                self.next_index() + n * turn_budget(self.players@, self.deck.counts()) + (n - skipped)
                    <= usize::MAX,
                trace.len() > 0,
                trace[0] == old(self).state(),
                step_play(trace),
                trace.last() == self.state(),
            decreases potential(self.players@), draw_measure(self.deck.counts()), n - skipped,
        {
            let ghost top = self.state();
            let ghost top_budget = turn_budget(self.players@, self.deck.counts());
            proof {
                lemma_draw_measure_bounds(self.deck.counts());
            }
            // Check whether the deck needs reshuffling
            if self.deck.get_total_remaining() == 0 {
                let mut hands: Vec<Hand> = vec![];
                let mut j: usize = 0;
                while j < self.players.len()
                    invariant
                        j <= self.players.len(),
                        hands@ == hands_of(self.players@).take(j as int),
                    decreases self.players.len() - j,
                {
                    hands.push(self.players[j].hand);
                    j += 1;
                    proof {
                        assert(hands@ =~= hands_of(self.players@).take(j as int));
                    }
                }
                proof {
                    assert(hands@ =~= hands_of(self.players@));
                    assert forall|c: int| 0 <= c < 22 implies #[trigger] refilled(hands@)[c] >= 0 by {
                        if c < 19 {
                            assert(self.deck.counts()[c] + holders(hands@, c as nat) <= full_deck()[c]);
                        }
                    }
                    crate::deck::lemma_count_sum_nonneg(refilled(hands@), 22);
                }
                self.deck.reshuffle(&hands);
                proof {
                    assert(self.deck.counts() =~= refilled(hands_of(self.players@)));
                    lemma_refill_measure(top.1, self.players@);
                    lemma_refilled_deck_not_empty(self.deck.counts());
                }
            }
            let ghost d = self.deck.counts();
            proof {
                assert(d == topped_up(top.0, top.1));
                crate::deck::lemma_count_sum_nonneg(self.deck.counts(), 22);
                assert(self.deck.remaining() > 0);
                lemma_draw_measure_bounds(d);
                assert(n * turn_budget(self.players@, d) <= n * top_budget) by (nonlinear_arith)
                    requires
                        turn_budget(self.players@, d) <= top_budget,
                        n >= 0,
                ;
            }
            // Check whether there are active players still
            if !self.has_active() {
                let ghost before = self.players@;
                self.finish_round();
                proof {
                    lemma_finished_facts(before);
                    assert(self.state() == (finished(top.0), topped_up(top.0, top.1), top.2));
                }
                return StepOutcome::RoundOver;
            }
            proof {
                if skipped == n {
                    let j = choose|j: int|
                        0 <= j < n && (#[trigger] self.players@[j]).status == PlayerStatus::Active;
                    lemma_residue_reached(self.next_index() - 1, j, n);
                    let k = (self.next_index() - 1 - j) % n;
                    assert(self.players@[(self.next_index() - 1 - k) % n].status != PlayerStatus::Active);
                }
            }
            let i = self.next_index % self.players.len();
            self.next_index += 1;
            if self.players[i].status != PlayerStatus::Active {
                proof {
                    let ni = self.next_index();
                    assert forall|k: int| 0 <= k < skipped + 1 implies (#[trigger] self.players@[(ni - 1 - k) % n]).status
                        != PlayerStatus::Active by {
                        if k > 0 {
                            assert((ni - 1 - k) == ((ni - 1) - 1 - (k - 1)));
                        }
                    }
                    skipped = skipped + 1;
                    assert(step_turn(top, self.state(), false));
                    lemma_play_extends(trace, self.state());
                    trace = trace.push(self.state());
                }
                continue ;
            }
            let rec = self.players[i].strategy.decide(self.players[i].hand, &self.deck);
            match self.players[i].control {
                ControlMode::Automatic => {
                    let ghost mid = self.state();
                    let over = self.apply(i, rec.action);
                    proof {
                        if rec.action is Hit {
                            let card = choose|card: nat| #[trigger] draw_turn(
                                mid.0,
                                mid.1,
                                i as int,
                                card,
                                self.players@,
                                self.deck.counts(),
                                over,
                            );
                            assert(draw_turn(mid.0, d, i as int, card, self.state().0, self.state().1, over));
                        }
                        assert(step_turn(top, self.state(), over));
                    }
                    if over {
                        return StepOutcome::RoundOver;
                    }
                    proof {
                        lemma_play_extends(trace, self.state());
                        trace = trace.push(self.state());
                        let b2 = turn_budget(self.players@, self.deck.counts());
                        assert(n * b2 + n <= n * turn_budget(mid.0, d)) by (nonlinear_arith)
                            requires
                                b2 + 1 <= turn_budget(mid.0, d),
                                n >= 0,
                        ;
                        skipped = 0;
                    }
                },
                ControlMode::Advisory => {
                    return StepOutcome::NeedsInput { player_index: i, recommendation: rec };
                },
            }
        }
    }

    /// Plays `action` for seat `player_index`; tells whether the round ended
    /// (and was scored). A hit takes the card the player names when it is a
    /// number card still in the deck, else a random card from the deck.
    pub fn apply(&mut self, player_index: usize, action: Action) -> (over: bool)
        requires
            old(self).wf(),
            player_index < old(self).seats().len(),
            scores_fit(old(self).seats()),
            action is Hit ==> old(self).deck().remaining() > 0,
        ensures
            final(self).wf(),
            final(self).next_index() == old(self).next_index(),
            final(self).seats().len() == old(self).seats().len(),
            action is Stay ==> (final(self).seats(), over) == stayed(
                old(self).seats(),
                player_index as int,
            ) && final(self).deck() == old(self).deck(),
            action is Hit ==> exists|card: nat|
                {
                    &&& #[trigger] draw_turn(
                        old(self).seats(),
                        old(self).deck().counts(),
                        player_index as int,
                        card,
                        final(self).seats(),
                        final(self).deck().counts(),
                        over,
                    )
                    &&& takes_named(action, old(self).deck().counts(), card)
                },
            action is Hit ==> final(self).deck().remaining() == old(self).deck().remaining() - 1,
            old(self).seats()[player_index as int].status == PlayerStatus::Active && !over
                ==> potential(final(self).seats()) < potential(old(self).seats()) || (potential(
                final(self).seats(),
            ) == potential(old(self).seats()) && draw_measure(final(self).deck().counts())
                < draw_measure(old(self).deck().counts())),
            old(self).seats()[player_index as int].status == PlayerStatus::Active && !over
                ==> turn_budget(final(self).seats(), final(self).deck().counts()) + 1 <= turn_budget(
                old(self).seats(),
                old(self).deck().counts(),
            ),
            old(self).seats()[player_index as int].status == PlayerStatus::Active && !over
                && old(self).counter_fits(0) ==> final(self).counter_fits(1),
            old(self).seats()[player_index as int].status == PlayerStatus::Active && !over
                ==> room(final(self).seats()) <= room(old(self).seats()),
            within_seven(old(self).seats()) ==> within_seven(final(self).seats()),
            !over ==> forall|j: int|
                0 <= j < final(self).seats().len()
                    ==> #[trigger] final(self).seats()[j].cumulative_score == old(self).seats()[j].cumulative_score,
            over ==> forall|j: int|
                0 <= j < final(self).seats().len()
                    ==> #[trigger] final(self).seats()[j].cumulative_score == old(self).seats()[j].cumulative_score + round_score(final(self).seats()[j]),
            over ==> !any_active(final(self).seats()) || exists|j: int|
                0 <= j < final(self).seats().len()
                    && #[trigger] final(self).seats()[j].hand.number_cards() >= 7,
            forall|j: int|
                0 <= j < final(self).seats().len() ==> same_seat(
                    #[trigger] final(self).seats()[j],
                    old(self).seats()[j],
                ),
    {
        let ghost ps = self.players@;
        let ghost i = player_index as int;
        match action {
            Action::Stay => {
                self.players[player_index].status = PlayerStatus::Stayed;
                let over = self.close_if_idle();
                proof {
                    lemma_stayed_facts(ps, i);
                    lemma_stayed_all(ps, i);
                    assert(hands_of(self.players@) == hands_of(ps));
                    if within_seven(ps) {
                        assert(hands_of(ps).update(i, ps[i].hand) =~= hands_of(ps));
                        lemma_within_seven_hands(ps, self.players@, i, ps[i].hand);
                    }
                    lemma_draw_measure_bounds(self.deck.counts());
                    lemma_counter_after_move(
                        ps,
                        self.players@,
                        self.deck.counts(),
                        self.deck.counts(),
                        self.next_index as int,
                    );
                }
                over
            },
            Action::Hit(provided_card) => {
                let card = match provided_card {
                    Some(card) => {
                        if self.deck.discard(card) {
                            card
                        } else {
                            self.deck.draw()
                        }
                    },
                    None => { self.deck.draw() },
                };
                let over = self.deal_card(player_index, card);
                proof {
                    let before = old(self).deck().counts();
                    let after = self.deck.counts();
                    lemma_dealt_facts(ps, i, card as nat);
                    lemma_dealt_all(ps, i, card as nat);
                    assert(draw_turn(ps, before, i, card as nat, self.players@, after, over));
                    lemma_draw_measure_bounds(before);
                    lemma_draw_measure_bounds(after);
                    if card >= 19 {
                        lemma_action_draw_measure(before, card as int);
                    }
                    lemma_counter_after_move(ps, self.players@, before, after, self.next_index as int);
                    let new_hand = if card >= 19 || ps[i].hand.holds(card as nat) {
                        ps[i].hand
                    } else {
                        ps[i].hand.spec_with(card as nat)
                    };
                    assert(hands_of(ps)[i] == ps[i].hand);
                    if within_seven(ps) {
                        if !(card >= 19 || ps[i].hand.holds(card as nat)) {
                            crate::hand::lemma_with_keeps_at_most_seven(ps[i].hand, card as nat);
                        }
                        lemma_within_seven_hands(ps, self.players@, i, new_hand);
                    }
                    lemma_accounting_after_deal(
                        old(self).deck().counts(),
                        self.deck.counts(),
                        hands_of(ps),
                        i,
                        card as nat,
                        new_hand,
                    );
                    assert(hands_of(self.players@) == hands_of(ps).update(i, new_hand));
                    assert(self.deck.wf());
                }
                over
            },
        }
    }

    /// Seat `player_index` receives `card` (already out of the deck): an
    /// action card is set aside; another card busts the seat when it holds
    /// it, else the seat takes it; then the round ends,
    /// and is scored, when the hand reached seven number cards or no seat is
    /// active. Tells whether the round ended.
    pub fn deal_card(&mut self, player_index: usize, card: usize) -> (over: bool)
        requires
            player_index < old(self).seats().len(),
            card < 22,
            scores_fit(old(self).seats()),
        ensures
            (final(self).seats(), over) == dealt(old(self).seats(), player_index as int, card as nat),
            final(self).deck() == old(self).deck(),
            final(self).next_index() == old(self).next_index(),
    {
        let ghost ps = self.players@;
        let ghost i = player_index as int;
        if card >= 19 {
            // action cards are set aside as soon as they are drawn
            return self.close_if_idle();
        }
        if self.players[player_index].hand.contains(card) {
            self.players[player_index].status = PlayerStatus::Busted;
        } else {
            self.players[player_index].hand = self.players[player_index].hand.with(card);
            if self.players[player_index].hand.len() >= 7
            // Return true if someone reached the seven card target
            {
                proof {
                    lemma_scores_fit_update(ps, i, self.players@[i]);
                }
                self.finish_round();
                return true;
            }
        }
        proof {
            lemma_scores_fit_update(ps, i, self.players@[i]);
        }
        self.close_if_idle()
    }

    /// Ends and scores the round when no seat is active; tells whether it did.
    fn close_if_idle(&mut self) -> (over: bool)
        requires
            scores_fit(old(self).seats()),
        ensures
            (final(self).seats(), over) == close_if_idle(old(self).seats()),
            final(self).deck() == old(self).deck(),
            final(self).next_index() == old(self).next_index(),
    {
        if !self.has_active() {
            // Return true if there are no active players
            self.finish_round();
            return true;
        }
        false
    }

    /// Whether some seat is active.
    fn has_active(&self) -> (b: bool)
        ensures
            b == any_active(self.players@),
    {
        let mut j: usize = 0;
        while j < self.players.len()
            invariant
                j <= self.players.len(),
                forall|k: int| 0 <= k < j ==> (#[trigger] self.players@[k]).status != PlayerStatus::Active,
            decreases self.players.len() - j,
        {
            if self.players[j].status == PlayerStatus::Active {
                return true;
            }
            j += 1;
        }
        false
    }

    /// Whether the hands can never come to hold every number card, so that a
    /// refilled deck always holds one (what `step` requires).
    pub fn refills_hold_a_number_card(&self) -> (b: bool)
        ensures
            b == (room(self.seats()) < 79),
    {
        let mut total: u32 = 0;
        let mut j: usize = 0;
        while j < self.players.len()
            invariant
                j <= self.players.len(),
                total == room(self.players@.take(j as int)),
                total < 79,
            decreases self.players.len() - j,
        {
            proof {
                assert(self.players@.take(j + 1).drop_last() =~= self.players@.take(j as int));
                lemma_count_bits_le(self.players@[j as int].hand.0, 13);
            }
            let held = self.players[j].hand.len();
            let seat = if self.players[j].status == PlayerStatus::Active && held < 6 {
                6
            } else {
                held
            };
            total += seat;
            j += 1;
            if total >= 79 {
                proof {
                    lemma_room_prefix_le(self.players@, j as int);
                }
                return false;
            }
        }
        proof {
            assert(self.players@.take(j as int) =~= self.players@);
        }
        true
    }

    /// Whether some seat's total reached `target`: the game ends after the
    /// round in which that happens.
    pub fn game_over(&self, target: u32) -> (b: bool)
        ensures
            b == exists|j: int|
                0 <= j < self.seats().len() && (#[trigger] self.seats()[j]).cumulative_score >= target,
    {
        let mut j: usize = 0;
        while j < self.players.len()
            invariant
                j <= self.players.len(),
                forall|k: int| 0 <= k < j ==> (#[trigger] self.players@[k]).cumulative_score < target,
            decreases self.players.len() - j,
        {
            if self.players[j].cumulative_score >= target {
                return true;
            }
            j += 1;
        }
        false
    }

    /// The score table of the seats.
    pub fn display(&self) -> (out: String)
        requires
            table_fits(self.seats()),
        ensures
            out@ == table_text(self.seats()),
    {
        let ghost ps = self.players@;
        let mut headers: Vec<String> = Vec::new();
        headers.push("Player".to_string());
        headers.push("Hand".to_string());
        headers.push("Hand Score".to_string());
        headers.push("Status".to_string());
        headers.push("Cumulative".to_string());
        proof {
            assert(strings_view(headers@) =~= header_cells());
        }
        let rows = seat_rows(&self.players);
        let widths = column_widths(&headers, &rows, Ghost(ps));
        let ghost w = nat_widths(widths@);
        let mut out = String::new();
        push_rule(&mut out, &widths);
        push_row(&mut out, &headers, &widths);
        push_rule(&mut out, &widths);
        let mut k: usize = 0;
        while k < rows.len()
            invariant
                k <= rows.len(),
                rows_match(rows@, ps),
                widths.len() == 5,
                w == nat_widths(widths@),
                w == table_widths(ps),
                out@ == rule_line(w) + row_line(header_cells(), w) + rule_line(w) + seat_lines(ps, w, k as int),
            decreases rows.len() - k,
        {
            proof {
                assert(rows@[k as int].len() == 5);
            }
            push_row(&mut out, &rows[k], &widths);
            k += 1;
            proof {
                assert(out@ =~= rule_line(w) + row_line(header_cells(), w) + rule_line(w) + seat_lines(ps, w, k as int));
            }
        }
        push_rule(&mut out, &widths);
        proof {
            assert(out@ =~= table_text(ps));
        }
        out
    }

    /// Adds each seat's round score to its total.
    fn finish_round(&mut self)
        requires
            scores_fit(old(self).seats()),
        ensures
            final(self).seats() == finished(old(self).seats()),
            final(self).deck() == old(self).deck(),
            final(self).next_index() == old(self).next_index(),
    {
        let mut j: usize = 0;
        while j < self.players.len()
            invariant
                j <= self.players.len(),
                self.players.len() == old(self).seats().len(),
                scores_fit(old(self).seats()),
                forall|k: int| 0 <= k < j ==> #[trigger] self.players@[k] == scored(old(self).seats()[k]),
                forall|k: int| j <= k < self.players.len() ==> #[trigger] self.players@[k] == old(self).seats()[k],
                self.deck == old(self).deck,
                self.next_index == old(self).next_index,
            decreases self.players.len() - j,
        {
            let round_score = if self.players[j].status == PlayerStatus::Busted {
                0
            } else {
                self.players[j].hand.score()
            };
            proof {
                lemma_score_bounds(self.players@[j as int].hand);
                assert(old(self).seats()[j as int].cumulative_score + MAX_SCORE <= u32::MAX);
            }
            self.players[j].cumulative_score += round_score as u32;
            j += 1;
        }
        proof {
            assert(self.players@ =~= finished(old(self).seats()));
        }
    }
}

/// Every card 0 to 18 is in the deck, in a hand, or set aside: the deck and
/// the hands together never hold more copies than a full deck. A game
/// started with `start_round` keeps this through every step and action.
pub proof fn lemma_cards_accounted(g: &Game)
    requires
        g.wf(),
    ensures
        g.deck().wf(),
        forall|c: nat|
            c < 19 ==> g.deck().counts()[c as int] + #[trigger] holders(hands_of(g.seats()), c)
                <= full_deck()[c as int],
{
}

/// Each row holds the five cells of its seat.
spec fn rows_match(rows: Seq<Vec<String>>, ps: Seq<Player>) -> bool {
    &&& rows.len() == ps.len()
    &&& forall|k: int| 0 <= k < rows.len() ==> #[trigger] rows[k].len() == 5 && strings_view(rows[k]@)
        == seat_cells(ps[k])
}

/// The cells of each seat.
fn seat_rows(players: &Vec<Player>) -> (rows: Vec<Vec<String>>)
    ensures
        rows_match(rows@, players@),
{
    let ghost ps = players@;
    let mut rows: Vec<Vec<String>> = Vec::new();
    let mut j: usize = 0;
    while j < players.len()
        invariant
            j <= players.len(),
            ps == players@,
            rows.len() == j,
            forall|k: int| 0 <= k < j ==> #[trigger] rows@[k].len() == 5 && strings_view(rows@[k]@)
                == seat_cells(ps[k]),
        decreases players.len() - j,
    {
        let p = &players[j];
        let mut row: Vec<String> = Vec::new();
        row.push(p.name.clone());
        row.push(p.hand.get_cards_in_hand());
        proof {
            lemma_score_bounds(p.hand);
        }
        row.push(decimal_string(p.hand.score() as u32));
        row.push(status_string(p.status));
        row.push(decimal_string(p.cumulative_score));
        proof {
            assert(strings_view(row@) =~= seat_cells(ps[j as int]));
        }
        rows.push(row);
        j += 1;
    }
    rows
}

/// The widths of the five columns of the score table.
fn column_widths(headers: &Vec<String>, rows: &Vec<Vec<String>>, Ghost(ps): Ghost<Seq<Player>>) -> (widths: Vec<usize>)
    requires
        headers.len() == 5,
        strings_view(headers@) == header_cells(),
        rows_match(rows@, ps),
        table_fits(ps),
    ensures
        widths.len() == 5,
        nat_widths(widths@) == table_widths(ps),
        forall|c: int| 0 <= c < widths.len() ==> #[trigger] widths@[c] + 2 <= usize::MAX,
{
    let mut widths: Vec<usize> = Vec::new();
    let mut i: usize = 0;
    while i < 5
        invariant
            i <= 5,
            headers.len() == 5,
            strings_view(headers@) == header_cells(),
            widths.len() == i,
            forall|c: int| 0 <= c < i ==> #[trigger] widths@[c] == column_width(ps, c, 0),
        decreases 5 - i,
    {
        proof {
            assert(headers@[i as int]@ == header_cells()[i as int]);
            reveal_strlit("Player");
            reveal_strlit("Hand");
            reveal_strlit("Hand Score");
            reveal_strlit("Status");
            reveal_strlit("Cumulative");
            lemma_byte_len_le(header_cells()[i as int]);
        }
        widths.push(headers[i].as_str().len());
        i += 1;
    }
    let mut r: usize = 0;
    while r < rows.len()
        invariant
            r <= rows.len(),
            rows_match(rows@, ps),
            widths.len() == 5,
            forall|c: int| 0 <= c < 5 ==> #[trigger] widths@[c] == column_width(ps, c, r as int),
            table_fits(ps),
        decreases rows.len() - r,
    {
        let mut i: usize = 0;
        while i < 5
            invariant
                i <= 5,
                r < rows.len(),
                rows_match(rows@, ps),
                widths.len() == 5,
                forall|c: int| 0 <= c < i ==> #[trigger] widths@[c] == column_width(ps, c, r + 1),
                forall|c: int| i <= c < 5 ==> #[trigger] widths@[c] == column_width(ps, c, r as int),
                table_fits(ps),
            decreases 5 - i,
        {
            proof {
                assert(rows@[r as int].len() == 5);
                assert(rows@[r as int]@[i as int]@ == seat_cells(ps[r as int])[i as int]);
                assert(byte_len(seat_cells(ps[r as int])[i as int]) + 2 <= usize::MAX);
            }
            let l = rows[r][i].as_str().len();
            if l > widths[i] {
                widths.set(i, l);
            }
            i += 1;
        }
        r += 1;
    }
    proof {
        assert(nat_widths(widths@) =~= table_widths(ps));
        assert forall|c: int| 0 <= c < widths.len() implies #[trigger] widths@[c] + 2 <= usize::MAX by {
            lemma_column_width_fits(ps, c, ps.len() as int);
        }
    }
    widths
}

/// The text of a status.
fn status_string(s: PlayerStatus) -> (r: String)
    ensures
        r@ == status_text(s),
{
    let status_str = match s {
        PlayerStatus::Active => "Active",
        PlayerStatus::Busted => "Busted",
        PlayerStatus::Stayed => "Stayed",
        PlayerStatus::Frozen => "Frozen",
    };
    status_str.to_string()
}

/// A column is no wider than its widest cell or its title.
proof fn lemma_column_width_fits(ps: Seq<Player>, c: int, k: int)
    requires
        0 <= c < 5,
        k <= ps.len(),
        table_fits(ps),
    ensures
        column_width(ps, c, k) + 2 <= usize::MAX,
    decreases k,
{
    if k > 0 {
        lemma_column_width_fits(ps, c, k - 1);
        assert(byte_len(seat_cells(ps[k - 1])[c]) + 2 <= usize::MAX);
    } else {
        reveal_strlit("Player");
        reveal_strlit("Hand");
        reveal_strlit("Hand Score");
        reveal_strlit("Status");
        reveal_strlit("Cumulative");
        assert(byte_len(header_cells()[c]) <= 4 * header_cells()[c].len()) by {
            lemma_byte_len_le(header_cells()[c]);
        }
    }
}

/// A character takes at most four bytes.
proof fn lemma_byte_len_le(s: Seq<char>)
    ensures
        byte_len(s) <= 4 * s.len(),
    decreases s.len(),
{
    if s.len() > 0 {
        lemma_byte_len_le(s.drop_first());
    }
}

/// Hands that hold no card have no holder of any card.
proof fn lemma_holders_of_empty(hands: Seq<Hand>, c: nat)
    requires
        forall|j: int| 0 <= j < hands.len() ==> #[trigger] hands[j] == Hand(0),
    ensures
        holders(hands, c) == 0,
    decreases hands.len(),
{
    if hands.len() > 0 {
        lemma_holders_of_empty(hands.drop_last(), c);
        if c < 32 {
            let w = c as u32;
            assert(0u32 & (1u32 << w) == 0) by (bit_vector)
                requires
                    w < 32,
            ;
        }
    }
}

/// Replacing one hand changes the holders of a card by that hand alone.
proof fn lemma_holders_update(hands: Seq<Hand>, i: int, h: Hand, c: nat)
    requires
        0 <= i < hands.len(),
    ensures
        holders(hands.update(i, h), c) + (if hands[i].holds(c) {
            1int
        } else {
            0int
        }) == holders(hands, c) + if h.holds(c) {
            1int
        } else {
            0int
        },
    decreases hands.len(),
{
    if i < hands.len() - 1 {
        assert(hands.update(i, h).drop_last() =~= hands.drop_last().update(i, h));
        lemma_holders_update(hands.drop_last(), i, h, c);
    } else {
        assert(hands.update(i, h).drop_last() =~= hands.drop_last());
    }
}

/// Replacing one seat changes the moves left by that seat alone.
proof fn lemma_potential_update(ps: Seq<Player>, i: int, q: Player)
    requires
        0 <= i < ps.len(),
    ensures
        potential(ps.update(i, q)) + seat_potential(ps[i]) == potential(ps) + seat_potential(q),
    decreases ps.len(),
{
    if i < ps.len() - 1 {
        assert(ps.update(i, q).drop_last() =~= ps.drop_last().update(i, q));
        lemma_potential_update(ps.drop_last(), i, q);
    } else {
        assert(ps.update(i, q).drop_last() =~= ps.drop_last());
    }
}

/// A move that lowers the moves left, or leaves them and draws an action
/// card, lowers the turn budget and leaves room for one more step.
proof fn lemma_counter_after_move(
    ps: Seq<Player>,
    qs: Seq<Player>,
    before: Seq<int>,
    after: Seq<int>,
    next: int,
)
    requires
        qs.len() == ps.len(),
        0 <= draw_measure(before) <= 19,
        0 <= draw_measure(after) <= 19,
    ensures
        potential(qs) < potential(ps) || (potential(qs) == potential(ps) && draw_measure(after)
            < draw_measure(before)) ==> turn_budget(qs, after) + 1 <= turn_budget(ps, before),
        turn_budget(qs, after) + 1 <= turn_budget(ps, before) && next + ps.len() * turn_budget(
            ps,
            before,
        ) <= usize::MAX ==> next + qs.len() * (turn_budget(qs, after) + 1) <= usize::MAX,
{
    if turn_budget(qs, after) + 1 <= turn_budget(ps, before) {
        let n = ps.len() as int;
        assert(n * (turn_budget(qs, after) + 1) <= n * turn_budget(ps, before)) by (nonlinear_arith)
            requires
                turn_budget(qs, after) + 1 <= turn_budget(ps, before),
                n >= 0,
        ;
    }
}

/// A deck's draw measure lies between 0 and 19.
proof fn lemma_draw_measure_bounds(counts: Seq<int>)
    requires
        counts.len() == 22,
        forall|c: int| 0 <= c < 22 ==> 0 <= #[trigger] counts[c] <= full_deck()[c],
    ensures
        0 <= draw_measure(counts) <= 19,
{
    assert(0 <= counts[19] <= 3 && 0 <= counts[20] <= 3 && 0 <= counts[21] <= 3);
}

/// Drawing an action card lowers the draw measure by one.
proof fn lemma_action_draw_measure(d: Seq<int>, card: int)
    requires
        d.len() == 22,
        19 <= card < 22,
    ensures
        draw_measure(d.update(card, d[card] - 1)) == draw_measure(d) - 1,
{
    crate::deck::lemma_count_sum_take_one(d, card, 19);
}

/// Refilling an empty deck, while the seats' `room` is below 79, lowers the
/// draw measure: the hands cannot hold every number card, so one is left to
/// refill.
proof fn lemma_refill_measure(top: Seq<int>, ps: Seq<Player>)
    requires
        top.len() == 22,
        forall|c: int| 0 <= c < 22 ==> 0 <= #[trigger] top[c],
        count_sum(top, 22) == 0,
        room(ps) < 79,
        forall|c: nat| c < 19 ==> #[trigger] holders(hands_of(ps), c) <= full_deck()[c as int],
    ensures
        draw_measure(refilled(hands_of(ps))) < draw_measure(top),
        count_sum(refilled(hands_of(ps)), 19) > 0,
{
    lemma_empty_counts(top, 22);
    let hands = hands_of(ps);
    let r = refilled(hands);
    assert forall|c: int| 0 <= c < r.len() implies 0 <= #[trigger] r[c] by {
        if c < 19 {
            assert(holders(hands, c as nat) <= full_deck()[c]);
        }
    }
    crate::deck::lemma_count_sum_nonneg(r, 19);
    if count_sum(r, 19) == 0 {
        lemma_empty_counts(r, 19);
        assert forall|c: nat| c < 13 implies #[trigger] holders(hands, c) == full_deck()[c as int] by {
            assert(r[c as int] == 0);
        }
        lemma_holders_total_full(hands, 13);
        crate::dp_solver::lemma_full_numbers_total();
        lemma_holders_total_by_hand(hands);
        lemma_numbers_held_le_room(ps);
    }
}

/// Non-negative counts summing to zero are all zero.
proof fn lemma_empty_counts(s: Seq<int>, n: int)
    requires
        0 <= n <= s.len(),
        forall|c: int| 0 <= c < s.len() ==> 0 <= #[trigger] s[c],
        count_sum(s, n) == 0,
    ensures
        forall|c: int| 0 <= c < n ==> #[trigger] s[c] == 0,
        forall|k: int| 0 <= k <= n ==> #[trigger] count_sum(s, k) == 0,
    decreases n,
{
    if n > 0 {
        crate::deck::lemma_count_sum_nonneg(s, n - 1);
        lemma_empty_counts(s, n - 1);
    }
}

/// Adding non-negative counts never lowers the sum.
proof fn lemma_count_sum_split_nonneg(s: Seq<int>, m: int, n: int)
    requires
        0 <= m <= n <= s.len(),
        forall|c: int| 0 <= c < s.len() ==> 0 <= #[trigger] s[c],
    ensures
        count_sum(s, m) <= count_sum(s, n),
    decreases n,
{
    if m < n {
        lemma_count_sum_split_nonneg(s, m, n - 1);
    }
}

/// A turn that did not end the round, taken while some seat was active,
/// extends the play.
proof fn lemma_play_extends(trace: Seq<TableState>, t: TableState)
    requires
        trace.len() > 0,
        step_play(trace),
        any_active(trace.last().0),
        step_turn(trace.last(), t, false),
    ensures
        step_play(trace.push(t)),
        trace.push(t).last() == t,
        trace.push(t)[0] == trace[0],
{
    let u = trace.push(t);
    assert forall|k: int| 0 <= k < u.len() - 1 implies any_active((#[trigger] u[k]).0) && step_turn(
        u[k],
        u[k + 1],
        false,
    ) by {
        if k < trace.len() - 1 {
            assert(u[k] == trace[k] && u[k + 1] == trace[k + 1]);
        } else {
            assert(u[k] == trace.last());
        }
    }
}

/// Each seat has at most 33 moves left.
proof fn lemma_potential_le(ps: Seq<Player>)
    ensures
        potential(ps) <= 33 * ps.len(),
    decreases ps.len(),
{
    if ps.len() > 0 {
        lemma_potential_le(ps.drop_last());
        lemma_count_bits_le(ps.last().hand.0, 32);
    }
}

/// Scoring the round adds each seat's round score to its total and changes
/// nothing else.
proof fn lemma_finished_facts(ps: Seq<Player>)
    requires
        scores_fit(ps),
    ensures
        finished(ps).len() == ps.len(),
        hands_of(finished(ps)) == hands_of(ps),
        forall|j: int|
            0 <= j < ps.len() ==> {
                &&& (#[trigger] finished(ps)[j]).hand == ps[j].hand
                &&& finished(ps)[j].status == ps[j].status
                &&& same_seat(finished(ps)[j], ps[j])
                &&& finished(ps)[j].cumulative_score == ps[j].cumulative_score + round_score(ps[j])
                &&& round_score(finished(ps)[j]) == round_score(ps[j])
            },
{
    assert(hands_of(finished(ps)) =~= hands_of(ps));
    assert forall|j: int| 0 <= j < ps.len() implies (#[trigger] finished(ps)[j]).cumulative_score
        == ps[j].cumulative_score + round_score(ps[j]) by {
        lemma_score_bounds(ps[j].hand);
    }
}

/// What ending the round when no seat is active does.
proof fn lemma_close_facts(m: Seq<Player>)
    requires
        scores_fit(m),
    ensures
        close_if_idle(m).0.len() == m.len(),
        hands_of(close_if_idle(m).0) == hands_of(m),
        forall|j: int| 0 <= j < m.len() ==> same_seat(#[trigger] close_if_idle(m).0[j], m[j]),
        !close_if_idle(m).1 ==> close_if_idle(m).0 == m,
        close_if_idle(m).1 ==> close_if_idle(m).0 == finished(m),
        close_if_idle(m).1 ==> !any_active(close_if_idle(m).0),
{
    lemma_finished_facts(m);
    if !any_active(m) {
        assert forall|j: int| 0 <= j < m.len() implies (#[trigger] finished(m)[j]).status
            != PlayerStatus::Active by {
            assert(finished(m)[j].status == m[j].status);
        }
    }
}

/// The seats after a move, `r` coming from `m` (the seats with the move
/// made) when the round went on or was scored: the totals relate to the
/// seats before the move, `ps`.
proof fn lemma_totals_after_move(ps: Seq<Player>, m: Seq<Player>, r: Seq<Player>, over: bool)
    requires
        scores_fit(m),
        m.len() == ps.len(),
        forall|j: int| 0 <= j < m.len() ==> #[trigger] m[j].cumulative_score == ps[j].cumulative_score,
        !over ==> r == m,
        over ==> r == finished(m),
    ensures
        r.len() == ps.len(),
        !over ==> forall|j: int|
            0 <= j < r.len() ==> #[trigger] r[j].cumulative_score == ps[j].cumulative_score,
        over ==> forall|j: int|
            0 <= j < r.len() ==> #[trigger] r[j].cumulative_score == ps[j].cumulative_score
                + round_score(r[j]),
{
    lemma_finished_facts(m);
}

/// Everything a dealt card does, but to the deck.
proof fn lemma_dealt_all(ps: Seq<Player>, i: int, card: nat)
    requires
        scores_fit(ps),
        0 <= i < ps.len(),
        card < 22,
    ensures
        ({
            let (r, over) = dealt(ps, i, card);
            let new_hand = if card >= 19 || ps[i].hand.holds(card) {
                ps[i].hand
            } else {
                ps[i].hand.spec_with(card)
            };
            &&& r.len() == ps.len()
            &&& hands_of(r) == hands_of(ps).update(i, new_hand)
            &&& forall|j: int| 0 <= j < r.len() ==> same_seat(#[trigger] r[j], ps[j])
            &&& !over ==> forall|j: int|
                0 <= j < r.len() ==> #[trigger] r[j].cumulative_score == ps[j].cumulative_score
            &&& over ==> forall|j: int|
                0 <= j < r.len() ==> #[trigger] r[j].cumulative_score == ps[j].cumulative_score
                    + round_score(r[j])
            &&& over ==> !any_active(r) || exists|j: int|
                0 <= j < r.len() && #[trigger] r[j].hand.number_cards() >= 7
        }),
{
    let p = ps[i];
    let (r, over) = dealt(ps, i, card);
    if card >= 19 {
        lemma_close_facts(ps);
        assert(hands_of(ps).update(i, p.hand) =~= hands_of(ps));
        assert forall|j: int| 0 <= j < ps.len() implies same_seat(#[trigger] ps[j], ps[j]) by {}
        lemma_totals_after_move(ps, ps, r, over);
    } else if p.hand.holds(card) {
        let q = with_status(p, PlayerStatus::Busted);
        let m = ps.update(i, q);
        lemma_scores_fit_update(ps, i, q);
        lemma_close_facts(m);
        assert(hands_of(m) =~= hands_of(ps).update(i, p.hand));
        assert forall|j: int| 0 <= j < m.len() implies same_seat(#[trigger] m[j], ps[j]) by {}
        lemma_totals_after_move(ps, m, r, over);
    } else {
        let h = p.hand.spec_with(card);
        let q = with_hand(p, h);
        let m = ps.update(i, q);
        lemma_scores_fit_update(ps, i, q);
        lemma_close_facts(m);
        lemma_finished_facts(m);
        assert(hands_of(m) =~= hands_of(ps).update(i, h));
        assert forall|j: int| 0 <= j < m.len() implies same_seat(#[trigger] m[j], ps[j]) by {}
        lemma_totals_after_move(ps, m, r, over);
        if h.number_cards() >= 7 {
            assert(r[i].hand == h);
        }
    }
}

/// Everything staying does.
proof fn lemma_stayed_all(ps: Seq<Player>, i: int)
    requires
        scores_fit(ps),
        0 <= i < ps.len(),
    ensures
        ({
            let (r, over) = stayed(ps, i);
            &&& r.len() == ps.len()
            &&& hands_of(r) == hands_of(ps)
            &&& forall|j: int| 0 <= j < r.len() ==> same_seat(#[trigger] r[j], ps[j])
            &&& !over ==> forall|j: int|
                0 <= j < r.len() ==> #[trigger] r[j].cumulative_score == ps[j].cumulative_score
            &&& over ==> forall|j: int|
                0 <= j < r.len() ==> #[trigger] r[j].cumulative_score == ps[j].cumulative_score
                    + round_score(r[j])
            &&& over ==> !any_active(r)
        }),
{
    let q = with_status(ps[i], PlayerStatus::Stayed);
    let m = ps.update(i, q);
    let (r, over) = stayed(ps, i);
    lemma_scores_fit_update(ps, i, q);
    lemma_close_facts(m);
    assert(hands_of(m) =~= hands_of(ps));
    assert forall|j: int| 0 <= j < m.len() implies same_seat(#[trigger] m[j], ps[j]) by {}
    lemma_totals_after_move(ps, m, r, over);
}

/// A card taken out of the deck and dealt to seat `i` keeps every card
/// accounted for.
proof fn lemma_accounting_after_deal(
    before: Seq<int>,
    after: Seq<int>,
    hands: Seq<Hand>,
    i: int,
    card: nat,
    new_hand: Hand,
)
    requires
        card < 22,
        0 <= i < hands.len(),
        before.len() == 22,
        before[card as int] > 0,
        after == before.update(card as int, before[card as int] - 1),
        forall|c: nat| c < 19 ==> before[c as int] + #[trigger] holders(hands, c) <= full_deck()[c as int],
        new_hand == (if card >= 19 || hands[i].holds(card) {
            hands[i]
        } else {
            hands[i].spec_with(card)
        }),
    ensures
        forall|c: nat|
            c < 19 ==> after[c as int] + #[trigger] holders(hands.update(i, new_hand), c)
                <= full_deck()[c as int],
{
    assert forall|c: nat| c < 19 implies after[c as int] + #[trigger] holders(hands.update(i, new_hand), c)
        <= full_deck()[c as int] by {
        lemma_holders_update(hands, i, new_hand, c);
        lemma_with_holds(hands[i], card, c);
    }
}

/// Scores can take one more round after one seat changed hand or status
/// (totals unchanged).
proof fn lemma_scores_fit_update(ps: Seq<Player>, i: int, q: Player)
    requires
        scores_fit(ps),
        0 <= i < ps.len(),
        q.cumulative_score == ps[i].cumulative_score,
    ensures
        scores_fit(ps.update(i, q)),
{
    assert forall|j: int| 0 <= j < ps.len() implies (#[trigger] ps.update(i, q)[j]).cumulative_score
        + MAX_SCORE <= u32::MAX by {
        if j != i {
            assert(ps.update(i, q)[j] == ps[j]);
        }
    }
}

/// What staying does to the moves left and the totals.
proof fn lemma_stayed_facts(ps: Seq<Player>, i: int)
    requires
        0 <= i < ps.len(),
    ensures
        ps[i].status == PlayerStatus::Active && !stayed(ps, i).1 ==> potential(stayed(ps, i).0)
            < potential(ps),
        !stayed(ps, i).1 ==> room(stayed(ps, i).0) <= room(ps),
{
    let q = with_status(ps[i], PlayerStatus::Stayed);
    lemma_potential_update(ps, i, q);
    lemma_room_update(ps, i, q);
    lemma_count_bits_le(ps[i].hand.0, 32);
}

/// What a dealt card does to the moves left: a card other than an action
/// card lowers them unless the round ends; an action card changes nothing.
proof fn lemma_dealt_facts(ps: Seq<Player>, i: int, card: nat)
    requires
        0 <= i < ps.len(),
        card < 22,
    ensures
        card < 19 && ps[i].status == PlayerStatus::Active && !dealt(ps, i, card).1 ==> potential(
            dealt(ps, i, card).0,
        ) < potential(ps),
        card >= 19 && !dealt(ps, i, card).1 ==> dealt(ps, i, card).0 == ps,
        ps[i].status == PlayerStatus::Active && !dealt(ps, i, card).1 ==> room(dealt(ps, i, card).0)
            <= room(ps),
{
    let p = ps[i];
    lemma_count_bits_le(p.hand.0, 32);
    if card >= 19 {
    } else if p.hand.holds(card) {
        lemma_potential_update(ps, i, with_status(p, PlayerStatus::Busted));
        lemma_room_update(ps, i, with_status(p, PlayerStatus::Busted));
    } else {
        let h = p.hand.spec_with(card);
        lemma_potential_update(ps, i, with_hand(p, h));
        lemma_room_update(ps, i, with_hand(p, h));
        lemma_with_number_cards(p.hand, card);
        if p.hand.number_cards() != 7 {
            lemma_count_or(p.hand.0, card, 32);
        }
    }
}

/// A refilled deck holds its action cards, so it is not empty.
proof fn lemma_refilled_deck_not_empty(counts: Seq<int>)
    requires
        counts.len() == 22,
        counts[19] == 3,
        forall|c: int| 0 <= c < 22 ==> 0 <= #[trigger] counts[c],
    ensures
        count_sum(counts, 22) > 0,
{
    crate::deck::lemma_count_sum_nonneg(counts, 19);
    assert(count_sum(counts, 20) == count_sum(counts, 19) + counts[19]);
    assert(count_sum(counts, 21) == count_sum(counts, 20) + counts[20]);
    assert(count_sum(counts, 22) == count_sum(counts, 21) + counts[21]);
}

/// Counting back from `a`, each residue modulo `n` comes within `n` steps.
proof fn lemma_residue_reached(a: int, j: int, n: int)
    requires
        0 <= j < n,
    ensures
        0 <= (a - j) % n < n,
        (a - (a - j) % n) % n == j,
{
    let r = (a - j) % n;
    let q = (a - j) / n;
    vstd::arithmetic::div_mod::lemma_fundamental_div_mod(a - j, n);
    vstd::arithmetic::div_mod::lemma_mod_bound(a - j, n);
    assert(a - r == q * n + j) by (nonlinear_arith)
        requires
            a - j == n * q + r,
    ;
    vstd::arithmetic::div_mod::lemma_fundamental_div_mod_converse_mod(a - r, n, q, j);
}


/// Replacing one seat changes the room by that seat's alone.
proof fn lemma_room_update(ps: Seq<Player>, i: int, q: Player)
    requires
        0 <= i < ps.len(),
    ensures
        room(ps.update(i, q)) + seat_room(ps[i]) == room(ps) + seat_room(q),
    decreases ps.len(),
{
    if i < ps.len() - 1 {
        assert(ps.update(i, q).drop_last() =~= ps.drop_last().update(i, q));
        lemma_room_update(ps.drop_last(), i, q);
    } else {
        assert(ps.update(i, q).drop_last() =~= ps.drop_last());
    }
}

/// The seats at the start of a round have room for six number cards each.
proof fn lemma_room_reset(ps: Seq<Player>)
    ensures
        room(reset_seats(ps)) == 6 * ps.len(),
    decreases ps.len(),
{
    if ps.len() > 0 {
        assert(reset_seats(ps).drop_last() =~= reset_seats(ps.drop_last()));
        lemma_room_reset(ps.drop_last());
        lemma_count_bits_none(0, 13);
    }
}

/// The number of held copies of the cards below `k`, over all hands.
spec fn holders_total(hands: Seq<Hand>, k: nat) -> nat
    decreases k,
{
    if k == 0 {
        0
    } else {
        holders_total(hands, (k - 1) as nat) + holders(hands, (k - 1) as nat)
    }
}

/// The number cards held, hand by hand.
spec fn numbers_held(hands: Seq<Hand>) -> nat
    decreases hands.len(),
{
    if hands.len() == 0 {
        0
    } else {
        numbers_held(hands.drop_last()) + hands.last().number_cards()
    }
}

proof fn lemma_holders_total_last(hands: Seq<Hand>, k: nat)
    requires
        hands.len() > 0,
    ensures
        holders_total(hands, k) == holders_total(hands.drop_last(), k) + count_bits(hands.last().0, k),
    decreases k,
{
    if k > 0 {
        lemma_holders_total_last(hands, (k - 1) as nat);
    }
}

/// Counting held copies card by card or hand by hand gives the same.
proof fn lemma_holders_total_by_hand(hands: Seq<Hand>)
    ensures
        holders_total(hands, 13) == numbers_held(hands),
    decreases hands.len(),
{
    if hands.len() > 0 {
        lemma_holders_total_last(hands, 13);
        lemma_holders_total_by_hand(hands.drop_last());
    } else {
        lemma_holders_total_empty(hands, 13);
    }
}

proof fn lemma_holders_total_empty(hands: Seq<Hand>, k: nat)
    requires
        hands.len() == 0,
    ensures
        holders_total(hands, k) == 0,
    decreases k,
{
    if k > 0 {
        lemma_holders_total_empty(hands, (k - 1) as nat);
    }
}

/// The hands hold no more number cards than the seats have room for.
proof fn lemma_numbers_held_le_room(ps: Seq<Player>)
    ensures
        numbers_held(hands_of(ps)) <= room(ps),
    decreases ps.len(),
{
    if ps.len() > 0 {
        assert(hands_of(ps).drop_last() =~= hands_of(ps.drop_last()));
        lemma_numbers_held_le_room(ps.drop_last());
    }
}

/// When every card below `k` is held as often as the full deck has it, the
/// held copies are the full deck's.
proof fn lemma_holders_total_full(hands: Seq<Hand>, k: nat)
    requires
        k <= 22,
        forall|c: nat| c < k ==> #[trigger] holders(hands, c) == full_deck()[c as int],
    ensures
        holders_total(hands, k) == count_sum(full_deck(), k as int),
    decreases k,
{
    if k > 0 {
        lemma_holders_total_full(hands, (k - 1) as nat);
    }
}


/// Seats whose hands changed at seat `i` alone, to a hand of at most seven
/// number cards, keep every hand within seven.
proof fn lemma_within_seven_hands(ps: Seq<Player>, qs: Seq<Player>, i: int, h: Hand)
    requires
        within_seven(ps),
        0 <= i < ps.len(),
        qs.len() == ps.len(),
        hands_of(qs) == hands_of(ps).update(i, h),
        h.number_cards() <= 7,
    ensures
        within_seven(qs),
{
    assert forall|j: int| 0 <= j < qs.len() implies (#[trigger] qs[j]).hand.number_cards() <= 7 by {
        assert(hands_of(qs)[j] == qs[j].hand);
        assert(hands_of(ps)[j] == ps[j].hand);
    }
}

/// The room of some first seats is at most that of all.
proof fn lemma_room_prefix_le(ps: Seq<Player>, k: int)
    requires
        0 <= k <= ps.len(),
    ensures
        room(ps.take(k)) <= room(ps),
    decreases ps.len(),
{
    if k < ps.len() {
        assert(ps.drop_last().take(k) =~= ps.take(k));
        lemma_room_prefix_le(ps.drop_last(), k);
    } else {
        assert(ps.take(k) =~= ps);
    }
}

/// Scoring a round adds to each seat's total exactly its hand's score, unless
/// it busted, whatever its status otherwise (active, stayed or frozen); a
/// busted seat adds nothing. Hands, statuses, names, strategies and controls
/// stay as they were.
pub proof fn lemma_round_scoring(ps: Seq<Player>)
    requires
        scores_fit(ps),
    ensures
        finished(ps).len() == ps.len(),
        forall|j: int|
            0 <= j < ps.len() ==> (#[trigger] finished(ps)[j]).cumulative_score == ps[j].cumulative_score
                + if ps[j].status == PlayerStatus::Busted {
                0
            } else {
                ps[j].hand.spec_score()
            },
        forall|j: int|
            0 <= j < ps.len() ==> (#[trigger] finished(ps)[j]).hand == ps[j].hand
                && finished(ps)[j].status == ps[j].status && same_seat(finished(ps)[j], ps[j]),
{
    assert forall|j: int| 0 <= j < ps.len() implies (#[trigger] finished(ps)[j]).cumulative_score
        == ps[j].cumulative_score + if ps[j].status == PlayerStatus::Busted {
        0
    } else {
        ps[j].hand.spec_score()
    } by {
        lemma_score_bounds(ps[j].hand);
    }
}

/// The Status cell of a seat names its status: it reads "Active", "Frozen",
/// "Stayed" or "Busted" exactly for a seat of that status, so distinct
/// statuses read differently.
pub proof fn lemma_status_cell_names_status(p: Player)
    ensures
        seat_cells(p)[3] == status_text(p.status),
        (status_text(p.status) == "Active"@) == (p.status == PlayerStatus::Active),
        (status_text(p.status) == "Frozen"@) == (p.status == PlayerStatus::Frozen),
        (status_text(p.status) == "Stayed"@) == (p.status == PlayerStatus::Stayed),
        (status_text(p.status) == "Busted"@) == (p.status == PlayerStatus::Busted),
{
    reveal_strlit("Active");
    reveal_strlit("Frozen");
    reveal_strlit("Stayed");
    reveal_strlit("Busted");
    assert("Active"@[0] != "Frozen"@[0]);
    assert("Active"@[0] != "Stayed"@[0]);
    assert("Active"@[0] != "Busted"@[0]);
    assert("Frozen"@[0] != "Stayed"@[0]);
    assert("Frozen"@[0] != "Busted"@[0]);
    assert("Stayed"@[0] != "Busted"@[0]);
}

/// Distinct statuses are written differently.
pub proof fn lemma_status_texts_distinct(a: PlayerStatus, b: PlayerStatus)
    ensures
        (status_text(a) == status_text(b)) == (a == b),
{
    reveal_strlit("Active");
    reveal_strlit("Frozen");
    reveal_strlit("Stayed");
    reveal_strlit("Busted");
    assert("Active"@[0] != "Frozen"@[0]);
    assert("Active"@[0] != "Stayed"@[0]);
    assert("Active"@[0] != "Busted"@[0]);
    assert("Frozen"@[0] != "Stayed"@[0]);
    assert("Frozen"@[0] != "Busted"@[0]);
    assert("Stayed"@[0] != "Busted"@[0]);
}

} // verus!
